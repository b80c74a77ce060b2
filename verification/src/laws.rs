//! What holds of the whole: of every queue, of every server, of every client, and of what one
//! end reads of what the other end wrote.

pub mod playing;
pub mod serving;

use crate::client;
use crate::client::{
    complaints, is_readable, is_state, is_welcome, other_players, record_at, record_count,
    record_id, state_player, state_tick, told, u32_at, welcome_id, ClientEvent, ClientView,
    Prediction, MAX_PREDICTED_TICKS, PREDICTED_LEAD,
};
use crate::little_endian::{
    law_places, le_bytes, le_value, lemma_le_bytes_len, lemma_le_bytes_take, lemma_round_trip_u16,
    lemma_round_trip_u32,
};
use crate::packet::{at_once, PacketView, SocketAddress, PACKET_SLOTS};
use crate::player::{
    at_rest, is_kept_by, is_single_valued, law_input_round_trip, law_speed_is_kept,
    law_tick_is_determined, tick_by, PlayerInput, PlayerState, Step,
};
use crate::protocol::{
    full_state, input_request, join_reply, join_request, leave_request, other_state,
    MAX_CLIENTS,
};
use crate::ring_buffer::{has_room, offered};
use crate::screen::{covers, painted, pixel, ScreenRect, PIXELS, WINDOW_WIDTH};
use crate::server;
use crate::server::{
    announced, asks_to_join, free_slot, is_cut_short, is_first_free, newcomers, next_counter,
    others, owns, played_row, processed, record_row, record_slot, simulated, state_message, ticked,
    word_bytes, written_tick, IpEndpoint, ServerView, INPUT_BUFFER_SIZE,
};
use std::time::Instant;
use vstd::prelude::*;

verus! {

// Queues.

/// What a bounded queue holds after every one of `items` was offered to it, in order.
pub open spec fn offered_all<T>(queue: Seq<T>, capacity: nat, items: Seq<T>) -> Seq<T>
    decreases items.len(),
{
    if items.len() == 0 {
        queue
    } else {
        offered(offered_all(queue, capacity, items.drop_last()), capacity, items.last())
    }
}

/// A bounded queue keeps what it holds and takes items in the order in which they are offered,
/// the first ones, until it is full. It drops the rest.
pub proof fn law_queue_keeps_first<T>(queue: Seq<T>, capacity: nat, items: Seq<T>)
    requires
        queue.len() < capacity,
    ensures
        ({
            let room = capacity - 1 - queue.len();
            offered_all(queue, capacity, items) == queue + items.take(
                if items.len() < room {
                    items.len() as int
                } else {
                    room
                },
            )
        }),
    decreases items.len(),
{
    let room = capacity - 1 - queue.len();
    if items.len() == 0 {
        assert(queue + items.take(0) =~= queue);
    } else {
        law_queue_keeps_first(queue, capacity, items.drop_last());
        let taken = if items.len() < room {
            items.len() as int
        } else {
            room
        };
        assert(offered_all(queue, capacity, items) =~= queue + items.take(taken));
    }
}

/// A fresh ring takes exactly as many items as it has slots, less one: of those that are offered
/// to it the first `capacity - 1`, and no later one.
pub proof fn law_fresh_ring_fills<T>(capacity: nat, items: Seq<T>)
    requires
        capacity > 0,
    ensures
        has_room(offered_all(Seq::<T>::empty(), capacity, items), capacity) == (items.len()
            < capacity - 1),
{
    law_queue_keeps_first(Seq::<T>::empty(), capacity, items);
}

/// A queue takes an item exactly while it holds fewer than `capacity - 1`, and puts it last.
pub proof fn law_offer<T>(queue: Seq<T>, capacity: nat, item: T)
    ensures
        has_room(queue, capacity) <==> queue.len() + 1 < capacity,
        queue.len() + 1 < capacity ==> offered(queue, capacity, item) == queue.push(item),
        queue.len() + 1 >= capacity ==> offered(queue, capacity, item) == queue,
{
}

// Bytes.

/// The number that the two bytes from `at` on stand for.
pub open spec fn two_bytes(data: Seq<u8>, at: int) -> int {
    data[at] + 0x100 * data[at + 1]
}

/// The number that the four bytes from `at` on stand for.
pub open spec fn four_bytes(data: Seq<u8>, at: int) -> int {
    data[at] + 0x100 * data[at + 1] + 0x1_0000 * data[at + 2] + 0x100_0000 * data[at + 3]
}

/// The two bytes from `at` on, read as a number.
pub(crate) proof fn lemma_two_bytes(data: Seq<u8>, at: int)
    requires
        0 <= at,
        at + 2 <= data.len(),
    ensures
        le_value(data.subrange(at, at + 2)) == two_bytes(data, at),
{
    law_places(data.subrange(at, at + 2));
}

/// The four bytes from `at` on, read as a number.
pub(crate) proof fn lemma_four_bytes(data: Seq<u8>, at: int)
    requires
        0 <= at,
        at + 4 <= data.len(),
    ensures
        le_value(data.subrange(at, at + 4)) == four_bytes(data, at),
        u32_at(data, at) == four_bytes(data, at),
        0 <= four_bytes(data, at) <= u32::MAX,
{
    law_places(data.subrange(at, at + 4));
}

// The server.

/// Handling a packet keeps a server valid.
pub proof fn law_handled_is_valid(s: ServerView, data: Seq<u8>, from: SocketAddress, now: Instant)
    requires
        server::valid(s),
    ensures
        server::valid(server::handled(s, data, from, now)),
{
    if let Some(k) = free_slot(s.endpoints) {
        lemma_le_bytes_len(k as u16 as nat, 2);
    }
}

/// Whoever sits in a slot keeps it: no packet, a farewell included, frees a slot or gives it to
/// somebody else.
pub proof fn law_seats_are_kept(s: ServerView, data: Seq<u8>, from: SocketAddress, now: Instant)
    ensures
        ({
            let t = server::handled(s, data, from, now);
            &&& t.endpoints.len() == s.endpoints.len()
            &&& forall|i: int|
                0 <= i < s.endpoints.len() && s.endpoints[i] is Some ==> #[trigger] t.endpoints[i]
                    == s.endpoints[i]
        }),
{
    if let Some(k) = free_slot(s.endpoints) {
        assert(is_first_free(s.endpoints, k));
    }
}

/// Whoever sits in a slot still sits there after all waiting packets were handled.
pub proof fn law_seats_outlast_processing(s: ServerView, now: Instant)
    ensures
        ({
            let t = processed(s, now).0;
            &&& t.endpoints.len() == s.endpoints.len()
            &&& forall|i: int|
                0 <= i < s.endpoints.len() && s.endpoints[i] is Some ==> #[trigger] t.endpoints[i]
                    == s.endpoints[i]
        }),
    decreases s.incoming.len(),
{
    if s.incoming.len() > 0 {
        let packet = s.incoming[0];
        let rest = ServerView { incoming: s.incoming.drop_first(), ..s };
        let next = server::handled(rest, packet.data, packet.endpoint, now);
        law_seats_are_kept(rest, packet.data, packet.endpoint, now);
        law_seats_outlast_processing(next, now);
        assert forall|i: int| 0 <= i < s.endpoints.len() && s.endpoints[i] is Some implies #[trigger] processed(
            s,
            now,
        ).0.endpoints[i] == s.endpoints[i] by {
            assert(next.endpoints[i] == s.endpoints[i]);
        }
    }
}

/// Every newcomer sits, after all waiting packets were handled, in a slot that was free before, and
/// no two newcomers in the same one.
pub proof fn law_newcomers_are_seated(s: ServerView, now: Instant)
    requires
        s.endpoints.len() == MAX_CLIENTS,
    ensures
        ({
            let (t, log) = processed(s, now);
            forall|n: int|
                #![trigger log[n]]
                0 <= n < log.len() ==> {
                    let (slot, from) = log[n];
                    &&& slot < MAX_CLIENTS
                    &&& s.endpoints[slot as int] is None
                    &&& owns(t.endpoints, slot as int, from)
                }
        }),
        ({
            let log = processed(s, now).1;
            forall|m: int, n: int|
                #![trigger log[m], log[n]]
                0 <= m < n < log.len() ==> log[m].0 != log[n].0
        }),
    decreases s.incoming.len(),
{
    if s.incoming.len() > 0 {
        let packet = s.incoming[0];
        let rest = ServerView { incoming: s.incoming.drop_first(), ..s };
        let next = server::handled(rest, packet.data, packet.endpoint, now);
        law_seats_are_kept(rest, packet.data, packet.endpoint, now);
        law_newcomers_are_seated(next, now);
        law_seats_outlast_processing(next, now);
        let first = newcomers(s.endpoints, packet.data, packet.endpoint);
        let (t, later) = processed(next, now);
        let log = processed(s, now).1;
        assert(log == first + later);
        if let Some(k) = free_slot(s.endpoints) {
            assert(is_first_free(s.endpoints, k));
        }
        assert forall|n: int| #![trigger log[n]] 0 <= n < log.len() implies {
            let (slot, from) = log[n];
            &&& slot < MAX_CLIENTS
            &&& s.endpoints[slot as int] is None
            &&& owns(t.endpoints, slot as int, from)
        } by {
            if n < first.len() {
                assert(log[n] == first[n]);
            } else {
                assert(log[n] == later[n - first.len()]);
                let slot = log[n].0 as int;
                assert(s.endpoints[slot] is Some ==> next.endpoints[slot] == s.endpoints[slot]);
            }
        }
        assert forall|m: int, n: int| #![trigger log[m], log[n]] 0 <= m < n < log.len() implies log[m].0
            != log[n].0 by {
            assert(log[n] == later[n - first.len()]);
            if m < first.len() {
                assert(log[m] == first[m]);
                assert(next.endpoints[log[m].0 as int] is Some);
            } else {
                assert(log[m] == later[m - first.len()]);
            }
        }
    }
}

/// A request to join a server with a free slot seats its sender in the lowest one, with a player
/// at rest.
pub proof fn law_join_takes_lowest(s: ServerView, from: SocketAddress, now: Instant, k: int)
    requires
        server::valid(s),
        is_first_free(s.endpoints, k),
    ensures
        ({
            let t = server::handled(s, join_request(), from, now);
            &&& t.endpoints == s.endpoints.update(k, Some(IpEndpoint { address: from }))
            &&& owns(t.endpoints, k, from)
            &&& t.objects == s.objects.update(k, at_rest())
            &&& t.inputs == s.inputs
        }),
{
    server::lemma_free_slot(s.endpoints, k);
}

/// A request to join a full server changes nothing, and is not answered.
pub proof fn law_full_server_ignores_joins(
    s: ServerView,
    data: Seq<u8>,
    from: SocketAddress,
    now: Instant,
)
    requires
        asks_to_join(data),
        forall|i: int| 0 <= i < s.endpoints.len() ==> (#[trigger] s.endpoints[i]) is Some,
    ensures
        server::handled(s, data, from, now) == s,
{
}

/// A packet from somebody who sits in no slot, and who does not ask for one, changes nothing.
pub proof fn law_strangers_are_ignored(
    s: ServerView,
    data: Seq<u8>,
    from: SocketAddress,
    now: Instant,
)
    requires
        !asks_to_join(data),
        forall|i: int| !#[trigger] owns(s.endpoints, i, from),
    ensures
        server::handled(s, data, from, now) == s,
        !is_cut_short(s.endpoints, data, from),
{
}

/// A record of held keys changes nothing but the keys of its sender's own slot, in one row of the
/// input window, and when that slot was last heard of.
pub proof fn law_records_stay_in_their_slot(
    s: ServerView,
    data: Seq<u8>,
    from: SocketAddress,
    now: Instant,
)
    requires
        server::valid(s),
        !asks_to_join(data),
    ensures
        ({
            let t = server::handled(s, data, from, now);
            &&& t.endpoints == s.endpoints
            &&& t.objects == s.objects
            &&& t.outgoing == s.outgoing
            &&& t.incoming == s.incoming
            &&& forall|row: int, i: int|
                #![trigger t.inputs[row][i]]
                0 <= row < INPUT_BUFFER_SIZE && 0 <= i < MAX_CLIENTS && t.inputs[row][i]
                    != s.inputs[row][i] ==> owns(s.endpoints, i, from) && row == record_row(data)
                    && i == record_slot(data)
            &&& forall|i: int|
                #![trigger t.heard[i]]
                0 <= i < MAX_CLIENTS && t.heard[i] != s.heard[i] ==> owns(s.endpoints, i, from)
        }),
{
}

/// What the players of the first `n` slots are told, in the order of their slots.
pub open spec fn announcements(s: ServerView, tick: nat, now: Instant, n: nat) -> Seq<
    PacketView<SocketAddress>,
>
    decreases n,
{
    if n == 0 {
        Seq::empty()
    } else {
        let i = n - 1;
        let before = announcements(s, tick, now, i as nat);
        match s.endpoints[i] {
            Some(endpoint) => before.push(
                PacketView {
                    data: state_message(s.endpoints, s.objects, tick, i),
                    endpoint: endpoint.address,
                    release_time: at_once(now),
                },
            ),
            None => before,
        }
    }
}

/// The state of the game is queued for the players in the order of their slots, behind what waits
/// already, as long as there is room. Players for whom there is none are not told.
pub proof fn law_announced_in_order(s: ServerView, tick: nat, now: Instant, n: nat)
    requires
        server::valid(s),
        n <= MAX_CLIENTS,
    ensures
        ({
            let all = announcements(s, tick, now, n);
            let room = PACKET_SLOTS - 1 - s.outgoing.len();
            announced(s, tick, now, n) == s.outgoing + all.take(
                if all.len() < room {
                    all.len() as int
                } else {
                    room
                },
            )
        }),
{
    lemma_announced(s, tick, now, n);
    law_queue_keeps_first(s.outgoing, PACKET_SLOTS as nat, announcements(s, tick, now, n));
}

/// Queueing the state of the game for the players is offering each one's packet in turn.
proof fn lemma_announced(s: ServerView, tick: nat, now: Instant, n: nat)
    ensures
        announced(s, tick, now, n) == offered_all(
            s.outgoing,
            PACKET_SLOTS as nat,
            announcements(s, tick, now, n),
        ),
    decreases n,
{
    if n > 0 {
        let i = (n - 1) as nat;
        lemma_announced(s, tick, now, i);
        let before = announcements(s, tick, now, i);
        if s.endpoints[i as int] is Some {
            assert(announcements(s, tick, now, n).drop_last() =~= before);
        }
    }
}

/// The counter with which tick `n` of a server starts, whose first tick starts at zero.
pub open spec fn counter_at(n: nat) -> nat
    decreases n,
{
    if n == 0 {
        0
    } else {
        next_counter(counter_at((n - 1) as nat))
    }
}

/// The counter goes by twos. So tick `n` plays row `2 * n` of the input window, modulo its size,
/// and writes the number `2 * n + 1`. An even row comes up once in every thirty ticks, and an odd
/// row never.
pub proof fn law_schedule(n: nat)
    ensures
        counter_at(n) == 2 * n,
        played_row(counter_at(n)) == 2 * n % INPUT_BUFFER_SIZE as nat,
        written_tick(counter_at(n)) == 2 * n + 1,
        played_row(counter_at(n + 30)) == played_row(counter_at(n)),
        forall|row: int|
            0 <= row < INPUT_BUFFER_SIZE ==> (#[trigger] is_played(n, row) <==> row % 2 == 0 && n % 30
                == row / 2),
{
    lemma_counter(n);
    lemma_counter(n + 30);
}

/// Whether tick `n` plays a row of the input window.
pub open spec fn is_played(n: nat, row: int) -> bool {
    played_row(counter_at(n)) == row
}

/// The counter goes by twos.
proof fn lemma_counter(n: nat)
    ensures
        counter_at(n) == 2 * n,
    decreases n,
{
    if n > 0 {
        lemma_counter((n - 1) as nat);
    }
}

/// Tick `n` moves the players by the keys of row `2 * n` of the input window, modulo its size, and
/// tells them the tick `2 * n + 1`.
pub proof fn law_nth_tick(
    step: Step,
    n: nat,
    now: Instant,
    s: ServerView,
    t: ServerView,
    log: Seq<(usize, SocketAddress)>,
)
    requires
        ticked(step, counter_at(n), now, s, t, log),
    ensures
        ({
            let start = processed(s, now).0;
            let moved = ServerView { objects: t.objects, ..start };
            &&& simulated(
                step,
                start.endpoints,
                start.inputs[(2 * n % INPUT_BUFFER_SIZE as nat) as int],
                start.objects,
                t.objects,
            )
            &&& t.outgoing == announced(moved, (2 * n + 1) as nat, now, MAX_CLIENTS as nat)
        }),
{
    lemma_counter(n);
}

/// Whether a property holds of the speed of every player.
pub open spec fn speeds_hold(keep: spec_fn(u32) -> bool, objects: Seq<PlayerState>) -> bool {
    forall|i: int| 0 <= i < objects.len() ==> keep((#[trigger] objects[i]).speed)
}

/// What holds of the speed of a player at rest, and is kept by both keys that change a speed,
/// holds of every player's speed after every tick, if it held before: newcomers start at rest.
pub proof fn law_speeds_are_kept<
    U: Fn(u32) -> u32,
    D: Fn(u32) -> u32,
    L: Fn(u32) -> u32,
    R: Fn(u32) -> u32,
    A: Fn(PlayerState) -> (u32, u32),
>(
    speed_up: U,
    slow_down: D,
    turn_left: L,
    turn_right: R,
    advance: A,
    counter: nat,
    now: Instant,
    s: ServerView,
    t: ServerView,
    log: Seq<(usize, SocketAddress)>,
    keep: spec_fn(u32) -> bool,
)
    requires
        server::valid(s),
        ticked(
            tick_by(speed_up, slow_down, turn_left, turn_right, advance),
            counter,
            now,
            s,
            t,
            log,
        ),
        is_kept_by(keep, speed_up),
        is_kept_by(keep, slow_down),
        keep(at_rest().speed),
        speeds_hold(keep, s.objects),
    ensures
        speeds_hold(keep, t.objects),
{
    lemma_processing_keeps_speeds(s, now, keep);
    let start = processed(s, now).0;
    let row = start.inputs[played_row(counter)];
    assert forall|i: int| 0 <= i < t.objects.len() implies keep((#[trigger] t.objects[i]).speed) by {
        let before = start.objects[i];
        if start.endpoints[i] is Some && row[i].1 {
            law_speed_is_kept(
                speed_up,
                slow_down,
                turn_left,
                turn_right,
                advance,
                row[i].0,
                before,
                t.objects[i],
                keep,
            );
        }
    }
}

/// Handling the waiting packets keeps what holds of every speed and of that of a player at rest.
proof fn lemma_processing_keeps_speeds(s: ServerView, now: Instant, keep: spec_fn(u32) -> bool)
    requires
        server::valid(s),
        keep(at_rest().speed),
        speeds_hold(keep, s.objects),
    ensures
        speeds_hold(keep, processed(s, now).0.objects),
    decreases s.incoming.len(),
{
    if s.incoming.len() > 0 {
        let packet = s.incoming[0];
        let rest = ServerView { incoming: s.incoming.drop_first(), ..s };
        let next = server::handled(rest, packet.data, packet.endpoint, now);
        if let Some(k) = free_slot(s.endpoints) {
            assert(is_first_free(s.endpoints, k));
        }
        law_handled_is_valid(rest, packet.data, packet.endpoint, now);
        lemma_processing_keeps_speeds(next, now, keep);
    }
}

/// Nothing that was reported for an odd row moves anybody: two servers that differ in the odd rows
/// of their input windows only move their players alike.
pub proof fn law_odd_rows_move_nobody(
    step: Step,
    n: nat,
    endpoints: Seq<Option<IpEndpoint>>,
    inputs: Seq<Seq<(PlayerInput, bool)>>,
    other: Seq<Seq<(PlayerInput, bool)>>,
    before: Seq<PlayerState>,
    after: Seq<PlayerState>,
)
    requires
        forall|row: int|
            0 <= row < INPUT_BUFFER_SIZE && row % 2 == 0 ==> #[trigger] inputs[row] == other[row],
    ensures
        simulated(step, endpoints, inputs[played_row(counter_at(n))], before, after)
            == simulated(step, endpoints, other[played_row(counter_at(n))], before, after),
{
    lemma_counter(n);
    let row = played_row(counter_at(n));
    assert(inputs[row] == other[row]);
}

// What one end reads of what the other end wrote.

/// A report of held keys, by the player of the slot that it names, is whole, and the server
/// enters those very keys for that slot and tick.
pub proof fn law_input_reaches_server(
    s: ServerView,
    slot: u16,
    tick: u32,
    input: PlayerInput,
    from: SocketAddress,
    now: Instant,
)
    requires
        server::valid(s),
        owns(s.endpoints, slot as int, from),
    ensures
        ({
            let data = input_request(slot, tick, input);
            let row = tick as int % INPUT_BUFFER_SIZE as int;
            let t = server::handled(s, data, from, now);
            &&& !is_cut_short(s.endpoints, data, from)
            &&& t == ServerView {
                heard: s.heard.update(slot as int, 0u32),
                inputs: s.inputs.update(row, s.inputs[row].update(slot as int, (input, true))),
                ..s
            }
        }),
{
    let data = input_request(slot, tick, input);
    lemma_le_bytes_len(slot as nat, 2);
    lemma_le_bytes_len(tick as nat, 4);
    assert(data.subrange(1, 3) =~= le_bytes(slot as nat, 2));
    assert(data.subrange(3, 7) =~= le_bytes(tick as nat, 4));
    lemma_round_trip_u16(slot);
    lemma_round_trip_u32(tick as nat);
    law_input_round_trip(input);
}

/// The keys that a player reports for a tick are those that the player is moved by whenever the
/// server simulates that tick's row of the input window.
pub proof fn law_reported_keys_move_the_player(
    step: Step,
    s: ServerView,
    slot: u16,
    tick: u32,
    input: PlayerInput,
    from: SocketAddress,
    now: Instant,
    after: Seq<PlayerState>,
)
    requires
        server::valid(s),
        owns(s.endpoints, slot as int, from),
        ({
            let t = server::handled(s, input_request(slot, tick, input), from, now);
            let row = tick as int % INPUT_BUFFER_SIZE as int;
            server::simulated(step, t.endpoints, t.inputs[row], t.objects, after)
        }),
    ensures
        step(s.objects[slot as int], input, after[slot as int]),
{
    law_input_reaches_server(s, slot, tick, input, from, now);
    assert(after[slot as int] == after[slot as int]);
}

/// A farewell by the player of the slot that it names is one that the server has no answer to; by
/// anybody else it changes nothing.
pub proof fn law_farewell(s: ServerView, slot: u16, from: SocketAddress, now: Instant)
    ensures
        is_cut_short(s.endpoints, leave_request(slot), from) == owns(
            s.endpoints,
            slot as int,
            from,
        ),
        !owns(s.endpoints, slot as int, from) ==> server::handled(s, leave_request(slot), from, now)
            == s,
{
    let data = leave_request(slot);
    lemma_le_bytes_len(slot as nat, 2);
    assert(data.subrange(1, 3) =~= le_bytes(slot as nat, 2));
    lemma_round_trip_u16(slot);
}

/// The answer to a client that was given a slot tells it that very slot.
pub proof fn law_welcome_reaches_client(slot: u16)
    ensures
        is_welcome(join_reply(slot)),
        is_readable(join_reply(slot)),
        welcome_id(join_reply(slot)) == slot,
{
    let data = join_reply(slot);
    lemma_le_bytes_len(slot as nat, 2);
    assert(data.subrange(2, 4) =~= le_bytes(slot as nat, 2));
    lemma_round_trip_u16(slot);
}

/// A request to join, sent to a server with a free slot and room in its queue, is answered to its
/// sender with a welcome to the slot that the sender was given.
pub proof fn law_join_is_answered(s: ServerView, from: SocketAddress, now: Instant, k: int)
    requires
        server::valid(s),
        is_first_free(s.endpoints, k),
        s.outgoing.len() + 1 < PACKET_SLOTS,
    ensures
        ({
            let t = server::handled(s, join_request(), from, now);
            &&& t.outgoing.drop_last() == s.outgoing
            &&& t.outgoing.last().endpoint == from
            &&& is_welcome(t.outgoing.last().data)
            &&& welcome_id(t.outgoing.last().data) == k
        }),
{
    server::lemma_free_slot(s.endpoints, k);
    law_welcome_reaches_client(k as u16);
    let t = server::handled(s, join_request(), from, now);
    assert(t.outgoing.drop_last() =~= s.outgoing);
}

/// How many of the first `n` slots are taken by somebody other than the player of slot `i`.
pub open spec fn others_count(endpoints: Seq<Option<IpEndpoint>>, i: int, n: nat) -> nat
    decreases n,
{
    if n == 0 {
        0
    } else {
        others_count(endpoints, i, (n - 1) as nat) + if n - 1 != i && endpoints[n - 1] is Some {
            1nat
        } else {
            0nat
        }
    }
}

/// What a client is told of another player takes 14 bytes, and gives back slot, place and heading.
pub(crate) proof fn lemma_other_state(slot: u16, state: PlayerState)
    ensures
        ({
            let record = other_state(slot, state);
            &&& record.len() == 14
            &&& le_value(record.subrange(0, 2)) == slot
            &&& u32_at(record, 2) == state.x
            &&& u32_at(record, 6) == state.y
            &&& u32_at(record, 10) == state.facing
        }),
{
    let record = other_state(slot, state);
    lemma_le_bytes_len(slot as nat, 2);
    lemma_le_bytes_len(state.x as nat, 4);
    lemma_le_bytes_len(state.y as nat, 4);
    lemma_le_bytes_len(state.facing as nat, 4);
    assert(record.subrange(0, 2) =~= le_bytes(slot as nat, 2));
    assert(record.subrange(2, 6) =~= le_bytes(state.x as nat, 4));
    assert(record.subrange(6, 10) =~= le_bytes(state.y as nat, 4));
    assert(record.subrange(10, 14) =~= le_bytes(state.facing as nat, 4));
    lemma_round_trip_u16(slot);
    lemma_round_trip_u32(state.x as nat);
    lemma_round_trip_u32(state.y as nat);
    lemma_round_trip_u32(state.facing as nat);
}

/// All four quantities of a player take 16 bytes and are given back.
pub(crate) proof fn lemma_full_state(state: PlayerState)
    ensures
        ({
            let record = full_state(state);
            &&& record.len() == 16
            &&& u32_at(record, 0) == state.x
            &&& u32_at(record, 4) == state.y
            &&& u32_at(record, 8) == state.facing
            &&& u32_at(record, 12) == state.speed
        }),
{
    let record = full_state(state);
    lemma_le_bytes_len(state.x as nat, 4);
    lemma_le_bytes_len(state.y as nat, 4);
    lemma_le_bytes_len(state.facing as nat, 4);
    lemma_le_bytes_len(state.speed as nat, 4);
    assert(record.subrange(0, 4) =~= le_bytes(state.x as nat, 4));
    assert(record.subrange(4, 8) =~= le_bytes(state.y as nat, 4));
    assert(record.subrange(8, 12) =~= le_bytes(state.facing as nat, 4));
    assert(record.subrange(12, 16) =~= le_bytes(state.speed as nat, 4));
    lemma_round_trip_u32(state.x as nat);
    lemma_round_trip_u32(state.y as nat);
    lemma_round_trip_u32(state.facing as nat);
    lemma_round_trip_u32(state.speed as nat);
}

/// The records of the other players lie one after the other, 14 bytes each.
pub(crate) proof fn lemma_others_len(
    endpoints: Seq<Option<IpEndpoint>>,
    objects: Seq<PlayerState>,
    i: int,
    n: nat,
)
    ensures
        others(endpoints, objects, i, n).len() == 14 * others_count(endpoints, i, n),
    decreases n,
{
    if n > 0 {
        lemma_others_len(endpoints, objects, i, (n - 1) as nat);
        lemma_other_state((n - 1) as u16, objects[n - 1]);
    }
}

/// Where the record of slot `j` lies among those of the first `n` slots.
pub(crate) proof fn lemma_others_record(
    endpoints: Seq<Option<IpEndpoint>>,
    objects: Seq<PlayerState>,
    i: int,
    j: nat,
    n: nat,
)
    requires
        j < n,
        j != i,
        endpoints[j as int] is Some,
    ensures
        others_count(endpoints, i, j) < others_count(endpoints, i, n),
        ({
            let at = 14 * others_count(endpoints, i, j) as int;
            others(endpoints, objects, i, n).subrange(at, at + 14) == other_state(
                j as u16,
                objects[j as int],
            )
        }),
    decreases n,
{
    let at = 14 * others_count(endpoints, i, j) as int;
    let last = (n - 1) as nat;
    let before = others(endpoints, objects, i, last);
    lemma_others_len(endpoints, objects, i, last);
    lemma_others_len(endpoints, objects, i, n);
    lemma_other_state(j as u16, objects[j as int]);
    if j == last {
        assert(others(endpoints, objects, i, n).subrange(at, at + 14) =~= other_state(
            j as u16,
            objects[j as int],
        ));
    } else {
        lemma_others_record(endpoints, objects, i, j, last);
        assert(others(endpoints, objects, i, n).subrange(at, at + 14) =~= before.subrange(
            at,
            at + 14,
        ));
    }
}

/// What the client makes of the records of the first `n` slots of a message whose records begin
/// where the client looks for them.
proof fn lemma_told(
    endpoints: Seq<Option<IpEndpoint>>,
    theirs: Seq<PlayerState>,
    i: int,
    message: Seq<u8>,
    objects: Seq<PlayerState>,
    n: nat,
)
    requires
        message.len() >= 21,
        message.skip(21) == others(endpoints, theirs, i, MAX_CLIENTS as nat),
        objects.len() == MAX_CLIENTS,
        n <= MAX_CLIENTS,
    ensures
        ({
            let count = others_count(endpoints, i, n);
            &&& complaints(message, count) == Seq::<ClientEvent>::empty()
            &&& other_players(message, i, count) == count
            &&& told(objects, message, count).len() == MAX_CLIENTS
            &&& forall|k: int|
                #![trigger told(objects, message, count)[k]]
                0 <= k < MAX_CLIENTS ==> told(objects, message, count)[k] == if k < n && k != i
                    && endpoints[k] is Some {
                    PlayerState { speed: objects[k].speed, ..theirs[k] }
                } else {
                    objects[k]
                }
        }),
    decreases n,
{
    if n > 0 {
        let j = (n - 1) as nat;
        lemma_told(endpoints, theirs, i, message, objects, j);
        if j != i && endpoints[j as int] is Some {
            let at = 14 * others_count(endpoints, i, j) as int;
            let tail = others(endpoints, theirs, i, MAX_CLIENTS as nat);
            lemma_others_record(endpoints, theirs, i, j, MAX_CLIENTS as nat);
            lemma_others_len(endpoints, theirs, i, MAX_CLIENTS as nat);
            let record = other_state(j as u16, theirs[j as int]);
            lemma_other_state(j as u16, theirs[j as int]);
            assert(tail.subrange(at, at + 14) == record);
            assert forall|from: int, to: int| 0 <= from <= to <= 14 implies #[trigger] message.subrange(
                21 + at + from,
                21 + at + to,
            ) == record.subrange(from, to) by {
                assert(message.subrange(21 + at + from, 21 + at + to) =~= message.skip(
                    21,
                ).subrange(at, at + 14).subrange(from, to));
            }
            let k = others_count(endpoints, i, j) as int;
            assert(record_at(k) == 21 + at);
            assert(message.subrange(21 + at + 0, 21 + at + 2) == record.subrange(0, 2));
            assert(message.subrange(21 + at + 2, 21 + at + 6) == record.subrange(2, 6));
            assert(message.subrange(21 + at + 6, 21 + at + 10) == record.subrange(6, 10));
            assert(message.subrange(21 + at + 10, 21 + at + 14) == record.subrange(10, 14));
            assert(record_id(message, k) == j);
        }
    }
}

/// The tick of the server's counter reaches the client, cut to four bytes, whatever the size of
/// the server's machine word.
pub proof fn law_tick_reaches_client(
    endpoints: Seq<Option<IpEndpoint>>,
    theirs: Seq<PlayerState>,
    tick: nat,
    i: int,
)
    ensures
        ({
            let message = state_message(endpoints, theirs, tick, i);
            &&& is_state(message)
            &&& message.len() >= 21
            &&& state_tick(message) == tick % 0x1_0000_0000
            &&& is_readable(message) == (tick % 0x1_0000_0000 + PREDICTED_LEAD <= u32::MAX)
        }),
{
    let message = state_message(endpoints, theirs, tick, i);
    assert(word_bytes() == 4 || word_bytes() == 8);
    lemma_le_bytes_len(tick, word_bytes());
    lemma_le_bytes_take(tick, word_bytes(), 4);
    lemma_full_state(theirs[i]);
    assert(message.subrange(1, 5) =~= le_bytes(tick, word_bytes()).take(4));
    lemma_round_trip_u32(tick);
}

/// On a server whose machine words have four bytes, what a client reads of a state is what the
/// server wrote: its own player, the place and heading of every other player, their number, and
/// nothing to complain of. What the client held of free slots, and every speed, stays.
pub proof fn law_state_reaches_client(
    endpoints: Seq<Option<IpEndpoint>>,
    theirs: Seq<PlayerState>,
    tick: nat,
    i: int,
    objects: Seq<PlayerState>,
)
    requires
        word_bytes() == 4,
        objects.len() == MAX_CLIENTS,
    ensures
        ({
            let message = state_message(endpoints, theirs, tick, i);
            let count = record_count(message);
            &&& is_state(message)
            &&& message.len() >= 21
            &&& state_player(message) == theirs[i]
            &&& count == others_count(endpoints, i, MAX_CLIENTS as nat)
            &&& complaints(message, count) == Seq::<ClientEvent>::empty()
            &&& other_players(message, i, count) == count
            &&& forall|k: int|
                #![trigger told(objects, message, count)[k]]
                0 <= k < MAX_CLIENTS ==> told(objects, message, count)[k] == if k != i
                    && endpoints[k] is Some {
                    PlayerState { speed: objects[k].speed, ..theirs[k] }
                } else {
                    objects[k]
                }
        }),
{
    let message = state_message(endpoints, theirs, tick, i);
    let tail = others(endpoints, theirs, i, MAX_CLIENTS as nat);
    let own = full_state(theirs[i]);
    lemma_le_bytes_len(tick, 4);
    lemma_full_state(theirs[i]);
    lemma_others_len(endpoints, theirs, i, MAX_CLIENTS as nat);
    assert(message.skip(21) =~= tail);
    assert(message.subrange(5, 9) =~= own.subrange(0, 4));
    assert(message.subrange(9, 13) =~= own.subrange(4, 8));
    assert(message.subrange(13, 17) =~= own.subrange(8, 12));
    assert(message.subrange(17, 21) =~= own.subrange(12, 16));
    assert(record_count(message) == others_count(endpoints, i, MAX_CLIENTS as nat));
    lemma_told(endpoints, theirs, i, message, objects, MAX_CLIENTS as nat);
}

/// On a server whose machine words have eight bytes, the counter takes four bytes more than a
/// client expects: the client takes the counter's high half for its own place across, and each
/// quantity for the next.
pub proof fn law_wide_state_is_shifted(
    endpoints: Seq<Option<IpEndpoint>>,
    theirs: Seq<PlayerState>,
    tick: nat,
    i: int,
)
    requires
        word_bytes() == 8,
    ensures
        state_player(state_message(endpoints, theirs, tick, i)) == (PlayerState {
            x: (tick / 0x1_0000_0000 % 0x1_0000_0000) as u32,
            y: theirs[i].x,
            facing: theirs[i].y,
            speed: theirs[i].facing,
        }),
{
    let message = state_message(endpoints, theirs, tick, i);
    let own = full_state(theirs[i]);
    lemma_le_bytes_len(tick, 8);
    lemma_le_bytes_len(tick / 0x1_0000_0000, 4);
    lemma_full_state(theirs[i]);
    assert(le_bytes(tick, 8).skip(4) == le_bytes(tick / 0x1_0000_0000, 4)) by {
        lemma_le_bytes_len(tick / 256 / 256 / 256 / 256, 4);
        reveal_with_fuel(le_bytes, 5);
        assert(tick / 256 / 256 / 256 / 256 == tick / 0x1_0000_0000);
        assert(le_bytes(tick, 8).skip(4) =~= le_bytes(tick / 256 / 256 / 256 / 256, 4));
    }
    assert(message.subrange(5, 9) =~= le_bytes(tick, 8).skip(4));
    assert(message.subrange(9, 13) =~= own.subrange(0, 4));
    assert(message.subrange(13, 17) =~= own.subrange(4, 8));
    assert(message.subrange(17, 21) =~= own.subrange(8, 12));
    lemma_round_trip_u32(tick / 0x1_0000_0000);
}

// The client.

/// Taking the server's word at a tick drops exactly the predictions of earlier ticks: what is
/// left are the latest ones, and the oldest of them is of that tick or a later one.
pub proof fn law_stale_predictions_go(s: ClientView, received: u32)
    requires
        client::valid(s),
    ensures
        ({
            let left = client::kept(s, received);
            &&& left.len() <= s.history.len()
            &&& left == s.history.skip(s.history.len() - left.len())
            &&& left.len() > 0 ==> s.tick_number - left.len() >= received
            &&& left.len() < s.history.len() ==> s.tick_number - left.len() <= received
        }),
{
}

/// The path along which a client's own player went while the client predicted.
pub(crate) proof fn lemma_predicted_path(
    step: Step,
    input: PlayerInput,
    s: ClientView,
    t: ClientView,
) -> (path: Seq<PlayerState>)
    requires
        client::predicted(step, input, s, t),
    ensures
        client::is_path(step, input, path),
        path.len() == client::ticks_due(s) + 1,
        path[0] == s.local_player,
        t == client::after_path(s, path, input),
{
    choose|path: Seq<PlayerState>|
        {
            &&& #[trigger] client::is_path(step, input, path)
            &&& path.len() == client::ticks_due(s) + 1
            &&& path[0] == s.local_player
            &&& t == client::after_path(s, path, input)
        }
}

/// Predicting brings a client to its target tick, or leaves it where it is if it is there already.
/// What was noted down before stays, and what is new was noted down with the keys that are held.
/// Nothing but the client's own player changes.
pub proof fn law_prediction_reaches_target(
    step: Step,
    input: PlayerInput,
    s: ClientView,
    t: ClientView,
)
    requires
        client::valid(s),
        client::predicted(step, input, s, t),
    ensures
        t.tick_number == if s.tick_number < s.target_tick_number {
            s.target_tick_number
        } else {
            s.tick_number
        },
        t == (ClientView {
            local_player: t.local_player,
            history: t.history,
            tick_number: t.tick_number,
            ..s
        }),
        s.history.is_prefix_of(t.history),
        forall|k: int|
            s.history.len() <= k < t.history.len() ==> (#[trigger] t.history[k]).input == input,
        s.target_tick_number <= s.tick_number ==> t == s,
{
    let path = lemma_predicted_path(step, input, s, t);
    if s.target_tick_number <= s.tick_number {
        assert(t.history =~= s.history);
    }
}

/// Where the history has room for every tick that is due, predicting keeps it whole: its oldest
/// entry is of the same tick as before.
pub proof fn law_history_stays_aligned(
    step: Step,
    input: PlayerInput,
    s: ClientView,
    t: ClientView,
)
    requires
        client::valid(s),
        client::predicted(step, input, s, t),
        s.history.len() + client::ticks_due(s) < MAX_PREDICTED_TICKS,
    ensures
        client::head_tick(t) == client::head_tick(s),
{
    let path = lemma_predicted_path(step, input, s, t);
}

/// One round of the server's simulation: who sat where, what keys were reported, and the players
/// before and after.
pub struct Round {
    pub endpoints: Seq<Option<IpEndpoint>>,
    pub row: Seq<(PlayerInput, bool)>,
    pub before: Seq<PlayerState>,
    pub after: Seq<PlayerState>,
}

/// Whether in round `k` the server moved the player of `slot` by the keys of that round, from where
/// the round before it left the player.
pub open spec fn is_round_at(
    step: Step,
    slot: int,
    start: PlayerState,
    keys: Seq<PlayerInput>,
    rounds: Seq<Round>,
    k: int,
) -> bool {
    let round = rounds[k];
    &&& simulated(step, round.endpoints, round.row, round.before, round.after)
    &&& 0 <= slot < round.after.len()
    &&& round.endpoints[slot] is Some
    &&& round.row[slot] == (keys[k], true)
    &&& round.before[slot] == if k == 0 {
        start
    } else {
        rounds[k - 1].after[slot]
    }
}

/// Whether the server moved the player of `slot` from `start` by the given keys, one round for
/// each.
pub open spec fn is_simulation(
    step: Step,
    slot: int,
    start: PlayerState,
    keys: Seq<PlayerInput>,
    rounds: Seq<Round>,
) -> bool {
    &&& rounds.len() == keys.len()
    &&& forall|k: int|
        0 <= k < rounds.len() ==> #[trigger] is_round_at(
            step,
            slot,
            start,
            keys,
            rounds,
            k,
        )
}

/// Whether a step leads a player with the same keys to one place only.
pub open spec fn is_determined(step: Step) -> bool {
    forall|s: PlayerState, input: PlayerInput, t: PlayerState, other: PlayerState|
        #![trigger step(s, input, t), step(s, input, other)]
        step(s, input, t) && step(s, input, other) ==> t == other
}

/// A tick is determined, where each of the functions that move a player gives one result for each
/// argument.
pub proof fn law_ticks_are_determined<
    U: Fn(u32) -> u32,
    D: Fn(u32) -> u32,
    L: Fn(u32) -> u32,
    R: Fn(u32) -> u32,
    A: Fn(PlayerState) -> (u32, u32),
>(speed_up: U, slow_down: D, turn_left: L, turn_right: R, advance: A)
    requires
        is_single_valued(speed_up),
        is_single_valued(slow_down),
        is_single_valued(turn_left),
        is_single_valued(turn_right),
        is_single_valued(advance),
    ensures
        is_determined(tick_by(speed_up, slow_down, turn_left, turn_right, advance)),
{
    let step = tick_by(speed_up, slow_down, turn_left, turn_right, advance);
    assert forall|s: PlayerState, input: PlayerInput, t: PlayerState, other: PlayerState|
        #![trigger step(s, input, t), step(s, input, other)]
        step(s, input, t) && step(s, input, other) implies t == other by {
        law_tick_is_determined(
            speed_up,
            slow_down,
            turn_left,
            turn_right,
            advance,
            input,
            s,
            t,
            other,
        );
    }
}

/// A client that plays its predictions again from what the server said comes, tick by tick, to
/// where the server comes to with the same keys.
pub proof fn law_replay_follows_server(
    step: Step,
    slot: int,
    start: PlayerState,
    before: Seq<Prediction>,
    after: Seq<Prediction>,
    rounds: Seq<Round>,
)
    requires
        is_determined(step),
        client::replayed(step, start, before, after),
        is_simulation(
            step,
            slot,
            start,
            before.map_values(|prediction: Prediction| prediction.input),
            rounds,
        ),
    ensures
        forall|k: int|
            0 <= k < after.len() ==> (#[trigger] after[k]).state == rounds[k].after[slot],
{
    assert forall|k: int| 0 <= k < after.len() implies (#[trigger] after[k]).state
        == rounds[k].after[slot] by {
        lemma_replay_follows_server(step, slot, start, before, after, rounds, k as nat);
    }
}

/// Entry `k` of what was played again is where the server came to in round `k`.
proof fn lemma_replay_follows_server(
    step: Step,
    slot: int,
    start: PlayerState,
    before: Seq<Prediction>,
    after: Seq<Prediction>,
    rounds: Seq<Round>,
    k: nat,
)
    requires
        is_determined(step),
        client::replayed(step, start, before, after),
        is_simulation(
            step,
            slot,
            start,
            before.map_values(|prediction: Prediction| prediction.input),
            rounds,
        ),
        k < after.len(),
    ensures
        after[k as int].state == rounds[k as int].after[slot],
    decreases k,
{
    let keys = before.map_values(|prediction: Prediction| prediction.input);
    if k > 0 {
        lemma_replay_follows_server(
            step,
            slot,
            start,
            before,
            after,
            rounds,
            (k - 1) as nat,
        );
    }
    assert(client::is_replayed_at(step, start, before, after, k as int));
    assert(is_round_at(step, slot, start, keys, rounds, k as int));
    assert(step(
        rounds[k as int].before[slot],
        keys[k as int],
        rounds[k as int].after[slot],
    ));
}

/// A client whose prediction was wrong ends up where the server comes to with the keys that the
/// client held since.
pub proof fn law_correction_follows_server<D: Fn(PlayerState, PlayerState) -> bool>(
    step: Step,
    differs: D,
    s: ClientView,
    received: u32,
    actual: PlayerState,
    t: ClientView,
    log: Seq<ClientEvent>,
    slot: int,
    rounds: Seq<Round>,
)
    requires
        is_determined(step),
        client::reconciled(step, differs, s, received, actual, t, log),
        log.len() > 0,
        is_simulation(
            step,
            slot,
            actual,
            client::kept(s, received).map_values(|prediction: Prediction| prediction.input),
            rounds,
        ),
    ensures
        t.local_player == rounds.last().after[slot],
{
    law_replay_follows_server(
        step,
        slot,
        actual,
        client::kept(s, received),
        t.history,
        rounds,
    );
}

/// A client that predicts from where the server has its player comes to where the server comes to
/// with the same keys.
pub proof fn law_prediction_follows_server(
    step: Step,
    slot: int,
    input: PlayerInput,
    s: ClientView,
    t: ClientView,
    rounds: Seq<Round>,
)
    requires
        is_determined(step),
        client::predicted(step, input, s, t),
        is_simulation(
            step,
            slot,
            s.local_player,
            Seq::new(client::ticks_due(s), |k: int| input),
            rounds,
        ),
        client::ticks_due(s) > 0,
    ensures
        t.local_player == rounds.last().after[slot],
{
    let path = lemma_predicted_path(step, input, s, t);
    lemma_path_follows_server(step, slot, input, path, rounds, client::ticks_due(s));
}

/// State `k` of a path is where the server came to after `k` rounds.
proof fn lemma_path_follows_server(
    step: Step,
    slot: int,
    input: PlayerInput,
    path: Seq<PlayerState>,
    rounds: Seq<Round>,
    k: nat,
)
    requires
        is_determined(step),
        client::is_path(step, input, path),
        path.len() == rounds.len() + 1,
        is_simulation(
            step,
            slot,
            path[0],
            Seq::new(rounds.len(), |k: int| input),
            rounds,
        ),
        0 < k <= rounds.len(),
    ensures
        path[k as int] == rounds[k - 1].after[slot],
    decreases k,
{
    if k > 1 {
        lemma_path_follows_server(step, slot, input, path, rounds, (k - 1) as nat);
    }
    let keys = Seq::new(rounds.len(), |k: int| input);
    assert(client::is_path_at(step, input, path, k as int));
    assert(is_round_at(step, slot, path[0], keys, rounds, k - 1));
    assert(step(rounds[k - 1].before[slot], input, rounds[k - 1].after[slot]));
}

/// The index of the last packet that tells of a state among the first `n`, or -1.
pub open spec fn last_state(packets: Seq<PacketView<Seq<char>>>, n: nat) -> int
    decreases n,
{
    if n == 0 {
        -1
    } else if is_state(packets[n - 1].data) {
        n - 1
    } else {
        last_state(packets, (n - 1) as nat)
    }
}

/// The index of the last packet that welcomes the client among the first `n`, or -1.
pub open spec fn last_welcome(packets: Seq<PacketView<Seq<char>>>, n: nat) -> int
    decreases n,
{
    if n == 0 {
        -1
    } else if is_welcome(packets[n - 1].data) {
        n - 1
    } else {
        last_welcome(packets, (n - 1) as nat)
    }
}

/// What handling the first `n` waiting packets leaves alone, and what the last of each kind
/// decides.
pub open spec fn is_decided(s: ClientView, t: ClientView, n: nat) -> bool {
    let state = last_state(s.incoming, n);
    let welcome = last_welcome(s.incoming, n);
    &&& t.incoming == s.incoming.skip(n as int)
    &&& t.tick_number == s.tick_number
    &&& t.outgoing == s.outgoing
    &&& t.vertices == s.vertices
    &&& t.frame == s.frame
    &&& if state < 0 {
        &&& t.local_player == s.local_player
        &&& t.history == s.history
        &&& t.objects == s.objects
        &&& t.num_objects == s.num_objects
        &&& t.target_tick_number == s.target_tick_number
    } else {
        t.target_tick_number == (state_tick(s.incoming[state].data) + PREDICTED_LEAD) as u32
    }
    &&& t.client_id == if welcome < 0 {
        s.client_id
    } else {
        Some(welcome_id(s.incoming[welcome].data))
    }
}

/// What handling one packet leaves alone, and what it decides.
pub(crate) proof fn lemma_step<D: Fn(PlayerState, PlayerState) -> bool>(
    step: Step,
    differs: D,
    s: ClientView,
    t: ClientView,
    log: Seq<ClientEvent>,
)
    requires
        client::handled(step, differs, s, t, log),
    ensures
        ({
            let data = s.incoming[0].data;
            &&& t.incoming == s.incoming.drop_first()
            &&& t.tick_number == s.tick_number
            &&& t.outgoing == s.outgoing
            &&& t.vertices == s.vertices
            &&& t.frame == s.frame
            &&& if is_state(data) {
                t.target_tick_number == (state_tick(data) + PREDICTED_LEAD) as u32
            } else {
                &&& t.local_player == s.local_player
                &&& t.history == s.history
                &&& t.objects == s.objects
                &&& t.num_objects == s.num_objects
                &&& t.target_tick_number == s.target_tick_number
            }
            &&& t.client_id == if is_welcome(data) {
                Some(welcome_id(data))
            } else {
                s.client_id
            }
        }),
{
}

/// The indices of the last packets of a kind lie among the packets looked at.
proof fn lemma_last(packets: Seq<PacketView<Seq<char>>>, n: nat)
    ensures
        -1 <= last_state(packets, n) < n,
        -1 <= last_welcome(packets, n) < n,
    decreases n,
{
    if n > 0 {
        lemma_last(packets, (n - 1) as nat);
    }
}

/// A run through the first `n` packets is decided by them.
proof fn lemma_run<D: Fn(PlayerState, PlayerState) -> bool>(
    step: Step,
    differs: D,
    trace: Seq<(ClientView, Seq<ClientEvent>)>,
    n: nat,
)
    requires
        client::is_run(step, differs, trace),
        n < trace.len(),
        n <= trace[0].0.incoming.len(),
    ensures
        is_decided(trace[0].0, trace[n as int].0, n),
    decreases n,
{
    let s = trace[0].0;
    if n == 0 {
        assert(s.incoming.skip(0) =~= s.incoming);
    } else {
        let m = (n - 1) as nat;
        lemma_run(step, differs, trace, m);
        lemma_last(s.incoming, m);
        let (mid, spoken) = trace[n - 1];
        let (t, log) = trace[n as int];
        assert(client::is_run_at(step, differs, trace, n as int));
        lemma_step(step, differs, mid, t, log.skip(spoken.len() as int));
        assert(mid.incoming[0] == s.incoming[m as int]);
        assert(mid.incoming.drop_first() =~= s.incoming.skip(n as int));
    }
}

/// Handling all waiting packets leaves alone the tick that a client has reached, what it sends and
/// what it draws. The last state decides the tick to predict up to, and the last welcome the
/// client's slot; without a state neither its own player nor what it knows of the others changes.
pub proof fn law_catching_up<D: Fn(PlayerState, PlayerState) -> bool>(
    step: Step,
    differs: D,
    s: ClientView,
    t: ClientView,
    log: Seq<ClientEvent>,
)
    requires
        client::caught_up(step, differs, s, t, log),
    ensures
        is_decided(s, t, s.incoming.len()),
{
    let trace = choose|trace: Seq<(ClientView, Seq<ClientEvent>)>|
        {
            &&& #[trigger] client::is_run(step, differs, trace)
            &&& trace.len() == s.incoming.len() + 1
            &&& trace[0] == (s, Seq::<ClientEvent>::empty())
            &&& trace.last() == (t, log)
        };
    lemma_run(step, differs, trace, s.incoming.len());
}

/// The server's answer to a client that asked for a slot gives the client that slot.
pub proof fn law_welcome_seats_client<D: Fn(PlayerState, PlayerState) -> bool>(
    step: Step,
    differs: D,
    s: ClientView,
    t: ClientView,
    log: Seq<ClientEvent>,
    slot: u16,
)
    requires
        client::handled(step, differs, s, t, log),
        s.incoming[0].data == join_reply(slot),
    ensures
        t.client_id == Some(slot),
        log == seq![ClientEvent::Joined { id: slot }],
{
    law_welcome_reaches_client(slot);
}

/// A state never changes the speed that a client holds of another player.
pub proof fn law_speeds_of_others_stay(objects: Seq<PlayerState>, data: Seq<u8>, n: nat)
    requires
        objects.len() == MAX_CLIENTS,
    ensures
        told(objects, data, n).len() == objects.len(),
        forall|i: int|
            0 <= i < objects.len() ==> (#[trigger] told(objects, data, n)[i]).speed
                == objects[i].speed,
    decreases n,
{
    if n > 0 {
        law_speeds_of_others_stay(objects, data, (n - 1) as nat);
    }
}

/// Placing the quads keeps their colours.
pub proof fn law_quads_keep_their_colors<B: Fn(u32, u32) -> client::Bounds>(
    bounds_of: B,
    s: ClientView,
    after: Seq<crate::screen::Vertex>,
)
    requires
        client::is_picture(bounds_of, s, after),
    ensures
        client::quad_colors(after) == client::quad_colors(s.vertices),
{
    assert(client::quad_colors(after) =~= client::quad_colors(s.vertices));
}

/// A pixel shows the last of the rectangles that cover it, and is black where none does.
pub proof fn law_last_rectangle_wins(rects: Seq<ScreenRect>, colors: Seq<u32>, p: int)
    requires
        0 <= p < PIXELS,
    ensures
        ({
            let x = p % WINDOW_WIDTH as int;
            let y = p / WINDOW_WIDTH as int;
            &&& (forall|i: int| 0 <= i < rects.len() ==> !covers(#[trigger] rects[i], x, y))
                ==> painted(rects, colors)[p] == 0
            &&& forall|i: int|
                0 <= i < rects.len() && covers(#[trigger] rects[i], x, y) && (forall|j: int|
                    i < j < rects.len() ==> !covers(#[trigger] rects[j], x, y)) ==> painted(
                    rects,
                    colors,
                )[p] == colors[i]
        }),
{
    let x = p % WINDOW_WIDTH as int;
    let y = p / WINDOW_WIDTH as int;
    if forall|i: int| 0 <= i < rects.len() ==> !covers(#[trigger] rects[i], x, y) {
        lemma_uncovered(rects, colors, 0, rects.len(), p);
    }
    assert forall|i: int|
        0 <= i < rects.len() && covers(#[trigger] rects[i], x, y) && (forall|j: int|
            i < j < rects.len() ==> !covers(#[trigger] rects[j], x, y)) implies painted(
        rects,
        colors,
    )[p] == colors[i] by {
        lemma_uncovered(rects, colors, (i + 1) as nat, rects.len(), p);
    }
}

/// Rectangles that do not cover a pixel leave it alone.
proof fn lemma_uncovered(rects: Seq<ScreenRect>, colors: Seq<u32>, m: nat, n: nat, p: int)
    requires
        m <= n <= rects.len(),
        forall|j: int|
            m <= j < n ==> !covers(
                #[trigger] rects[j],
                p % WINDOW_WIDTH as int,
                p / WINDOW_WIDTH as int,
            ),
    ensures
        pixel(rects, colors, n, p) == pixel(rects, colors, m, p),
    decreases n,
{
    if m < n {
        lemma_uncovered(rects, colors, m, (n - 1) as nat, p);
    }
}

} // verus!
