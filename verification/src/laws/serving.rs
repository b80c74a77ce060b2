//! What a server does with every packet and in every tick, told of its tables, queues and bytes.

use crate::laws::{
    counter_at, four_bytes, lemma_four_bytes, lemma_two_bytes, others_count, two_bytes,
};
use crate::little_endian::{le_bytes, lemma_le_bytes_len, lemma_round_trip_u16};
use crate::packet::{PacketView, ReleaseTime, SocketAddress};
use crate::player::{law_key_bits, PlayerInput, PlayerState, Step};
use crate::protocol::{full_state, join_reply, other_state};
use crate::server;
use crate::server::{
    announced, free_slot, handled, is_cut_short, is_first_free, newcomers, next_counter, processable,
    processed, simulated, ticked, IpEndpoint, ServerView,
};
use std::time::Instant;
use vstd::prelude::*;

verus! {

/// Whether a state of a server is valid: thirty-two slots in every table, sixty rows in the window,
/// and at most twelve packets in each queue, all of which fit into memory.
pub proof fn law_valid_exactly(s: ServerView)
    ensures
        server::valid(s) <==> {
            &&& s.endpoints.len() == 32
            &&& s.heard.len() == 32
            &&& s.objects.len() == 32
            &&& s.inputs.len() == 60
            &&& forall|row: int| 0 <= row < 60 ==> (#[trigger] s.inputs[row]).len() == 32
            &&& s.outgoing.len() <= 12
            &&& s.incoming.len() <= 12
            &&& forall|k: int|
                0 <= k < s.outgoing.len() ==> (#[trigger] s.outgoing[k]).data.len() <= usize::MAX
            &&& forall|k: int|
                0 <= k < s.incoming.len() ==> (#[trigger] s.incoming[k]).data.len() <= usize::MAX
        },
{
}

/// A server that nobody has spoken to has thirty-two free slots with players at rest, a window of
/// sixty rows in which nothing was reported, and empty queues.
pub proof fn law_fresh_server()
    ensures
        ({
            let s = server::fresh();
            &&& s.endpoints.len() == 32 && s.heard.len() == 32 && s.objects.len() == 32
            &&& s.inputs.len() == 60
            &&& s.outgoing.len() == 0 && s.incoming.len() == 0
            &&& forall|i: int|
                0 <= i < 32 ==> (#[trigger] s.endpoints[i]) is None && s.heard[i] == 0
                    && s.objects[i] == (PlayerState { x: 0, y: 0, facing: 0, speed: 0 })
            &&& forall|row: int, i: int|
                0 <= row < 60 && 0 <= i < 32 ==> s.inputs[row].len() == 32
                    && #[trigger] s.inputs[row][i] == (
                    PlayerInput { up: false, down: false, left: false, right: false },
                    false,
                )
        }),
{
}

/// A packet that begins with 0 seats its sender in the lowest free slot, with a player at rest, and
/// queues the answer 0, 1 and the slot for the sender, if there is room. Nothing else changes.
pub proof fn law_join_exactly(
    s: ServerView,
    data: Seq<u8>,
    from: SocketAddress,
    now: Instant,
    k: int,
)
    requires
        server::valid(s),
        data.len() > 0,
        data[0] == 0,
        0 <= k < 32,
        s.endpoints[k] is None,
        forall|j: int| 0 <= j < k ==> (#[trigger] s.endpoints[j]) is Some,
    ensures
        handled(s, data, from, now) == (ServerView {
            endpoints: s.endpoints.update(k, Some(IpEndpoint { address: from })),
            heard: s.heard.update(k, 0u32),
            objects: s.objects.update(k, PlayerState { x: 0, y: 0, facing: 0, speed: 0 }),
            inputs: s.inputs,
            outgoing: if s.outgoing.len() < 12 {
                s.outgoing.push(
                    PacketView {
                        data: seq![0u8, 1u8, k as u8, 0u8],
                        endpoint: from,
                        release_time: ReleaseTime { since: now, delay_nanos: 0 },
                    },
                )
            } else {
                s.outgoing
            },
            incoming: s.incoming,
        }),
        newcomers(s.endpoints, data, from) == seq![(k as usize, from)],
        !is_cut_short(s.endpoints, data, from),
{
    assert(is_first_free(s.endpoints, k));
    server::lemma_free_slot(s.endpoints, k);
    reveal_with_fuel(le_bytes, 3);
    assert(join_reply(k as u16) =~= seq![0u8, 1u8, k as u8, 0u8]);
}

/// A packet that begins with 0 changes nothing on a server without a free slot.
pub proof fn law_join_refused(s: ServerView, data: Seq<u8>, from: SocketAddress, now: Instant)
    requires
        server::valid(s),
        data.len() > 0,
        data[0] == 0,
        forall|j: int| 0 <= j < 32 ==> (#[trigger] s.endpoints[j]) is Some,
    ensures
        handled(s, data, from, now) == s,
        newcomers(s.endpoints, data, from).len() == 0,
        !is_cut_short(s.endpoints, data, from),
{
    if let Some(k) = free_slot(s.endpoints) {
        assert(is_first_free(s.endpoints, k));
    }
}

/// A packet of eight bytes or more that begins with 1 or 2 and names a slot in which its sender
/// sits enters the keys of its eighth byte for that slot, in the row of the tick that it names,
/// flagged as reported. Nothing else changes but when the slot was last heard of.
pub proof fn law_record_exactly(s: ServerView, data: Seq<u8>, from: SocketAddress, now: Instant)
    requires
        server::valid(s),
        data.len() >= 8,
        data[0] == 1 || data[0] == 2,
        two_bytes(data, 1) < 32,
        s.endpoints[two_bytes(data, 1)] == Some(IpEndpoint { address: from }),
    ensures
        ({
            let slot = two_bytes(data, 1);
            let row = four_bytes(data, 3) % 60;
            let keys = PlayerInput {
                up: data[7] % 2 == 1,
                down: data[7] / 2 % 2 == 1,
                left: data[7] / 4 % 2 == 1,
                right: data[7] / 8 % 2 == 1,
            };
            handled(s, data, from, now) == (ServerView {
                endpoints: s.endpoints,
                heard: s.heard.update(slot, 0u32),
                objects: s.objects,
                inputs: s.inputs.update(row, s.inputs[row].update(slot, (keys, true))),
                outgoing: s.outgoing,
                incoming: s.incoming,
            })
        }),
        newcomers(s.endpoints, data, from).len() == 0,
        !is_cut_short(s.endpoints, data, from),
{
    lemma_two_bytes(data, 1);
    lemma_four_bytes(data, 3);
    law_key_bits(PlayerInput { up: false, down: false, left: false, right: false }, data[7]);
}

/// An empty packet, one that begins with anything above 2, one that is too short to name a slot and
/// a tick, and one that names a slot in which its sender does not sit change nothing.
pub proof fn law_ignored_exactly(s: ServerView, data: Seq<u8>, from: SocketAddress, now: Instant)
    requires
        server::valid(s),
        data.len() > 0 ==> data[0] != 0,
        data.len() > 0 && data[0] == 1 && data.len() >= 3 || data.len() > 0 && data[0] == 2
            && data.len() >= 7 ==> two_bytes(data, 1) >= 32 || s.endpoints[two_bytes(data, 1)]
            != Some(IpEndpoint { address: from }),
    ensures
        handled(s, data, from, now) == s,
        newcomers(s.endpoints, data, from).len() == 0,
        !is_cut_short(s.endpoints, data, from),
{
    if data.len() >= 3 {
        lemma_two_bytes(data, 1);
    }
}

/// The server has no answer to exactly these packets: those that name a slot in which their sender
/// sits, begin with 1 and have three to seven bytes, or begin with 2 and have seven.
pub proof fn law_cut_short_exactly(
    endpoints: Seq<Option<IpEndpoint>>,
    data: Seq<u8>,
    from: SocketAddress,
)
    ensures
        is_cut_short(endpoints, data, from) <==> {
            &&& 3 <= data.len() < 8
            &&& data[0] == 1 || data[0] == 2 && data.len() == 7
            &&& two_bytes(data, 1) < 32
            &&& endpoints[two_bytes(data, 1)] == Some(IpEndpoint { address: from })
        },
{
    if data.len() >= 3 {
        lemma_two_bytes(data, 1);
    }
}

/// A queue can be handled exactly if it is empty, or its oldest packet can be answered and the
/// rest can be handled after it.
pub proof fn law_processable_in_turn(s: ServerView, now: Instant)
    requires
        server::valid(s),
    ensures
        s.incoming.len() == 0 ==> processable(s.endpoints, s.incoming),
        s.incoming.len() > 0 ==> {
            let packet = s.incoming[0];
            let t = handled(s, packet.data, packet.endpoint, now);
            processable(s.endpoints, s.incoming) <==> !is_cut_short(
                s.endpoints,
                packet.data,
                packet.endpoint,
            ) && processable(t.endpoints, s.incoming.skip(1))
        },
        server::is_next_processable(s) <==> s.incoming.len() > 0 && !is_cut_short(
            s.endpoints,
            s.incoming[0].data,
            s.incoming[0].endpoint,
        ),
{
    if s.incoming.len() > 0 {
        assert(s.incoming.skip(1) =~= s.incoming.drop_first());
    }
}

/// Handling no packet changes nothing, and handling one is handling that one.
pub proof fn law_processing_one(s: ServerView, now: Instant)
    requires
        s.incoming.len() <= 1,
    ensures
        s.incoming.len() == 0 ==> processed(s, now) == (s, Seq::<(usize, SocketAddress)>::empty()),
        s.incoming.len() == 1 ==> {
            let packet = s.incoming[0];
            let rest = ServerView { incoming: Seq::empty(), ..s };
            processed(s, now) == (
                handled(rest, packet.data, packet.endpoint, now),
                newcomers(s.endpoints, packet.data, packet.endpoint),
            )
        },
{
    if s.incoming.len() == 1 {
        let packet = s.incoming[0];
        let rest = ServerView { incoming: Seq::empty(), ..s };
        assert(s.incoming.drop_first() =~= Seq::empty());
        let next = handled(rest, packet.data, packet.endpoint, now);
        assert(processed(next, now) == (next, Seq::<(usize, SocketAddress)>::empty()));
        let log = newcomers(s.endpoints, packet.data, packet.endpoint);
        assert(log + Seq::<(usize, SocketAddress)>::empty() =~= log);
    }
}

/// Packets are handled in the order of the queue: handling all of them is handling the first `n`
/// and then the rest. None is left over.
pub proof fn law_processing_in_order(s: ServerView, now: Instant, n: int)
    requires
        0 <= n <= s.incoming.len(),
    ensures
        ({
            let (mid, first) = processed(ServerView { incoming: s.incoming.take(n), ..s }, now);
            let (end, rest) = processed(ServerView { incoming: s.incoming.skip(n), ..mid }, now);
            &&& processed(s, now) == (end, first + rest)
            &&& mid.incoming.len() == 0
            &&& end.incoming.len() == 0
        }),
    decreases s.incoming.len(), if n == 0 {
        1int
    } else {
        0int
    },
{
    let front = ServerView { incoming: s.incoming.take(n), ..s };
    if n == 0 {
        assert(processed(front, now) == (front, Seq::<(usize, SocketAddress)>::empty()));
        assert(s.incoming.skip(0) =~= s.incoming);
        let log = processed(s, now).1;
        assert(Seq::<(usize, SocketAddress)>::empty() + log =~= log);
        if s.incoming.len() > 0 {
            law_processing_in_order(s, now, 1);
        }
    } else {
        let packet = s.incoming[0];
        let later = ServerView { incoming: s.incoming.drop_first(), ..s };
        let next = handled(later, packet.data, packet.endpoint, now);
        let won = newcomers(s.endpoints, packet.data, packet.endpoint);
        assert(next.incoming == s.incoming.drop_first());
        law_processing_in_order(next, now, n - 1);
        assert(front.incoming.drop_first() =~= next.incoming.take(n - 1));
        assert(s.incoming.skip(n) =~= next.incoming.skip(n - 1));
        let near = ServerView { incoming: next.incoming.take(n - 1), ..next };
        assert(handled(
            ServerView { incoming: front.incoming.drop_first(), ..front },
            packet.data,
            packet.endpoint,
            now,
        ) =~= near);
        let (mid, first) = processed(near, now);
        let (end, rest) = processed(ServerView { incoming: s.incoming.skip(n), ..mid }, now);
        assert((won + first) + rest =~= won + (first + rest));
    }
}

/// A simulated row moves exactly the players whose slot is taken and whose keys it holds, each by
/// those keys. Everybody else stays.
pub proof fn law_simulation_exactly(
    step: Step,
    endpoints: Seq<Option<IpEndpoint>>,
    row: Seq<(PlayerInput, bool)>,
    before: Seq<PlayerState>,
    after: Seq<PlayerState>,
)
    requires
        simulated(step, endpoints, row, before, after),
    ensures
        after.len() == before.len(),
        forall|i: int|
            0 <= i < before.len() && endpoints[i] is Some && row[i].1 ==> step(
                before[i],
                row[i].0,
                #[trigger] after[i],
            ),
        forall|i: int|
            0 <= i < before.len() && (endpoints[i] is None || !row[i].1) ==> #[trigger] after[i]
                == before[i],
{
}

/// A tick that starts with the counter at `counter` plays that row of the window, modulo sixty. The
/// packets that wait are handled first. Then the players whose keys the row holds are moved by
/// them, and nobody else is: a player of whom nothing was reported for the row stays the same in
/// all four quantities. The seats and the window stay as the packets left them, and everybody is
/// told the number after `counter`.
pub proof fn law_tick_exactly(
    step: Step,
    counter: nat,
    now: Instant,
    s: ServerView,
    t: ServerView,
    log: Seq<(usize, SocketAddress)>,
)
    requires
        ticked(step, counter, now, s, t, log),
    ensures
        ({
            let start = processed(s, now).0;
            let row = start.inputs[(counter % 60) as int];
            &&& log == processed(s, now).1
            &&& t.endpoints == start.endpoints
            &&& t.heard == start.heard
            &&& t.inputs == start.inputs
            &&& t.incoming == start.incoming
            &&& t.objects.len() == start.objects.len()
            &&& forall|i: int|
                0 <= i < t.objects.len() && start.endpoints[i] is Some && row[i].1 ==> step(
                    start.objects[i],
                    row[i].0,
                    #[trigger] t.objects[i],
                )
            &&& forall|i: int|
                0 <= i < t.objects.len() && !row[i].1 ==> #[trigger] t.objects[i]
                    == start.objects[i]
            &&& forall|i: int|
                0 <= i < t.objects.len() && start.endpoints[i] is None ==> #[trigger] t.objects[i]
                    == start.objects[i]
            &&& t.outgoing == announced(
                (ServerView { objects: t.objects, ..start }),
                counter + 1,
                now,
                32,
            )
        }),
        next_counter(counter) == counter + 2,
{
}

/// In tick `n` of a server whose counter started at zero, row `2 * n` of the window is played,
/// modulo sixty: whoever reported keys for it is moved by them, and a player of whom nothing was
/// reported for it stays the same in all four quantities.
pub proof fn law_nth_tick_exactly(
    step: Step,
    n: nat,
    now: Instant,
    s: ServerView,
    t: ServerView,
    log: Seq<(usize, SocketAddress)>,
)
    requires
        ticked(step, counter_at(n), now, s, t, log),
    ensures
        ({
            let start = processed(s, now).0;
            let row = start.inputs[(2 * n % 60) as int];
            &&& log == processed(s, now).1
            &&& t.endpoints == start.endpoints
            &&& t.heard == start.heard
            &&& t.inputs == start.inputs
            &&& t.incoming == start.incoming
            &&& t.objects.len() == start.objects.len()
            &&& forall|i: int|
                0 <= i < t.objects.len() && start.endpoints[i] is Some && row[i].1 ==> step(
                    start.objects[i],
                    row[i].0,
                    #[trigger] t.objects[i],
                )
            &&& forall|i: int|
                0 <= i < t.objects.len() && !row[i].1 ==> #[trigger] t.objects[i]
                    == start.objects[i]
            &&& forall|i: int|
                0 <= i < t.objects.len() && start.endpoints[i] is None ==> #[trigger] t.objects[i]
                    == start.objects[i]
            &&& t.outgoing == announced(
                (ServerView { objects: t.objects, ..start }),
                2 * n + 1,
                now,
                32,
            )
        }),
{
    crate::laws::law_schedule(n);
    law_tick_exactly(step, counter_at(n), now, s, t, log);
}

/// How many of the first `n` slots are taken.
pub open spec fn taken_below(endpoints: Seq<Option<IpEndpoint>>, n: nat) -> nat
    decreases n,
{
    if n == 0 {
        0
    } else {
        taken_below(endpoints, (n - 1) as nat) + if endpoints[n - 1] is Some {
            1nat
        } else {
            0nat
        }
    }
}

/// Behind what waits already, the player of every taken slot is sent a state, in the order of the
/// slots, until twelve packets wait. Each goes to the address that sits in the slot.
pub proof fn law_announcement_exactly(s: ServerView, tick: nat, now: Instant)
    requires
        server::valid(s),
    ensures
        ({
            let queue = announced(s, tick, now, 32);
            let all = s.outgoing.len() + taken_below(s.endpoints, 32);
            &&& queue.len() == if all < 12 { all } else { 12 }
            &&& forall|k: int| 0 <= k < s.outgoing.len() ==> #[trigger] queue[k] == s.outgoing[k]
            &&& forall|i: int|
                0 <= i < 32 && (#[trigger] s.endpoints[i]) is Some ==> {
                    let at = s.outgoing.len() + taken_below(s.endpoints, i as nat);
                    at < 12 ==> at < queue.len() && is_told(s, tick, now, queue[at as int], i)
                }
        }),
{
    lemma_announced_exactly(s, tick, now, 32);
}

/// Whether a packet tells the player of slot `i` of the state of the game.
pub open spec fn is_told(
    s: ServerView,
    tick: nat,
    now: Instant,
    packet: PacketView<SocketAddress>,
    i: int,
) -> bool {
    &&& s.endpoints[i] == Some(IpEndpoint { address: packet.endpoint })
    &&& packet.data == server::state_message(s.endpoints, s.objects, tick, i)
    &&& packet.release_time == ReleaseTime { since: now, delay_nanos: 0 }
}

/// What waits after the players of the first `n` slots were told.
proof fn lemma_announced_exactly(s: ServerView, tick: nat, now: Instant, n: nat)
    requires
        server::valid(s),
        n <= 32,
    ensures
        ({
            let queue = announced(s, tick, now, n);
            let all = s.outgoing.len() + taken_below(s.endpoints, n);
            &&& queue.len() == if all < 12 { all } else { 12 }
            &&& forall|k: int| 0 <= k < s.outgoing.len() ==> #[trigger] queue[k] == s.outgoing[k]
            &&& forall|i: int|
                0 <= i < n && (#[trigger] s.endpoints[i]) is Some ==> {
                    let at = s.outgoing.len() + taken_below(s.endpoints, i as nat);
                    at < 12 ==> at < queue.len() && is_told(s, tick, now, queue[at as int], i)
                }
        }),
    decreases n,
{
    if n > 0 {
        lemma_announced_exactly(s, tick, now, (n - 1) as nat);
    }
}

/// A state is a byte 1, the tick in a machine word, the own player's place, heading and speed in
/// four bytes each, and then, for each other player in the order of the slots, the slot in two
/// bytes and place and heading in four bytes each.
pub proof fn law_state_bytes(
    endpoints: Seq<Option<IpEndpoint>>,
    objects: Seq<PlayerState>,
    tick: nat,
    i: int,
)
    ensures
        ({
            let message = server::state_message(endpoints, objects, tick, i);
            let word = (usize::BITS / 8) as int;
            let own = 1 + word;
            &&& message.len() == own + 16 + 14 * others_count(endpoints, i, 32)
            &&& message[0] == 1
            &&& message.subrange(1, own) == le_bytes(tick, word as nat)
            &&& four_bytes(message, own) == objects[i].x
            &&& four_bytes(message, own + 4) == objects[i].y
            &&& four_bytes(message, own + 8) == objects[i].facing
            &&& four_bytes(message, own + 12) == objects[i].speed
            &&& forall|j: int|
                0 <= j < 32 && j != i && (#[trigger] endpoints[j]) is Some ==> {
                    let at = own + 16 + 14 * others_count(endpoints, i, j as nat);
                    &&& at + 14 <= message.len()
                    &&& two_bytes(message, at) == j
                    &&& four_bytes(message, at + 2) == objects[j].x
                    &&& four_bytes(message, at + 6) == objects[j].y
                    &&& four_bytes(message, at + 10) == objects[j].facing
                }
        }),
{
    lemma_state_own(endpoints, objects, tick, i);
    assert forall|j: int| 0 <= j < 32 && j != i && (#[trigger] endpoints[j]) is Some implies {
        let message = server::state_message(endpoints, objects, tick, i);
        let at = 17 + (usize::BITS / 8) as int + 14 * others_count(endpoints, i, j as nat);
        &&& at + 14 <= message.len()
        &&& two_bytes(message, at) == j
        &&& four_bytes(message, at + 2) == objects[j].x
        &&& four_bytes(message, at + 6) == objects[j].y
        &&& four_bytes(message, at + 10) == objects[j].facing
    } by {
        let message = server::state_message(endpoints, objects, tick, i);
        lemma_state_other(
            endpoints,
            objects,
            message,
            17 + (usize::BITS / 8) as int,
            i,
            j,
        );
    }
}

/// The answer to a newcomer is 0, 1 and the slot. All four quantities of a player are place,
/// heading and speed in four bytes each; what others are told of a player is the slot in two bytes
/// and place and heading in four bytes each.
pub proof fn law_answer_bytes(slot: u16, state: PlayerState)
    ensures
        join_reply(slot).len() == 4,
        join_reply(slot)[0] == 0,
        join_reply(slot)[1] == 1,
        two_bytes(join_reply(slot), 2) == slot,
        full_state(state).len() == 16,
        four_bytes(full_state(state), 0) == state.x,
        four_bytes(full_state(state), 4) == state.y,
        four_bytes(full_state(state), 8) == state.facing,
        four_bytes(full_state(state), 12) == state.speed,
        other_state(slot, state).len() == 14,
        two_bytes(other_state(slot, state), 0) == slot,
        four_bytes(other_state(slot, state), 2) == state.x,
        four_bytes(other_state(slot, state), 6) == state.y,
        four_bytes(other_state(slot, state), 10) == state.facing,
{
    let reply = join_reply(slot);
    let full = full_state(state);
    let other = other_state(slot, state);
    lemma_le_bytes_len(slot as nat, 2);
    assert(reply.subrange(2, 4) =~= le_bytes(slot as nat, 2));
    lemma_round_trip_u16(slot);
    lemma_two_bytes(reply, 2);
    crate::laws::lemma_full_state(state);
    lemma_four_bytes(full, 0);
    lemma_four_bytes(full, 4);
    lemma_four_bytes(full, 8);
    lemma_four_bytes(full, 12);
    crate::laws::lemma_other_state(slot, state);
    lemma_two_bytes(other, 0);
    lemma_four_bytes(other, 2);
    lemma_four_bytes(other, 6);
    lemma_four_bytes(other, 10);
}

/// What a state says of the tick and of the own player.
proof fn lemma_state_own(
    endpoints: Seq<Option<IpEndpoint>>,
    objects: Seq<PlayerState>,
    tick: nat,
    i: int,
)
    ensures
        ({
            let message = server::state_message(endpoints, objects, tick, i);
            let word = server::word_bytes();
            let own = (1 + word) as int;
            &&& message.len() == own + 16 + 14 * others_count(endpoints, i, 32)
            &&& message[0] == 1
            &&& message.subrange(1, own) == le_bytes(tick, word)
            &&& message.skip(own + 16) == server::others(endpoints, objects, i, 32)
            &&& four_bytes(message, own) == objects[i].x
            &&& four_bytes(message, own + 4) == objects[i].y
            &&& four_bytes(message, own + 8) == objects[i].facing
            &&& four_bytes(message, own + 12) == objects[i].speed
        }),
{
    let message = server::state_message(endpoints, objects, tick, i);
    let word = server::word_bytes();
    let own = (1 + word) as int;
    let record = full_state(objects[i]);
    let tail = server::others(endpoints, objects, i, 32);
    lemma_le_bytes_len(tick, word);
    crate::laws::lemma_full_state(objects[i]);
    crate::laws::lemma_others_len(endpoints, objects, i, 32);
    assert(message.subrange(1, own) =~= le_bytes(tick, word));
    assert(message.skip(own + 16) =~= tail);
    assert(message.subrange(own, own + 16) =~= record);
    lemma_four_bytes(record, 0);
    lemma_four_bytes(record, 4);
    lemma_four_bytes(record, 8);
    lemma_four_bytes(record, 12);
    lemma_moved_bytes(message, own, record);
}

/// What a message says of another player, whose records begin at `base`.
proof fn lemma_state_other(
    endpoints: Seq<Option<IpEndpoint>>,
    objects: Seq<PlayerState>,
    message: Seq<u8>,
    base: int,
    i: int,
    j: int,
)
    requires
        0 <= j < 32,
        j != i,
        endpoints[j] is Some,
        0 <= base <= message.len(),
        message.skip(base) == server::others(endpoints, objects, i, 32),
    ensures
        ({
            let at = base + 14 * others_count(endpoints, i, j as nat);
            &&& at + 14 <= message.len()
            &&& two_bytes(message, at) == j
            &&& four_bytes(message, at + 2) == objects[j].x
            &&& four_bytes(message, at + 6) == objects[j].y
            &&& four_bytes(message, at + 10) == objects[j].facing
        }),
{
    let rank = others_count(endpoints, i, j as nat) as int;
    let at = base + 14 * rank;
    let other = other_state(j as u16, objects[j]);
    crate::laws::lemma_others_record(endpoints, objects, i, j as nat, 32);
    crate::laws::lemma_other_state(j as u16, objects[j]);
    crate::laws::lemma_others_len(endpoints, objects, i, 32);
    assert(message.subrange(at, at + 14) =~= message.skip(base).subrange(
        14 * rank,
        14 * rank + 14,
    ));
    lemma_two_bytes(other, 0);
    lemma_four_bytes(other, 2);
    lemma_four_bytes(other, 6);
    lemma_four_bytes(other, 10);
    lemma_moved_bytes(message, at, other);
}

/// A part of a message reads the same within the message.
proof fn lemma_moved_bytes(message: Seq<u8>, at: int, part: Seq<u8>)
    requires
        0 <= at,
        at + part.len() <= message.len(),
        message.subrange(at, at + part.len()) == part,
    ensures
        forall|k: int| 0 <= k < part.len() ==> #[trigger] part[k] == message[at + k],
{
    assert forall|k: int| 0 <= k < part.len() implies #[trigger] part[k] == message[at + k] by {
        assert(message.subrange(at, at + part.len())[k] == message[at + k]);
    }
}

} // verus!
