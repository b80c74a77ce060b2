//! What a client does with every packet and in every tick, told of its tables, queues and bytes.

use crate::client;
use crate::client::{Bounds, ClientEvent, ClientView, Prediction, SERVER_ADDRESS};
use crate::laws::serving::law_record_exactly;
use crate::laws::{
    four_bytes, lemma_four_bytes, lemma_predicted_path, lemma_step, lemma_two_bytes, two_bytes,
};
use crate::little_endian::{
    le_bytes, lemma_le_bytes_len, lemma_round_trip_u16, lemma_round_trip_u32,
};
use crate::packet::{PacketView, ReleaseTime, SocketAddress};
use crate::player::{input_byte, law_key_bits, PlayerInput, PlayerState, Step};
use crate::protocol::{input_request, join_request, leave_request};
use crate::screen::{painted, ScreenRect, Vertex};
use crate::server;
use crate::server::{IpEndpoint, ServerView};
use std::time::Instant;
use vstd::prelude::*;

verus! {

/// Whether a state of a client is valid: thirty-two players, one hundred and twenty-eight corners,
/// eight hundred by six hundred pixels, at most one hundred and eighteen predictions, none of a
/// tick before the first, and at most twelve packets in each queue, all of which fit into memory.
pub proof fn law_valid_exactly(s: ClientView)
    ensures
        client::valid(s) <==> {
            &&& s.history.len() <= 118
            &&& s.history.len() <= s.tick_number
            &&& s.objects.len() == 32
            &&& s.num_objects <= usize::MAX
            &&& s.vertices.len() == 128
            &&& s.frame.len() == 800 * 600
            &&& s.outgoing.len() <= 12
            &&& s.incoming.len() <= 12
            &&& forall|k: int|
                0 <= k < s.outgoing.len() ==> (#[trigger] s.outgoing[k]).data.len() <= usize::MAX
            &&& forall|k: int|
                0 <= k < s.incoming.len() ==> (#[trigger] s.incoming[k]).data.len() <= usize::MAX
        },
{
}

/// A client that has not spoken to the server has no slot, a player at rest, nothing predicted,
/// thirty-two players at rest, empty queues, four corners at zero for each colour, and a black
/// window.
pub proof fn law_fresh_client(colors: Seq<u32>)
    ensures
        ({
            let s = client::fresh(colors);
            let rest = PlayerState { x: 0, y: 0, facing: 0, speed: 0 };
            &&& s.client_id is None
            &&& s.local_player == rest
            &&& s.history.len() == 0 && s.outgoing.len() == 0 && s.incoming.len() == 0
            &&& s.num_objects == 0 && s.tick_number == 0 && s.target_tick_number == 0
            &&& s.objects.len() == 32 && forall|i: int|
                0 <= i < 32 ==> #[trigger] s.objects[i] == rest
            &&& s.vertices.len() == 128 && forall|v: int|
                0 <= v < 128 ==> #[trigger] s.vertices[v] == (Vertex {
                    x: 0,
                    y: 0,
                    color: colors[v / 4],
                })
            &&& s.frame.len() == 480000 && forall|p: int|
                0 <= p < 480000 ==> #[trigger] s.frame[p] == 0
        }),
{
}

/// A channel is drawn as 0 or 1, and may be drawn as either.
pub proof fn law_draws(draws: Seq<(u32, u32, u32)>)
    ensures
        client::are_draws(draws) <==> forall|k: int|
            0 <= k < draws.len() ==> (#[trigger] draws[k]).0 <= 1 && draws[k].1 <= 1 && draws[k].2
                <= 1,
{
}

/// A colour has its red in the third byte, its green in the second and its blue in the first, each
/// full where the draw was 1 and off where it was 0.
pub proof fn law_channels(draws: Seq<(u32, u32, u32)>, i: int)
    requires
        forall|k: int|
            0 <= k < draws.len() ==> (#[trigger] draws[k]).0 <= 1 && draws[k].1 <= 1 && draws[k].2
                <= 1,
        0 <= i < draws.len(),
    ensures
        client::drawn_colors(draws).len() == draws.len(),
        ({
            let color = client::drawn_colors(draws)[i];
            &&& color % 0x100 == 255 * draws[i].2
            &&& color / 0x100 % 0x100 == 255 * draws[i].1
            &&& color / 0x1_0000 == 255 * draws[i].0
        }),
{
}

/// A packet is put at the end of a queue, unless twelve wait already. It is to or from the server,
/// and its release time is a fifth of a second after now.
pub proof fn law_queued_exactly(
    queue: Seq<PacketView<Seq<char>>>,
    data: Seq<u8>,
    now: Instant,
)
    ensures
        client::queued(queue, data, now) == if queue.len() < 12 {
            queue.push(
                PacketView {
                    data,
                    endpoint: SERVER_ADDRESS@,
                    release_time: ReleaseTime { since: now, delay_nanos: 200_000_003 },
                },
            )
        } else {
            queue
        },
{
}

/// The request for a slot is the byte 0, and the farewell a byte 1 and the slot.
pub proof fn law_request_bytes(slot: u16)
    ensures
        join_request() == seq![0u8],
        leave_request(slot).len() == 3,
        leave_request(slot)[0] == 1,
        two_bytes(leave_request(slot), 1) == slot,
{
    let data = leave_request(slot);
    lemma_le_bytes_len(slot as nat, 2);
    assert(data.subrange(1, 3) =~= le_bytes(slot as nat, 2));
    lemma_round_trip_u16(slot);
    lemma_two_bytes(data, 1);
}

/// A report of keys is a byte 2, the slot, the tick, and one byte in which up counts one, down two,
/// left four and right eight.
pub proof fn law_report_bytes(slot: u16, tick: u32, input: PlayerInput)
    ensures
        ({
            let data = input_request(slot, tick, input);
            &&& data.len() == 8
            &&& data[0] == 2
            &&& two_bytes(data, 1) == slot
            &&& four_bytes(data, 3) == tick
            &&& data[7] == (if input.up { 1int } else { 0 }) + (if input.down { 2int } else { 0 })
                + (if input.left { 4int } else { 0 }) + (if input.right { 8int } else { 0 })
        }),
{
    let data = input_request(slot, tick, input);
    lemma_le_bytes_len(slot as nat, 2);
    lemma_le_bytes_len(tick as nat, 4);
    assert(data.subrange(1, 3) =~= le_bytes(slot as nat, 2));
    assert(data.subrange(3, 7) =~= le_bytes(tick as nat, 4));
    lemma_round_trip_u16(slot);
    lemma_round_trip_u32(tick as nat);
    lemma_two_bytes(data, 1);
    lemma_four_bytes(data, 3);
    law_key_bits(input, 0);
    assert(data[7] == input_byte(input));
}

/// A client without a slot reports nothing, and so does one with a full queue. Any other one queues
/// a report of exactly the keys that are held, for its own slot and the tick that it predicts up
/// to, behind what waits already. Nothing else changes.
pub proof fn law_report_exactly(s: ClientView, input: PlayerInput, now: Instant)
    ensures
        ({
            let t = client::reported(s, input, now);
            &&& t == ClientView { outgoing: t.outgoing, ..s }
            &&& s.client_id is None || s.outgoing.len() >= 12 ==> t.outgoing == s.outgoing
            &&& s.client_id is Some && s.outgoing.len() < 12 ==> {
                let packet = t.outgoing.last();
                &&& t.outgoing == s.outgoing.push(packet)
                &&& packet.endpoint == SERVER_ADDRESS@
                &&& packet.release_time == ReleaseTime { since: now, delay_nanos: 200_000_003 }
                &&& packet.data.len() == 8
                &&& packet.data[0] == 2
                &&& two_bytes(packet.data, 1) == s.client_id->0
                &&& four_bytes(packet.data, 3) == s.target_tick_number
                &&& packet.data[7] == (if input.up { 1int } else { 0 }) + (if input.down {
                    2int
                } else {
                    0
                }) + (if input.left { 4int } else { 0 }) + (if input.right { 8int } else { 0 })
            }
        }),
{
    if let Some(id) = s.client_id {
        let data = input_request(id, s.target_tick_number, input);
        law_report_bytes(id, s.target_tick_number, input);
        law_queued_exactly(s.outgoing, data, now);
    }
}

/// What a client holds down is what the server enters: when the server handles the bytes that a
/// client queued, and the client's address sits in the client's slot, then the entry of that slot
/// in the row of the client's target tick is exactly the held keys, flagged as reported. No other
/// entry changes.
pub proof fn law_held_keys_reach_server(
    s: ClientView,
    input: PlayerInput,
    now: Instant,
    there: ServerView,
    from: SocketAddress,
    later: Instant,
)
    requires
        s.client_id is Some,
        s.client_id->0 < 32,
        s.outgoing.len() < 12,
        server::valid(there),
        there.endpoints[s.client_id->0 as int] == Some(IpEndpoint { address: from }),
    ensures
        ({
            let slot = s.client_id->0 as int;
            let row = s.target_tick_number as int % 60;
            let sent = client::reported(s, input, now).outgoing.last().data;
            let t = server::handled(there, sent, from, later);
            &&& !server::is_cut_short(there.endpoints, sent, from)
            &&& t.inputs.len() == there.inputs.len()
            &&& t.inputs[row].len() == there.inputs[row].len()
            &&& t.inputs[row][slot] == (input, true)
            &&& forall|r: int, i: int|
                #![trigger t.inputs[r][i]]
                0 <= r < 60 && 0 <= i < 32 && !(r == row && i == slot) ==> t.inputs[r][i]
                    == there.inputs[r][i]
            &&& t.endpoints == there.endpoints
            &&& t.objects == there.objects
            &&& t.outgoing == there.outgoing
        }),
{
    let sent = client::reported(s, input, now).outgoing.last().data;
    law_report_exactly(s, input, now);
    law_record_exactly(there, sent, from, later);
}

/// Whether a client can read a packet: all but states that have fewer than twenty-one bytes, or
/// whose tick leaves no room for twenty-six more.
pub proof fn law_readable_exactly(data: Seq<u8>)
    ensures
        client::is_readable(data) <==> data.len() <= 1 || data[0] != 1 || data.len() >= 21
            && four_bytes(data, 1) + 26 <= u32::MAX,
        forall|s: ClientView| #[trigger]
            client::is_next_readable(s) <==> s.incoming.len() > 0 && client::is_readable(
                s.incoming[0].data,
            ),
{
    if data.len() >= 21 {
        lemma_four_bytes(data, 1);
    }
}

/// A packet of four bytes or more that begins with 0 and 1 gives the client the slot of its next
/// two bytes. Nothing else changes.
pub proof fn law_welcome_exactly<D: Fn(PlayerState, PlayerState) -> bool>(
    step: Step,
    differs: D,
    s: ClientView,
    t: ClientView,
    log: Seq<ClientEvent>,
)
    requires
        client::handled(step, differs, s, t, log),
        s.incoming[0].data.len() >= 4,
        s.incoming[0].data[0] == 0,
        s.incoming[0].data[1] == 1,
    ensures
        ({
            let id = two_bytes(s.incoming[0].data, 2) as u16;
            &&& id == two_bytes(s.incoming[0].data, 2)
            &&& t == ClientView { client_id: Some(id), incoming: s.incoming.skip(1), ..s }
            &&& log == seq![ClientEvent::Joined { id }]
        }),
{
    lemma_two_bytes(s.incoming[0].data, 2);
    assert(s.incoming.skip(1) =~= s.incoming.drop_first());
}

/// A packet of fewer than two bytes, one that begins with anything above 1, and one that begins
/// with 0 but gives no slot change nothing, and there is nothing to tell.
pub proof fn law_other_packets_exactly<D: Fn(PlayerState, PlayerState) -> bool>(
    step: Step,
    differs: D,
    s: ClientView,
    t: ClientView,
    log: Seq<ClientEvent>,
)
    requires
        client::handled(step, differs, s, t, log),
        ({
            let data = s.incoming[0].data;
            data.len() <= 1 || data[0] > 1 || data[0] == 0 && (data.len() < 4 || data[1] != 1)
        }),
    ensures
        t == (ClientView { incoming: s.incoming.skip(1), ..s }),
        log.len() == 0,
{
    assert(s.incoming.skip(1) =~= s.incoming.drop_first());
}

/// The slots of the other players that a state tells of: after twenty-one bytes, each other player
/// takes fourteen, of which the first two are the slot.
pub open spec fn named_slots(data: Seq<u8>) -> Seq<int> {
    Seq::new(((data.len() - 21) / 14) as nat, |k: int| two_bytes(data, 21 + 14 * k))
}

/// The client's own slot: that which the server gave it, or else slot 0.
pub open spec fn taken_for_own(s: ClientView) -> int {
    if s.client_id is Some {
        s.client_id->0 as int
    } else {
        0
    }
}

/// The complaints of a state that names slots that do not exist.
pub open spec fn no_such_slots(slots: Seq<int>) -> Seq<ClientEvent> {
    slots.filter(|slot: int| slot >= 32).map_values(
        |slot: int| ClientEvent::InvalidId { slot: slot as usize },
    )
}

/// A state sets the tick to predict up to twenty-six ticks after its own, and counts the other
/// players that it names. Each slot that it names takes place and heading from the last record
/// that names it, and keeps its speed; every other slot stays. The client's slot, the tick that it
/// has reached, what it sends and what it draws stay too.
pub proof fn law_state_tells_exactly<D: Fn(PlayerState, PlayerState) -> bool>(
    step: Step,
    differs: D,
    s: ClientView,
    t: ClientView,
    log: Seq<ClientEvent>,
)
    requires
        client::valid(s),
        client::handled(step, differs, s, t, log),
        s.incoming[0].data.len() >= 21,
        s.incoming[0].data[0] == 1,
        four_bytes(s.incoming[0].data, 1) + 26 <= u32::MAX,
    ensures
        ({
            let data = s.incoming[0].data;
            let slots = named_slots(data);
            &&& t.client_id == s.client_id
            &&& t.tick_number == s.tick_number
            &&& t.outgoing == s.outgoing
            &&& t.incoming == s.incoming.skip(1)
            &&& t.vertices == s.vertices
            &&& t.frame == s.frame
            &&& t.target_tick_number == four_bytes(data, 1) + 26
            &&& t.num_objects == slots.filter(
                |slot: int| slot < 32 && slot != taken_for_own(s),
            ).len()
            &&& t.objects.len() == 32
            &&& forall|i: int|
                0 <= i < 32 && !slots.contains(i) ==> #[trigger] t.objects[i] == s.objects[i]
            &&& forall|k: int|
                0 <= k < slots.len() && (#[trigger] slots[k]) < 32 && !slots.skip(k + 1).contains(
                    slots[k],
                ) ==> is_told_of(s.objects[slots[k]], t.objects[slots[k]], data, 21 + 14 * k)
        }),
{
    let data = s.incoming[0].data;
    lemma_four_bytes(data, 1);
    assert(s.incoming.skip(1) =~= s.incoming.drop_first());
    let n = client::record_count(data);
    let slots = named_slots(data);
    lemma_told_exactly(s.objects, data, n);
    lemma_counted_exactly(data, client::own_slot(s.client_id), n);
    assert(slots.take(n as int) =~= slots);
    assert(client::own_slot(s.client_id) == taken_for_own(s));
    assert forall|k: int|
        0 <= k < slots.len() && (#[trigger] slots[k]) < 32 && !slots.skip(k + 1).contains(
            slots[k],
        ) implies is_told_of(s.objects[slots[k]], t.objects[slots[k]], data, 21 + 14 * k) by {
        assert(slots.subrange(k + 1, n as int) =~= slots.skip(k + 1));
    }
}

/// Whether a player has place and heading from the record at `at`, and the speed from before.
pub open spec fn is_told_of(
    before: PlayerState,
    after: PlayerState,
    data: Seq<u8>,
    at: int,
) -> bool {
    &&& after.x == four_bytes(data, at + 2)
    &&& after.y == four_bytes(data, at + 6)
    &&& after.facing == four_bytes(data, at + 10)
    &&& after.speed == before.speed
}

/// What the first `n` records of a state make of the players.
proof fn lemma_told_exactly(objects: Seq<PlayerState>, data: Seq<u8>, n: nat)
    requires
        objects.len() == 32,
        data.len() >= 21,
        n <= named_slots(data).len(),
    ensures
        ({
            let slots = named_slots(data);
            let after = client::told(objects, data, n);
            &&& after.len() == 32
            &&& forall|i: int|
                0 <= i < 32 && !slots.take(n as int).contains(i) ==> #[trigger] after[i]
                    == objects[i]
            &&& forall|i: int| 0 <= i < 32 ==> (#[trigger] after[i]).speed == objects[i].speed
            &&& forall|k: int|
                0 <= k < n && (#[trigger] slots[k]) < 32 && !slots.subrange(
                    k + 1,
                    n as int,
                ).contains(slots[k]) ==> is_told_of(
                    objects[slots[k]],
                    after[slots[k]],
                    data,
                    21 + 14 * k,
                )
        }),
    decreases n,
{
    if n > 0 {
        let m = (n - 1) as nat;
        let slots = named_slots(data);
        let before = client::told(objects, data, m);
        let after = client::told(objects, data, n);
        let at = 21 + 14 * m as int;
        lemma_told_exactly(objects, data, m);
        lemma_two_bytes(data, at);
        lemma_four_bytes(data, at + 2);
        lemma_four_bytes(data, at + 6);
        lemma_four_bytes(data, at + 10);
        assert(client::record_id(data, m as int) == slots[m as int]);
        assert(slots.take(n as int) =~= slots.take(m as int).push(slots[m as int]));
        assert forall|i: int| 0 <= i < 32 && !slots.take(n as int).contains(i) implies #[trigger] after[i]
            == objects[i] by {
            assert(slots.take(n as int)[m as int] == slots[m as int]);
            if slots.take(m as int).contains(i) {
                let j = slots.take(m as int).index_of(i);
                assert(slots.take(n as int)[j] == i);
            }
            assert(before[i] == objects[i]);
        }
        assert forall|k: int|
            0 <= k < n && (#[trigger] slots[k]) < 32 && !slots.subrange(k + 1, n as int).contains(
                slots[k],
            ) implies is_told_of(objects[slots[k]], after[slots[k]], data, 21 + 14 * k) by {
            if k < m {
                assert(slots.subrange(k + 1, n as int)[m - k - 1] == slots[m as int]);
                if slots.subrange(k + 1, m as int).contains(slots[k]) {
                    let j = slots.subrange(k + 1, m as int).index_of(slots[k]);
                    assert(slots.subrange(k + 1, n as int)[j] == slots[k]);
                }
            } else {
                assert(before[slots[k]].speed == objects[slots[k]].speed);
            }
        }
    }
}

/// How many other players the first `n` records of a state name, and what complaints there are.
proof fn lemma_counted_exactly(data: Seq<u8>, own: int, n: nat)
    requires
        data.len() >= 21,
        n <= named_slots(data).len(),
    ensures
        client::other_players(data, own, n) == named_slots(data).take(n as int).filter(
            |slot: int| slot < 32 && slot != own,
        ).len(),
        client::complaints(data, n) == no_such_slots(named_slots(data).take(n as int)),
    decreases n,
{
    let slots = named_slots(data);
    let front = slots.take(n as int);
    reveal(Seq::filter);
    if n == 0 {
        assert(no_such_slots(front) =~= Seq::<ClientEvent>::empty());
    } else {
        let m = (n - 1) as nat;
        lemma_counted_exactly(data, own, m);
        lemma_two_bytes(data, 21 + 14 * m as int);
        assert(client::record_id(data, m as int) == slots[m as int]);
        assert(front.drop_last() =~= slots.take(m as int));
        assert(front.last() == slots[m as int]);
        assert(no_such_slots(front) =~= client::complaints(data, n));
    }
}

/// Whether entry `k` of `again` is entry `from + k` of `history` played again: the keys are the
/// same, and the player is the one before it, or `actual` at the start, moved by them.
pub open spec fn is_played_again(
    step: Step,
    actual: PlayerState,
    history: Seq<Prediction>,
    from: int,
    again: Seq<Prediction>,
    k: int,
) -> bool {
    &&& again[k].input == history[from + k].input
    &&& step(
        if k == 0 {
            actual
        } else {
            again[k - 1].state
        },
        history[from + k].input,
        again[k].state,
    )
}

/// The server's word on the client's own player at the tick `received` is compared with the
/// prediction of that tick, if there is one: with the entry of the history that lies as far from
/// the oldest as `received` does. Where they differ, this is told, and that entry and all later
/// ones are played again from what the server said. In any case the entries before it go, and the
/// client's own player is where the server or the last entry says. An earlier tick leaves the
/// history as it is, and a later one empties it. Nothing else changes.
pub proof fn law_reconciliation_exactly<D: Fn(PlayerState, PlayerState) -> bool>(
    step: Step,
    differs: D,
    s: ClientView,
    received: u32,
    actual: PlayerState,
    t: ClientView,
    log: Seq<ClientEvent>,
)
    requires
        client::valid(s),
        client::reconciled(step, differs, s, received, actual, t, log),
    ensures
        t == (ClientView { history: t.history, local_player: t.local_player, ..s }),
        ({
            let oldest = s.tick_number - s.history.len();
            let at = received - oldest;
            let predicted = s.history[at].state;
            let told = ClientEvent::Mispredicted { tick: received, predicted, actual };
            let none = Seq::<ClientEvent>::empty();
            &&& received < oldest ==> t.history == s.history && t.local_player == actual && log
                == none
            &&& received >= s.tick_number ==> t.history.len() == 0 && t.local_player == actual
                && log == none
            &&& oldest <= received < s.tick_number ==> {
                ||| {
                    &&& differs.ensures((predicted, actual), true)
                    &&& log == none.push(told)
                    &&& t.history.len() == s.history.len() - at
                    &&& forall|k: int|
                        0 <= k < t.history.len() ==> #[trigger] is_played_again(
                            step,
                            actual,
                            s.history,
                            at,
                            t.history,
                            k,
                        )
                    &&& t.local_player == t.history[t.history.len() - 1].state
                }
                ||| {
                    &&& differs.ensures((predicted, actual), false)
                    &&& log == none
                    &&& t.history == s.history.skip(at)
                    &&& t.local_player == actual
                }
            }
        }),
{
    let oldest = s.tick_number - s.history.len();
    let at = received - oldest;
    let left = client::kept(s, received);
    assert(s.history.skip(0) =~= s.history);
    if oldest <= received < s.tick_number {
        assert(left == s.history.skip(at));
        assert(left[0] == s.history[at]);
        if log.len() > 0 {
            assert(log =~= Seq::<ClientEvent>::empty().push(
                ClientEvent::Mispredicted {
                    tick: received,
                    predicted: s.history[at].state,
                    actual,
                },
            ));
            assert forall|k: int| 0 <= k < t.history.len() implies #[trigger] is_played_again(
                step,
                actual,
                s.history,
                at,
                t.history,
                k,
            ) by {
                assert(client::is_replayed_at(step, actual, left, t.history, k));
                assert(left[k] == s.history[at + k]);
            }
        }
    }
}

/// A state is the server's word on the client's own player at the tick of its bytes 1 to 4, in the
/// bytes from 5 on. Beside what the word on that player makes of the client, there are only the
/// complaints about slots that do not exist to tell, and they come first.
pub proof fn law_state_reconciles_exactly<D: Fn(PlayerState, PlayerState) -> bool>(
    step: Step,
    differs: D,
    s: ClientView,
    t: ClientView,
    log: Seq<ClientEvent>,
)
    requires
        client::valid(s),
        client::handled(step, differs, s, t, log),
        s.incoming[0].data.len() >= 21,
        s.incoming[0].data[0] == 1,
        four_bytes(s.incoming[0].data, 1) + 26 <= u32::MAX,
    ensures
        ({
            let data = s.incoming[0].data;
            let received = four_bytes(data, 1);
            let actual = PlayerState {
                x: four_bytes(data, 5) as u32,
                y: four_bytes(data, 9) as u32,
                facing: four_bytes(data, 13) as u32,
                speed: four_bytes(data, 17) as u32,
            };
            let spoken = no_such_slots(named_slots(data));
            let oldest = s.tick_number - s.history.len();
            let at = received - oldest;
            let predicted = s.history[at].state;
            let told = ClientEvent::Mispredicted { tick: received as u32, predicted, actual };
            &&& received < oldest ==> t.history == s.history && t.local_player == actual && log
                == spoken
            &&& received >= s.tick_number ==> t.history.len() == 0 && t.local_player == actual
                && log == spoken
            &&& oldest <= received < s.tick_number ==> {
                ||| {
                    &&& differs.ensures((predicted, actual), true)
                    &&& log == spoken.push(told)
                    &&& t.history.len() == s.history.len() - at
                    &&& forall|k: int|
                        0 <= k < t.history.len() ==> #[trigger] is_played_again(
                            step,
                            actual,
                            s.history,
                            at,
                            t.history,
                            k,
                        )
                    &&& t.local_player == t.history[t.history.len() - 1].state
                }
                ||| {
                    &&& differs.ensures((predicted, actual), false)
                    &&& log == spoken
                    &&& t.history == s.history.skip(at)
                    &&& t.local_player == actual
                }
            }
        }),
{
    let data = s.incoming[0].data;
    let n = client::record_count(data);
    let received = client::state_tick(data);
    let actual = client::state_player(data);
    let spoken = no_such_slots(named_slots(data));
    let rest = client::informed(ClientView { incoming: s.incoming.drop_first(), ..s }, data);
    let later = log.skip(spoken.len() as int);
    lemma_counted_exactly(data, client::own_slot(s.client_id), n);
    assert(named_slots(data).take(n as int) =~= named_slots(data));
    lemma_state_numbers(data);
    lemma_informed_is_valid(s, data);
    law_reconciliation_exactly(step, differs, rest, received, actual, t, later);
    assert(log =~= spoken + later);
    assert(spoken + Seq::<ClientEvent>::empty() =~= spoken);
    let oldest = s.tick_number - s.history.len();
    let told = ClientEvent::Mispredicted {
        tick: received,
        predicted: s.history[received - oldest].state,
        actual,
    };
    assert(spoken + Seq::<ClientEvent>::empty().push(told) =~= spoken.push(told));
}

/// What a state says of the tick and of the client's own player.
proof fn lemma_state_numbers(data: Seq<u8>)
    requires
        data.len() >= 21,
    ensures
        client::state_tick(data) == four_bytes(data, 1),
        client::state_player(data) == (PlayerState {
            x: four_bytes(data, 5) as u32,
            y: four_bytes(data, 9) as u32,
            facing: four_bytes(data, 13) as u32,
            speed: four_bytes(data, 17) as u32,
        }),
{
    lemma_four_bytes(data, 1);
    lemma_four_bytes(data, 5);
    lemma_four_bytes(data, 9);
    lemma_four_bytes(data, 13);
    lemma_four_bytes(data, 17);
}

/// A client that has read a state of the other players is still a valid one.
proof fn lemma_informed_is_valid(s: ClientView, data: Seq<u8>)
    requires
        client::valid(s),
        s.incoming.len() > 0,
        s.incoming[0].data == data,
        data.len() >= 21,
    ensures
        client::valid(
            client::informed(ClientView { incoming: s.incoming.drop_first(), ..s }, data),
        ),
{
    let n = client::record_count(data);
    lemma_told_exactly(s.objects, data, n);
    lemma_other_players_bound(data, client::own_slot(s.client_id), n);
    assert(data.len() <= usize::MAX);
}

/// A state counts no more other players than it has records.
proof fn lemma_other_players_bound(data: Seq<u8>, own: int, n: nat)
    ensures
        client::other_players(data, own, n) <= n,
    decreases n,
{
    if n > 0 {
        lemma_other_players_bound(data, own, (n - 1) as nat);
    }
}

/// Where the prediction of a tick is certain to differ from what the server said, the client tells
/// of it and plays the rest of its history again. No length of the history is exempt.
pub proof fn law_mispredictions_are_corrected<D: Fn(PlayerState, PlayerState) -> bool>(
    step: Step,
    differs: D,
    s: ClientView,
    received: u32,
    actual: PlayerState,
    t: ClientView,
    log: Seq<ClientEvent>,
)
    requires
        client::valid(s),
        client::reconciled(step, differs, s, received, actual, t, log),
        s.tick_number - s.history.len() <= received < s.tick_number,
        !differs.ensures(
            (s.history[received - (s.tick_number - s.history.len())].state, actual),
            false,
        ),
    ensures
        ({
            let at = received - (s.tick_number - s.history.len());
            &&& log == seq![
                ClientEvent::Mispredicted {
                    tick: received,
                    predicted: s.history[at].state,
                    actual,
                },
            ]
            &&& t.history.len() == s.history.len() - at
            &&& forall|k: int|
                0 <= k < t.history.len() ==> #[trigger] is_played_again(
                    step,
                    actual,
                    s.history,
                    at,
                    t.history,
                    k,
                )
            &&& t.local_player == t.history[t.history.len() - 1].state
        }),
{
    law_reconciliation_exactly(step, differs, s, received, actual, t, log);
}

/// Without a waiting packet nothing changes, and there is nothing to tell.
pub proof fn law_nothing_waits<D: Fn(PlayerState, PlayerState) -> bool>(
    step: Step,
    differs: D,
    s: ClientView,
    t: ClientView,
    log: Seq<ClientEvent>,
)
    requires
        client::caught_up(step, differs, s, t, log),
        s.incoming.len() == 0,
    ensures
        t == s,
        log.len() == 0,
{
}

/// Packets are handled in the order of the queue: handling all of them is handling the oldest, and
/// then the rest. What there is to tell comes in the same order.
pub proof fn law_oldest_packet_first<D: Fn(PlayerState, PlayerState) -> bool>(
    step: Step,
    differs: D,
    s: ClientView,
    t: ClientView,
    log: Seq<ClientEvent>,
) -> (parts: (ClientView, Seq<ClientEvent>, Seq<ClientEvent>))
    requires
        client::caught_up(step, differs, s, t, log),
        s.incoming.len() > 0,
    ensures
        client::handled(step, differs, s, parts.0, parts.1),
        parts.0.incoming == s.incoming.skip(1),
        client::caught_up(step, differs, parts.0, t, parts.2),
        log == parts.1 + parts.2,
{
    let trace = choose|trace: Seq<(ClientView, Seq<ClientEvent>)>|
        {
            &&& #[trigger] client::is_run(step, differs, trace)
            &&& trace.len() == s.incoming.len() + 1
            &&& trace[0] == (s, Seq::<ClientEvent>::empty())
            &&& trace.last() == (t, log)
        };
    let (mid, first) = trace[1];
    assert(client::is_run_at(step, differs, trace, 1));
    assert(first.skip(0) =~= first);
    lemma_step(step, differs, s, mid, first);
    assert(s.incoming.skip(1) =~= s.incoming.drop_first());
    let size = first.len() as int;
    let later = Seq::new(
        (trace.len() - 1) as nat,
        |k: int| (trace[k + 1].0, trace[k + 1].1.skip(size)),
    );
    assert forall|k: int| 0 < k < later.len() implies #[trigger] client::is_run_at(
        step,
        differs,
        later,
        k,
    ) by {
        assert(client::is_run_at(step, differs, trace, k + 1));
        lemma_logs_grow(step, differs, trace, k);
        let spoken = trace[k].1;
        let told = trace[k + 1].1;
        assert(told.skip(size).take(spoken.len() - size) =~= spoken.skip(size));
        assert(told.skip(size).skip(spoken.len() - size) =~= told.skip(spoken.len() as int));
    }
    lemma_logs_grow(step, differs, trace, trace.len() - 1);
    assert(first.skip(size) =~= Seq::<ClientEvent>::empty());
    assert(client::is_run(step, differs, later));
    assert(later.last() == (t, log.skip(size)));
    assert(log =~= first + log.skip(size));
    (mid, first, log.skip(size))
}

/// What was told after the first packet stays told.
proof fn lemma_logs_grow<D: Fn(PlayerState, PlayerState) -> bool>(
    step: Step,
    differs: D,
    trace: Seq<(ClientView, Seq<ClientEvent>)>,
    k: int,
)
    requires
        client::is_run(step, differs, trace),
        1 <= k < trace.len(),
    ensures
        trace[1].1.len() <= trace[k].1.len(),
        trace[k].1.take(trace[1].1.len() as int) == trace[1].1,
    decreases k,
{
    let size = trace[1].1.len() as int;
    if k == 1 {
        assert(trace[1].1.take(size) =~= trace[1].1);
    } else {
        lemma_logs_grow(step, differs, trace, k - 1);
        assert(client::is_run_at(step, differs, trace, k));
        assert(trace[k].1.take(size) =~= trace[k].1.take(trace[k - 1].1.len() as int).take(size));
    }
}

/// Whether `path` leads from state `k` to the next by the keys that are held.
pub open spec fn leads_on(step: Step, input: PlayerInput, path: Seq<PlayerState>, k: int) -> bool {
    step(path[k], input, path[k + 1])
}

/// A client predicts one tick after the other with the keys that are held, until it has reached
/// its target tick. It notes down the player before each tick with those keys, behind what it noted
/// down before, until one hundred and eighteen are noted down. Nothing else changes.
pub proof fn law_prediction_exactly(
    step: Step,
    input: PlayerInput,
    s: ClientView,
    t: ClientView,
) -> (path: Seq<PlayerState>)
    requires
        client::valid(s),
        client::predicted(step, input, s, t),
    ensures
        t == (ClientView {
            local_player: t.local_player,
            history: t.history,
            tick_number: t.tick_number,
            ..s
        }),
        s.tick_number >= s.target_tick_number ==> t == s,
        s.tick_number < s.target_tick_number ==> {
            let due = s.target_tick_number - s.tick_number;
            let all = s.history.len() + due;
            &&& t.tick_number == s.target_tick_number
            &&& path.len() == due + 1
            &&& path[0] == s.local_player
            &&& path[due] == t.local_player
            &&& forall|k: int| 0 <= k < due ==> #[trigger] leads_on(step, input, path, k)
            &&& t.history.len() == if all < 118 { all } else { 118 }
            &&& forall|k: int|
                0 <= k < s.history.len() ==> #[trigger] t.history[k] == s.history[k]
            &&& forall|k: int|
                s.history.len() <= k < t.history.len() ==> #[trigger] t.history[k] == (Prediction {
                    state: path[k - s.history.len()],
                    input,
                })
        },
{
    let path = lemma_predicted_path(step, input, s, t);
    if s.tick_number >= s.target_tick_number {
        assert(t.history =~= s.history);
        assert(t =~= s);
    } else {
        assert forall|k: int| 0 <= k < path.len() - 1 implies #[trigger] leads_on(
            step,
            input,
            path,
            k,
        ) by {
            assert(client::is_path_at(step, input, path, k + 1));
        }
    }
    path
}

/// Whether a player is drawn for a slot: the client's own; one of as many first slots as other
/// players were named; or one whose place across is a number other than zero, of either sign.
pub open spec fn has_quad(s: ClientView, i: int) -> bool {
    ||| i == taken_for_own(s)
    ||| i < s.num_objects
    ||| s.objects[i].x as int % 0x8000_0000 != 0
}

/// How many of the first `n` slots have a quad.
pub open spec fn quads_below(s: ClientView, n: nat) -> nat
    decreases n,
{
    if n == 0 {
        0
    } else {
        quads_below(s, (n - 1) as nat) + if has_quad(s, n - 1) {
            1nat
        } else {
            0nat
        }
    }
}

/// Whether the four vertices from `at` on are the corners of the quad of a player at `x` and `y`:
/// low and low, low and high, high and high, high and low.
pub open spec fn has_corners<B: Fn(u32, u32) -> Bounds>(
    bounds_of: B,
    x: u32,
    y: u32,
    vertices: Seq<Vertex>,
    at: int,
) -> bool {
    exists|bounds: Bounds|
        {
            &&& #[trigger] bounds_of.ensures((x, y), bounds)
            &&& vertices[at].x == bounds.low_x && vertices[at].y == bounds.low_y
            &&& vertices[at + 1].x == bounds.low_x && vertices[at + 1].y == bounds.high_y
            &&& vertices[at + 2].x == bounds.high_x && vertices[at + 2].y == bounds.high_y
            &&& vertices[at + 3].x == bounds.high_x && vertices[at + 3].y == bounds.low_y
        }
}

/// Every slot that is drawn has the quad of its player, one after the other in the order of the
/// slots; for the client's own slot that is the client's own player. Every vertex that is left over
/// lies at zero. No vertex changes its colour.
pub proof fn law_drawing_exactly<B: Fn(u32, u32) -> Bounds>(
    bounds_of: B,
    s: ClientView,
    after: Seq<Vertex>,
)
    requires
        client::valid(s),
        client::is_picture(bounds_of, s, after),
    ensures
        after.len() == 128,
        forall|v: int| 0 <= v < 128 ==> (#[trigger] after[v]).color == s.vertices[v].color,
        forall|i: int|
            0 <= i < 32 && #[trigger] has_quad(s, i) ==> {
                let player = if i == taken_for_own(s) {
                    s.local_player
                } else {
                    s.objects[i]
                };
                let at = 4 * quads_below(s, i as nat) as int;
                at + 4 <= 128 && has_corners(bounds_of, player.x, player.y, after, at)
            },
        quads_below(s, 32) <= 32,
        forall|v: int|
            4 * quads_below(s, 32) <= v < 128 ==> (#[trigger] after[v]).x == 0 && after[v].y == 0,
{
    lemma_quads_below(s, 32);
    assert forall|i: int| 0 <= i < 32 && #[trigger] has_quad(s, i) implies {
        let player = if i == taken_for_own(s) {
            s.local_player
        } else {
            s.objects[i]
        };
        let at = 4 * quads_below(s, i as nat) as int;
        at + 4 <= 128 && has_corners(bounds_of, player.x, player.y, after, at)
    } by {
        lemma_quads_below(s, i as nat);
        assert(client::is_shown(s, i));
        let at = 4 * quads_below(s, i as nat) as int;
        let player = client::shown_player(s, i);
        assert(client::is_quad(bounds_of, player, after, at));
        let bounds = Bounds {
            low_x: after[at].x,
            high_x: after[at + 2].x,
            low_y: after[at].y,
            high_y: after[at + 2].y,
        };
        assert(bounds_of.ensures((player.x, player.y), bounds));
    }
}

/// The slots that are drawn are those that have a quad.
proof fn lemma_quads_below(s: ClientView, n: nat)
    requires
        client::valid(s),
        n <= 32,
    ensures
        quads_below(s, n) == client::shown_before(s, n),
        quads_below(s, n) <= n,
    decreases n,
{
    if n > 0 {
        lemma_quads_below(s, (n - 1) as nat);
        assert(has_quad(s, n - 1) == client::is_shown(s, n - 1));
    }
}

/// Every player that a client knows of at a place across other than zero, left or right of it, is
/// drawn where it is.
pub proof fn law_nobody_is_invisible<B: Fn(u32, u32) -> Bounds>(
    bounds_of: B,
    s: ClientView,
    after: Seq<Vertex>,
    i: int,
) -> (k: int)
    requires
        client::valid(s),
        client::is_picture(bounds_of, s, after),
        0 <= i < 32,
        s.objects[i].x as int % 0x8000_0000 != 0,
        s.client_id != Some(i as u16),
        i != 0 || s.client_id is Some,
    ensures
        0 <= k < 32,
        has_corners(bounds_of, s.objects[i].x, s.objects[i].y, after, 4 * k),
{
    law_drawing_exactly(bounds_of, s, after);
    assert(has_quad(s, i));
    quads_below(s, i as nat) as int
}

/// Whether a pixel, counted row by row in a window of eight hundred columns, lies in a rectangle.
pub open spec fn lies_in(rect: ScreenRect, p: int) -> bool {
    rect.min_x <= p % 800 < rect.max_x && rect.min_y <= p / 800 < rect.max_y
}

/// Painting puts each quad where `project` says for its four corners. A pixel has the colour of the
/// last quad that it lies in, and is black where it lies in none. Nothing but the window changes.
pub proof fn law_painting_exactly<P: Fn(Vertex, Vertex, Vertex, Vertex) -> ScreenRect>(
    project: P,
    s: ClientView,
    t: ClientView,
) -> (rects: Seq<ScreenRect>)
    requires
        client::valid(s),
        client::is_shown_on_screen(project, s, t),
    ensures
        t == (ClientView { frame: t.frame, ..s }),
        rects.len() == 32,
        forall|i: int|
            0 <= i < 32 ==> project.ensures(
                (
                    s.vertices[4 * i],
                    s.vertices[4 * i + 1],
                    s.vertices[4 * i + 2],
                    s.vertices[4 * i + 3],
                ),
                #[trigger] rects[i],
            ),
        t.frame.len() == 480000,
        forall|p: int|
            0 <= p < 480000 && (forall|i: int| 0 <= i < 32 ==> !lies_in(#[trigger] rects[i], p))
                ==> #[trigger] t.frame[p] == 0,
        forall|p: int, i: int|
            #![trigger t.frame[p], rects[i]]
            0 <= p < 480000 && 0 <= i < 32 && lies_in(rects[i], p) && (forall|j: int|
                i < j < 32 ==> !lies_in(#[trigger] rects[j], p)) ==> t.frame[p] == s.vertices[4
                * i].color,
{
    let rects = choose|rects: Seq<ScreenRect>|
        {
            &&& #[trigger] client::is_projected(project, s.vertices, rects)
            &&& rects.len() == crate::protocol::MAX_CLIENTS
            &&& t == (ClientView {
                frame: painted(rects, client::quad_colors(s.vertices)),
                ..s
            })
        };
    let colors = client::quad_colors(s.vertices);
    assert forall|p: int|
        0 <= p < 480000 && (forall|i: int|
            0 <= i < 32 ==> !lies_in(#[trigger] rects[i], p)) implies #[trigger] t.frame[p] == 0 by {
        crate::laws::law_last_rectangle_wins(rects, colors, p);
        assert forall|i: int| 0 <= i < rects.len() implies !crate::screen::covers(
            #[trigger] rects[i],
            p % 800,
            p / 800,
        ) by {
            assert(!lies_in(rects[i], p));
        }
    }
    assert forall|p: int, i: int|
        #![trigger t.frame[p], rects[i]]
        0 <= p < 480000 && 0 <= i < 32 && lies_in(rects[i], p) && (forall|j: int|
            i < j < 32 ==> !lies_in(#[trigger] rects[j], p)) implies t.frame[p] == s.vertices[4
        * i].color by {
        crate::laws::law_last_rectangle_wins(rects, colors, p);
        assert(crate::screen::covers(rects[i], p % 800, p / 800));
        assert forall|j: int| i < j < rects.len() implies !crate::screen::covers(
            #[trigger] rects[j],
            p % 800,
            p / 800,
        ) by {
            assert(!lies_in(rects[j], p));
        }
    }
    rects
}

/// A tick of a client reports the keys first, then handles the packets that wait, then predicts
/// with the same keys, and draws and paints what came of it. After it no packet waits to be
/// handled, and what waits to be sent is what waited before and the report.
pub proof fn law_client_tick_exactly<
    D: Fn(PlayerState, PlayerState) -> bool,
    B: Fn(u32, u32) -> Bounds,
    P: Fn(Vertex, Vertex, Vertex, Vertex) -> ScreenRect,
>(
    step: Step,
    differs: D,
    bounds_of: B,
    project: P,
    input: PlayerInput,
    now: Instant,
    s: ClientView,
    t: ClientView,
    log: Seq<ClientEvent>,
) -> (parts: (ClientView, ClientView))
    requires
        client::ticked(step, differs, bounds_of, project, input, now, s, t, log),
    ensures
        client::caught_up(
            step,
            differs,
            client::reported(s, input, now),
            parts.0,
            log,
        ),
        client::predicted(step, input, parts.0, parts.1),
        client::is_picture(bounds_of, parts.1, t.vertices),
        client::is_shown_on_screen(
            project,
            (ClientView { vertices: t.vertices, ..parts.1 }),
            t,
        ),
        t.incoming.len() == 0,
        t.outgoing == client::reported(s, input, now).outgoing,
        t.tick_number == if s.tick_number < parts.0.target_tick_number {
            parts.0.target_tick_number
        } else {
            s.tick_number
        },
        t.local_player == parts.1.local_player,
        t.history == parts.1.history,
        t.client_id == parts.0.client_id,
        t.objects == parts.0.objects,
{
    let start = client::reported(s, input, now);
    let (current, ahead) = choose|current: ClientView, ahead: ClientView|
        {
            &&& #[trigger] client::caught_up(step, differs, start, current, log)
            &&& #[trigger] client::predicted(step, input, current, ahead)
            &&& client::is_picture(bounds_of, ahead, t.vertices)
            &&& client::is_shown_on_screen(
                project,
                (ClientView { vertices: t.vertices, ..ahead }),
                t,
            )
        };
    crate::laws::law_catching_up(step, differs, start, current, log);
    let path = lemma_predicted_path(step, input, current, ahead);
    (current, ahead)
}

} // verus!
