//! The client: what it believes of the game, how it predicts its own player ahead of the server
//! and takes the prediction back when the server disagrees, and what it draws.

use crate::little_endian::{le_value, read_u16, read_u32};
use crate::packet::{
    first_bytes, fit_memory, PacketBuffer, PacketView, ReleaseTime, PACKET_SLOTS,
};
use crate::player::{
    at_rest, is_nonzero, moved, no_keys, refines, step_of, tick_by, PlayerInput, PlayerState, Step,
};
use crate::protocol::{
    build_input_request, build_join_request, build_leave_request, input_request, join_request,
    leave_request, ServerMessage, MAX_CLIENTS,
};
use crate::ring_buffer::{offered, RingBuffer};
use crate::screen::{paint, painted, ScreenRect, Vertex, PIXELS};
use rand::Rng;
use std::time::Instant;
use vstd::prelude::*;

verus! {

/// The number of slots of the prediction history: the ticks in two seconds, cut to a whole
/// number. The tick length in single precision lies above a sixtieth of a second, so that 119
/// whole ticks fit.
pub const MAX_PREDICTED_TICKS: usize = 119;

/// How many ticks ahead of the server a client predicts.
pub const PREDICTED_LEAD: u32 = 26;

/// How long after it was queued a packet is noted down to be released, in nanoseconds: a fifth of a
/// second in single precision.
pub const FAKE_LAG_NANOS: u64 = 200_000_003;

/// The number of corners that a client draws: four for each slot.
pub const VERTICES: usize = 128;

/// Where the server listens.
pub const SERVER_ADDRESS: &'static str = "127.0.0.1:9999";

/// The client's player at a tick, and the keys that were held during it. A fresh prediction notes
/// the player before the tick; one that was played again, the player after it.
#[derive(Clone, Copy, Debug, PartialEq, Eq, Structural)]
pub struct Prediction {
    pub state: PlayerState,
    pub input: PlayerInput,
}

impl Default for Prediction {
    fn default() -> (prediction: Self)
        ensures
            prediction == (Prediction { state: at_rest(), input: no_keys() }),
    {
        Prediction { state: PlayerState::default(), input: PlayerInput::default() }
    }
}

/// What a client has to tell its user.
#[derive(Clone, Copy, Debug, PartialEq, Eq, Structural)]
pub enum ClientEvent {
    /// The server gave the client a slot.
    Joined { id: u16 },
    /// The server spoke of a slot that does not exist.
    InvalidId { slot: usize },
    /// The server's word on the client's player at a tick is not what the client had predicted.
    Mispredicted { tick: u32, predicted: PlayerState, actual: PlayerState },
}

/// Where a player's quad lies, each coordinate as the bit pattern of a single.
#[derive(Clone, Copy, Debug, PartialEq, Eq, Structural)]
pub struct Bounds {
    pub low_x: u32,
    pub high_x: u32,
    pub low_y: u32,
    pub high_y: u32,
}

/// The state of a client.
pub struct ClientContext {
    client_id: Option<u16>,
    local_player: PlayerState,
    prediction_history: RingBuffer<Prediction>,
    objects: Vec<PlayerState>,
    num_objects: usize,
    tick_number: u32,
    target_tick_number: u32,
    send_buffer: PacketBuffer<String>,
    recv_buffer: PacketBuffer<String>,
    vertices: Vec<Vertex>,
    frame_buffer: Vec<u32>,
}

/// What a client knows.
#[verifier::ext_equal]
pub struct ClientView {
    /// The slot that the server gave the client.
    pub client_id: Option<u16>,
    /// The client's own player, as predicted.
    pub local_player: PlayerState,
    /// What was predicted and not yet heard of from the server, oldest first.
    pub history: Seq<Prediction>,
    /// The player of each slot, as the server last told of them.
    pub objects: Seq<PlayerState>,
    /// How many other players the server last told of.
    pub num_objects: nat,
    /// The tick up to which the client has predicted.
    pub tick_number: u32,
    /// The tick up to which the client is to predict.
    pub target_tick_number: u32,
    /// The packets that wait to be sent.
    pub outgoing: Seq<PacketView<Seq<char>>>,
    /// The packets that wait to be handled.
    pub incoming: Seq<PacketView<Seq<char>>>,
    /// The corners of the quads that are drawn.
    pub vertices: Seq<Vertex>,
    /// The colours of the window's pixels, row by row.
    pub frame: Seq<u32>,
}

/// The tables have their sizes, no queue is overfull, every packet fits into memory, and the
/// history reaches back no further than the first tick.
pub open spec fn valid(s: ClientView) -> bool {
    &&& s.history.len() < MAX_PREDICTED_TICKS
    &&& s.history.len() <= s.tick_number
    &&& s.objects.len() == MAX_CLIENTS
    &&& s.num_objects <= usize::MAX
    &&& s.outgoing.len() < PACKET_SLOTS
    &&& s.incoming.len() < PACKET_SLOTS
    &&& fit_memory(s.outgoing)
    &&& fit_memory(s.incoming)
    &&& s.vertices.len() == VERTICES
    &&& s.frame.len() == PIXELS
}

/// The colour with the given channels, each of which is off or full.
pub open spec fn channel_color(r: u32, g: u32, b: u32) -> u32 {
    (0xff0000 * r + 0xff00 * g + 0xff * b) as u32
}

/// Whether every channel of every colour was drawn as off (0) or full (1).
pub open spec fn are_draws(draws: Seq<(u32, u32, u32)>) -> bool {
    forall|i: int|
        0 <= i < draws.len() ==> (#[trigger] draws[i]).0 < 2 && draws[i].1 < 2 && draws[i].2 < 2
}

/// The colours whose channels were drawn: red, green and blue of each.
pub open spec fn drawn_colors(draws: Seq<(u32, u32, u32)>) -> Seq<u32> {
    draws.map_values(|draw: (u32, u32, u32)| channel_color(draw.0, draw.1, draw.2))
}

/// A client that has not spoken to the server yet, whose quads have the given colours.
pub open spec fn fresh(colors: Seq<u32>) -> ClientView {
    ClientView {
        client_id: None,
        local_player: at_rest(),
        history: Seq::empty(),
        objects: Seq::new(MAX_CLIENTS as nat, |i: int| at_rest()),
        num_objects: 0,
        tick_number: 0,
        target_tick_number: 0,
        outgoing: Seq::empty(),
        incoming: Seq::empty(),
        vertices: Seq::new(VERTICES as nat, |v: int| Vertex { x: 0, y: 0, color: colors[v / 4] }),
        frame: Seq::new(PIXELS as nat, |p: int| 0u32),
    }
}

/// The queue after a packet was put on it, with the moment `FAKE_LAG_NANOS` after `now` noted down
/// as its release time.
pub open spec fn queued(queue: Seq<PacketView<Seq<char>>>, data: Seq<u8>, now: Instant) -> Seq<
    PacketView<Seq<char>>,
> {
    offered(
        queue,
        PACKET_SLOTS as nat,
        PacketView {
            data,
            endpoint: SERVER_ADDRESS@,
            release_time: ReleaseTime { since: now, delay_nanos: FAKE_LAG_NANOS },
        },
    )
}

/// The four byte number at `at`.
pub open spec fn u32_at(data: Seq<u8>, at: int) -> u32 {
    le_value(data.subrange(at, at + 4)) as u32
}

/// Whether a packet tells a client that it was given a slot.
pub open spec fn is_welcome(data: Seq<u8>) -> bool {
    data.len() >= 4 && data[0] == ServerMessage::JoinResult.tag() && data[1] == 1
}

/// The slot that a client was given.
pub open spec fn welcome_id(data: Seq<u8>) -> u16 {
    le_value(data.subrange(2, 4)) as u16
}

/// Whether a packet tells of the state of the game.
pub open spec fn is_state(data: Seq<u8>) -> bool {
    data.len() > 1 && data[0] == ServerMessage::State.tag()
}

/// The tick that a state is of.
pub open spec fn state_tick(data: Seq<u8>) -> u32 {
    u32_at(data, 1)
}

/// What a state says of the client's own player.
pub open spec fn state_player(data: Seq<u8>) -> PlayerState {
    PlayerState {
        x: u32_at(data, 5),
        y: u32_at(data, 9),
        facing: u32_at(data, 13),
        speed: u32_at(data, 17),
    }
}

/// Whether a client can read a packet: a state must be whole up to the client's own player, and
/// its tick must leave room for the predicted lead.
pub open spec fn is_readable(data: Seq<u8>) -> bool {
    is_state(data) ==> data.len() >= 21 && state_tick(data) + PREDICTED_LEAD <= u32::MAX
}

/// How many other players a state tells of: each takes 14 bytes, and a rest is ignored.
pub open spec fn record_count(data: Seq<u8>) -> nat {
    ((data.len() - 21) / 14) as nat
}

/// Where the record of the `k`th other player begins.
pub open spec fn record_at(k: int) -> int {
    21 + 14 * k
}

/// The slot of the `k`th other player.
pub open spec fn record_id(data: Seq<u8>, k: int) -> int {
    le_value(data.subrange(record_at(k), record_at(k) + 2)) as int
}

/// The players of all slots after the first `n` records of a state were read. A record gives a
/// place and a heading, and leaves the speed alone; one of a slot that does not exist is skipped.
pub open spec fn told(objects: Seq<PlayerState>, data: Seq<u8>, n: nat) -> Seq<PlayerState>
    decreases n,
{
    if n == 0 {
        objects
    } else {
        let before = told(objects, data, (n - 1) as nat);
        let id = record_id(data, n - 1);
        let at = record_at(n - 1);
        if id < MAX_CLIENTS {
            before.update(
                id,
                PlayerState {
                    x: u32_at(data, at + 2),
                    y: u32_at(data, at + 6),
                    facing: u32_at(data, at + 10),
                    speed: before[id].speed,
                },
            )
        } else {
            before
        }
    }
}

/// The slot that a client takes for its own. Before it was given one, that is slot 0.
pub open spec fn own_slot(client_id: Option<u16>) -> int {
    match client_id {
        Some(id) => id as int,
        None => 0,
    }
}

/// How many of the first `n` records of a state are of another player's slot.
pub open spec fn other_players(data: Seq<u8>, own: int, n: nat) -> nat
    decreases n,
{
    if n == 0 {
        0
    } else {
        let id = record_id(data, n - 1);
        other_players(data, own, (n - 1) as nat) + if id < MAX_CLIENTS && id != own {
            1nat
        } else {
            0nat
        }
    }
}

/// The complaints about the first `n` records of a state.
pub open spec fn complaints(data: Seq<u8>, n: nat) -> Seq<ClientEvent>
    decreases n,
{
    if n == 0 {
        Seq::empty()
    } else {
        let before = complaints(data, (n - 1) as nat);
        let id = record_id(data, n - 1);
        if id < MAX_CLIENTS {
            before
        } else {
            before.push(ClientEvent::InvalidId { slot: id as usize })
        }
    }
}

/// The tick of the oldest prediction.
pub open spec fn head_tick(s: ClientView) -> int {
    s.tick_number - s.history.len()
}

/// How many of the oldest predictions are of ticks before `received`.
pub open spec fn stale(s: ClientView, received: u32) -> int {
    if received <= head_tick(s) {
        0
    } else if received - head_tick(s) < s.history.len() {
        received - head_tick(s)
    } else {
        s.history.len() as int
    }
}

/// The predictions that are left when those of ticks before `received` are gone.
pub open spec fn kept(s: ClientView, received: u32) -> Seq<Prediction> {
    s.history.skip(stale(s, received))
}

/// Whether there is a prediction of the tick `received`.
pub open spec fn has_prediction_of(s: ClientView, received: u32) -> bool {
    kept(s, received).len() > 0 && head_tick(s) + stale(s, received) == received
}

/// Whether entry `k` of `after` is that of `before` played again: the keys are the same, and the
/// state is the one before it, moved by those keys.
pub open spec fn is_replayed_at(
    step: Step,
    start: PlayerState,
    before: Seq<Prediction>,
    after: Seq<Prediction>,
    k: int,
) -> bool {
    let previous = if k == 0 {
        start
    } else {
        after[k - 1].state
    };
    &&& after[k].input == before[k].input
    &&& step(previous, before[k].input, after[k].state)
}

/// `after` is `before` played again from `start`.
pub open spec fn replayed(
    step: Step,
    start: PlayerState,
    before: Seq<Prediction>,
    after: Seq<Prediction>,
) -> bool {
    &&& after.len() == before.len()
    &&& forall|k: int|
        0 <= k < after.len() ==> #[trigger] is_replayed_at(step, start, before, after, k)
}

/// What the server's word on the client's own player makes of the client: the old predictions
/// go, and where the prediction of that very tick is wrong, what was predicted since is played
/// again from what the server said.
pub open spec fn reconciled<D: Fn(PlayerState, PlayerState) -> bool>(
    step: Step,
    differs: D,
    s: ClientView,
    received: u32,
    actual: PlayerState,
    t: ClientView,
    log: Seq<ClientEvent>,
) -> bool {
    let left = kept(s, received);
    &&& t == ClientView { history: t.history, local_player: t.local_player, ..s }
    &&& if has_prediction_of(s, received) {
        ||| {
            &&& differs.ensures((left[0].state, actual), true)
            &&& replayed(step, actual, left, t.history)
            &&& t.local_player == t.history.last().state
            &&& log == seq![
                ClientEvent::Mispredicted { tick: received, predicted: left[0].state, actual },
            ]
        }
        ||| {
            &&& differs.ensures((left[0].state, actual), false)
            &&& t.history == left
            &&& t.local_player == actual
            &&& log == Seq::<ClientEvent>::empty()
        }
    } else {
        &&& t.history == left
        &&& t.local_player == actual
        &&& log == Seq::<ClientEvent>::empty()
    }
}

/// What a state makes of the other players and of the tick to predict up to.
pub open spec fn informed(s: ClientView, data: Seq<u8>) -> ClientView {
    ClientView {
        objects: told(s.objects, data, record_count(data)),
        num_objects: other_players(data, own_slot(s.client_id), record_count(data)),
        target_tick_number: (state_tick(data) + PREDICTED_LEAD) as u32,
        ..s
    }
}

/// Whether a packet waits, and the client can read the oldest one.
pub open spec fn is_next_readable(s: ClientView) -> bool {
    s.incoming.len() > 0 && is_readable(s.incoming[0].data)
}

/// What handling the oldest waiting packet makes of the client, and what there is to tell.
pub open spec fn handled<D: Fn(PlayerState, PlayerState) -> bool>(
    step: Step,
    differs: D,
    s: ClientView,
    t: ClientView,
    log: Seq<ClientEvent>,
) -> bool {
    let data = s.incoming[0].data;
    let rest = ClientView { incoming: s.incoming.drop_first(), ..s };
    &&& s.incoming.len() > 0
    &&& if is_welcome(data) {
        &&& t == ClientView { client_id: Some(welcome_id(data)), ..rest }
        &&& log == seq![ClientEvent::Joined { id: welcome_id(data) }]
    } else if is_state(data) {
        let spoken = complaints(data, record_count(data));
        &&& spoken.len() <= log.len()
        &&& log.take(spoken.len() as int) == spoken
        &&& reconciled(
            step,
            differs,
            informed(rest, data),
            state_tick(data),
            state_player(data),
            t,
            log.skip(spoken.len() as int),
        )
    } else {
        &&& t == rest
        &&& log == Seq::<ClientEvent>::empty()
    }
}

/// Whether entry `k` of `trace` is what handling one packet makes of the entry before it, with
/// everything that there was to tell so far.
pub open spec fn is_run_at<D: Fn(PlayerState, PlayerState) -> bool>(
    step: Step,
    differs: D,
    trace: Seq<(ClientView, Seq<ClientEvent>)>,
    k: int,
) -> bool {
    let (s, spoken) = trace[k - 1];
    let (t, log) = trace[k];
    &&& spoken.len() <= log.len()
    &&& log.take(spoken.len() as int) == spoken
    &&& handled(step, differs, s, t, log.skip(spoken.len() as int))
}

/// Whether `trace` is a run of the client through waiting packets.
pub open spec fn is_run<D: Fn(PlayerState, PlayerState) -> bool>(
    step: Step,
    differs: D,
    trace: Seq<(ClientView, Seq<ClientEvent>)>,
) -> bool {
    forall|k: int| 0 < k < trace.len() ==> #[trigger] is_run_at(step, differs, trace, k)
}

/// What handling every waiting packet, oldest first, makes of the client, and what there is to
/// tell.
pub open spec fn caught_up<D: Fn(PlayerState, PlayerState) -> bool>(
    step: Step,
    differs: D,
    s: ClientView,
    t: ClientView,
    log: Seq<ClientEvent>,
) -> bool {
    exists|trace: Seq<(ClientView, Seq<ClientEvent>)>|
        {
            &&& #[trigger] is_run(step, differs, trace)
            &&& trace.len() == s.incoming.len() + 1
            &&& trace[0] == (s, Seq::<ClientEvent>::empty())
            &&& trace.last() == (t, log)
        }
}

/// The client after it reported the keys that are held for the tick that it predicts up to. It
/// reports none before it was given a slot.
pub open spec fn reported(s: ClientView, input: PlayerInput, now: Instant) -> ClientView {
    match s.client_id {
        Some(id) => ClientView {
            outgoing: queued(s.outgoing, input_request(id, s.target_tick_number, input), now),
            ..s
        },
        None => s,
    }
}

/// Whether state `k` of `path` is the one before it, moved by the keys.
pub open spec fn is_path_at(
    step: Step,
    input: PlayerInput,
    path: Seq<PlayerState>,
    k: int,
) -> bool {
    step(path[k - 1], input, path[k])
}

/// Whether `path` is a player moved again and again by the same keys.
pub open spec fn is_path(
    step: Step,
    input: PlayerInput,
    path: Seq<PlayerState>,
) -> bool {
    forall|k: int| 0 < k < path.len() ==> #[trigger] is_path_at(step, input, path, k)
}

/// The history after each state of a path but the last was noted down with the keys, as long as
/// there was room.
pub open spec fn noted(history: Seq<Prediction>, path: Seq<PlayerState>, input: PlayerInput) -> Seq<
    Prediction,
> {
    let steps = path.len() - 1;
    let room = MAX_PREDICTED_TICKS - 1 - history.len();
    history + Seq::new(
        (if steps < room { steps } else { room }) as nat,
        |k: int| Prediction { state: path[k], input },
    )
}

/// How many ticks a client has to predict.
pub open spec fn ticks_due(s: ClientView) -> nat {
    if s.tick_number < s.target_tick_number {
        (s.target_tick_number - s.tick_number) as nat
    } else {
        0
    }
}

/// The client after its own player went along a path.
pub open spec fn after_path(s: ClientView, path: Seq<PlayerState>, input: PlayerInput) -> ClientView {
    ClientView {
        local_player: path.last(),
        history: noted(s.history, path, input),
        tick_number: (s.tick_number + path.len() - 1) as u32,
        ..s
    }
}

/// What predicting with the same keys up to the target tick makes of the client.
pub open spec fn predicted(
    step: Step,
    input: PlayerInput,
    s: ClientView,
    t: ClientView,
) -> bool {
    exists|path: Seq<PlayerState>|
        {
            &&& #[trigger] is_path(step, input, path)
            &&& path.len() == ticks_due(s) + 1
            &&& path[0] == s.local_player
            &&& t == after_path(s, path, input)
        }
}

/// One step more along a path, noted down if there is room.
proof fn lemma_path_next(
    step: Step,
    history: Seq<Prediction>,
    path: Seq<PlayerState>,
    next: PlayerState,
    input: PlayerInput,
)
    requires
        is_path(step, input, path),
        path.len() > 0,
        history.len() < MAX_PREDICTED_TICKS,
        step(path.last(), input, next),
    ensures
        is_path(step, input, path.push(next)),
        noted(history, path.push(next), input) == offered(
            noted(history, path, input),
            MAX_PREDICTED_TICKS as nat,
            Prediction { state: path.last(), input },
        ),
{
    let longer = path.push(next);
    assert forall|k: int| 0 < k < longer.len() implies #[trigger] is_path_at(
        step,
        input,
        longer,
        k,
    ) by {
        if k < path.len() {
            assert(is_path_at(step, input, path, k));
        }
    }
    assert(noted(history, longer, input) =~= offered(
        noted(history, path, input),
        MAX_PREDICTED_TICKS as nat,
        Prediction { state: path.last(), input },
    ));
}

/// What a step makes of a client, a coarser one allows too.
proof fn lemma_coarser_catching_up<D: Fn(PlayerState, PlayerState) -> bool>(
    fine: Step,
    coarse: Step,
    differs: D,
    s: ClientView,
    t: ClientView,
    log: Seq<ClientEvent>,
)
    requires
        refines(fine, coarse),
        caught_up(fine, differs, s, t, log),
    ensures
        caught_up(coarse, differs, s, t, log),
{
    let trace = choose|trace: Seq<(ClientView, Seq<ClientEvent>)>|
        {
            &&& #[trigger] is_run(fine, differs, trace)
            &&& trace.len() == s.incoming.len() + 1
            &&& trace[0] == (s, Seq::<ClientEvent>::empty())
            &&& trace.last() == (t, log)
        };
    assert forall|k: int| 0 < k < trace.len() implies #[trigger] is_run_at(
        coarse,
        differs,
        trace,
        k,
    ) by {
        assert(is_run_at(fine, differs, trace, k));
        let (before, spoken) = trace[k - 1];
        let (after, told) = trace[k];
        lemma_coarser_handling(
            fine,
            coarse,
            differs,
            before,
            after,
            told.skip(spoken.len() as int),
        );
    }
    assert(is_run(coarse, differs, trace));
}

/// What a step makes of a client with one packet, a coarser one allows too.
proof fn lemma_coarser_handling<D: Fn(PlayerState, PlayerState) -> bool>(
    fine: Step,
    coarse: Step,
    differs: D,
    s: ClientView,
    t: ClientView,
    log: Seq<ClientEvent>,
)
    requires
        refines(fine, coarse),
        handled(fine, differs, s, t, log),
    ensures
        handled(coarse, differs, s, t, log),
{
    let data = s.incoming[0].data;
    let actual = state_player(data);
    let rest = informed(ClientView { incoming: s.incoming.drop_first(), ..s }, data);
    let left = kept(rest, state_tick(data));
    if is_state(data) && replayed(fine, actual, left, t.history) {
        assert forall|k: int| 0 <= k < t.history.len() implies #[trigger] is_replayed_at(
            coarse,
            actual,
            left,
            t.history,
            k,
        ) by {
            assert(is_replayed_at(fine, actual, left, t.history, k));
        }
    }
}

/// What a step predicts, a coarser one allows too.
proof fn lemma_coarser_prediction(
    fine: Step,
    coarse: Step,
    input: PlayerInput,
    s: ClientView,
    t: ClientView,
)
    requires
        refines(fine, coarse),
        predicted(fine, input, s, t),
    ensures
        predicted(coarse, input, s, t),
{
    let path = choose|path: Seq<PlayerState>|
        {
            &&& #[trigger] is_path(fine, input, path)
            &&& path.len() == ticks_due(s) + 1
            &&& path[0] == s.local_player
            &&& t == after_path(s, path, input)
        };
    assert forall|k: int| 0 < k < path.len() implies #[trigger] is_path_at(
        coarse,
        input,
        path,
        k,
    ) by {
        assert(is_path_at(fine, input, path, k));
    }
    assert(is_path(coarse, input, path));
}

/// Whether a client draws the player of slot `i`: its own; as many of the first slots as the
/// server last told of players; and whoever it holds at a place across other than zero.
pub open spec fn is_shown(s: ClientView, i: int) -> bool {
    i == own_slot(s.client_id) || i < s.num_objects || is_nonzero(s.objects[i].x)
}

/// The player that is drawn for slot `i`.
pub open spec fn shown_player(s: ClientView, i: int) -> PlayerState {
    if i == own_slot(s.client_id) {
        s.local_player
    } else {
        s.objects[i]
    }
}

/// How many of the first `n` slots are drawn.
pub open spec fn shown_before(s: ClientView, n: nat) -> nat
    decreases n,
{
    if n == 0 {
        0
    } else {
        shown_before(s, (n - 1) as nat) + if is_shown(s, n - 1) {
            1nat
        } else {
            0nat
        }
    }
}

/// Whether the four vertices from `at` on are the corners of what `bounds_of` gives for a player.
pub open spec fn is_quad<B: Fn(u32, u32) -> Bounds>(
    bounds_of: B,
    player: PlayerState,
    vertices: Seq<Vertex>,
    at: int,
) -> bool {
    let bounds = Bounds {
        low_x: vertices[at].x,
        high_x: vertices[at + 2].x,
        low_y: vertices[at].y,
        high_y: vertices[at + 2].y,
    };
    &&& bounds_of.ensures((player.x, player.y), bounds)
    &&& vertices[at + 1].x == bounds.low_x && vertices[at + 1].y == bounds.high_y
    &&& vertices[at + 3].x == bounds.high_x && vertices[at + 3].y == bounds.low_y
}

/// Whether `after` is what is drawn of a client's first `n` slots: a quad for each slot that is
/// drawn, one after the other, in the colours that the vertices have.
pub open spec fn is_drawn<B: Fn(u32, u32) -> Bounds>(
    bounds_of: B,
    s: ClientView,
    after: Seq<Vertex>,
    n: nat,
) -> bool {
    &&& after.len() == s.vertices.len()
    &&& forall|v: int|
        0 <= v < after.len() ==> (#[trigger] after[v]).color == s.vertices[v].color
    &&& forall|i: int|
        0 <= i < n && #[trigger] is_shown(s, i) ==> is_quad(
            bounds_of,
            shown_player(s, i),
            after,
            4 * shown_before(s, i as nat) as int,
        )
}

/// Whether `after` is what is drawn of a client: a quad for each slot that is drawn, and every
/// vertex that is left over at zero.
pub open spec fn is_picture<B: Fn(u32, u32) -> Bounds>(
    bounds_of: B,
    s: ClientView,
    after: Seq<Vertex>,
) -> bool {
    &&& is_drawn(bounds_of, s, after, MAX_CLIENTS as nat)
    &&& forall|v: int|
        4 * shown_before(s, MAX_CLIENTS as nat) <= v < after.len() ==> (#[trigger] after[v]).x == 0
            && after[v].y == 0
}

/// The quad of a slot that is drawn comes before the quads of later slots.
proof fn lemma_shown_before(s: ClientView, i: nat, n: nat)
    requires
        i < n,
    ensures
        shown_before(s, i) <= shown_before(s, n),
        is_shown(s, i as int) ==> shown_before(s, i) < shown_before(s, n),
    decreases n,
{
    if i + 1 < n {
        lemma_shown_before(s, i, (n - 1) as nat);
    }
}

/// What is drawn of the first `n` slots stays drawn when later vertices move.
proof fn lemma_drawn_kept<B: Fn(u32, u32) -> Bounds>(
    bounds_of: B,
    s: ClientView,
    before: Seq<Vertex>,
    after: Seq<Vertex>,
    n: nat,
)
    requires
        is_drawn(bounds_of, s, before, n),
        after.len() == before.len(),
        forall|v: int| 0 <= v < 4 * shown_before(s, n) ==> #[trigger] after[v] == before[v],
        forall|v: int| 0 <= v < after.len() ==> (#[trigger] after[v]).color == before[v].color,
    ensures
        is_drawn(bounds_of, s, after, n),
{
    assert forall|i: int| 0 <= i < n && #[trigger] is_shown(s, i) implies is_quad(
        bounds_of,
        shown_player(s, i),
        after,
        4 * shown_before(s, i as nat) as int,
    ) by {
        lemma_shown_before(s, i as nat, n);
        let at = 4 * shown_before(s, i as nat) as int;
        assert(is_quad(bounds_of, shown_player(s, i), before, at));
        assert(after[at] == before[at] && after[at + 1] == before[at + 1] && after[at + 2]
            == before[at + 2] && after[at + 3] == before[at + 3]);
    }
}

/// What is drawn of the first `n` slots, and of the next one too, is drawn of one slot more.
proof fn lemma_drawn_next<B: Fn(u32, u32) -> Bounds>(
    bounds_of: B,
    s: ClientView,
    vertices: Seq<Vertex>,
    n: nat,
)
    requires
        is_drawn(bounds_of, s, vertices, n),
        is_shown(s, n as int) ==> is_quad(
            bounds_of,
            shown_player(s, n as int),
            vertices,
            4 * shown_before(s, n) as int,
        ),
    ensures
        is_drawn(bounds_of, s, vertices, n + 1),
{
}

/// Whether `rects` is where the quads of `vertices` lie on the screen.
pub open spec fn is_projected<P: Fn(Vertex, Vertex, Vertex, Vertex) -> ScreenRect>(
    project: P,
    vertices: Seq<Vertex>,
    rects: Seq<ScreenRect>,
) -> bool {
    forall|i: int|
        #![trigger rects[i]]
        0 <= i < rects.len() ==> project.ensures(
            (vertices[4 * i], vertices[4 * i + 1], vertices[4 * i + 2], vertices[4 * i + 3]),
            rects[i],
        )
}

/// The colour of each quad: that of its first corner.
pub open spec fn quad_colors(vertices: Seq<Vertex>) -> Seq<u32> {
    Seq::new(vertices.len() / 4, |i: int| vertices[4 * i].color)
}

/// Whether `t` is `s` with every quad painted where `project` puts it.
pub open spec fn is_shown_on_screen<P: Fn(Vertex, Vertex, Vertex, Vertex) -> ScreenRect>(
    project: P,
    s: ClientView,
    t: ClientView,
) -> bool {
    exists|rects: Seq<ScreenRect>|
        {
            &&& #[trigger] is_projected(project, s.vertices, rects)
            &&& rects.len() == MAX_CLIENTS
            &&& t == (ClientView { frame: painted(rects, quad_colors(s.vertices)), ..s })
        }
}

/// What a tick makes of the client: the keys that are held are reported, the waiting packets are
/// handled, the client's own player is predicted, and what came of it is drawn. `log` is what
/// there is to tell.
pub open spec fn ticked<
    D: Fn(PlayerState, PlayerState) -> bool,
    B: Fn(u32, u32) -> Bounds,
    P: Fn(Vertex, Vertex, Vertex, Vertex) -> ScreenRect,
>(
    step: Step,
    differs: D,
    bounds_of: B,
    project: P,
    input: PlayerInput,
    now: Instant,
    s: ClientView,
    t: ClientView,
    log: Seq<ClientEvent>,
) -> bool {
    exists|current: ClientView, ahead: ClientView|
        {
            &&& #[trigger] caught_up(step, differs, reported(s, input, now), current, log)
            &&& #[trigger] predicted(step, input, current, ahead)
            &&& is_picture(bounds_of, ahead, t.vertices)
            &&& is_shown_on_screen(project, (ClientView { vertices: t.vertices, ..ahead }), t)
        }
}

/// What a tick with one step makes of a client, a tick with a coarser one allows too.
proof fn lemma_coarser_tick<
    D: Fn(PlayerState, PlayerState) -> bool,
    B: Fn(u32, u32) -> Bounds,
    P: Fn(Vertex, Vertex, Vertex, Vertex) -> ScreenRect,
>(
    fine: Step,
    coarse: Step,
    differs: D,
    bounds_of: B,
    project: P,
    input: PlayerInput,
    now: Instant,
    s: ClientView,
    t: ClientView,
    log: Seq<ClientEvent>,
)
    requires
        refines(fine, coarse),
        ticked(fine, differs, bounds_of, project, input, now, s, t, log),
    ensures
        ticked(coarse, differs, bounds_of, project, input, now, s, t, log),
{
    let start = reported(s, input, now);
    let (current, ahead) = choose|current: ClientView, ahead: ClientView|
        {
            &&& #[trigger] caught_up(fine, differs, start, current, log)
            &&& #[trigger] predicted(fine, input, current, ahead)
            &&& is_picture(bounds_of, ahead, t.vertices)
            &&& is_shown_on_screen(project, (ClientView { vertices: t.vertices, ..ahead }), t)
        };
    lemma_coarser_catching_up(fine, coarse, differs, start, current, log);
    lemma_coarser_prediction(fine, coarse, input, current, ahead);
}

/// A number that is evenly drawn from those at least `low` and below `high`.
///
/// This is `gen_range` of `rand::Rng`, on the generator of `rand::thread_rng`. All that is
/// claimed is that the number lies in the range. `thread_rng` panics where the system has no
/// random numbers to give.
#[verifier::external_body]
fn gen_range(low: u32, high: u32) -> (value: u32)
    requires
        low < high,
    ensures
        low <= value < high,
{
    rand::thread_rng().gen_range(low..high)
}

/// Mixes a colour from three channels, each of which is off (0) or full (1).
pub fn mix_color(r: u32, g: u32, b: u32) -> (color: u32)
    requires
        r < 2,
        g < 2,
        b < 2,
    ensures
        color == channel_color(r, g, b),
{
    let red: u32 = r * 255;
    let green: u32 = g * 255;
    let blue: u32 = b * 255;
    assert((red << 16) | (green << 8) | blue == 0x10000 * red + 0x100 * green + blue)
        by (bit_vector)
        requires
            red <= 255,
            green <= 255,
            blue <= 255,
    ;
    (red << 16) | (green << 8) | blue
}

/// Mixes every colour whose channels were drawn.
pub fn mix_colors(draws: &Vec<(u32, u32, u32)>) -> (colors: Vec<u32>)
    requires
        are_draws(draws@),
    ensures
        colors@ == drawn_colors(draws@),
{
    let mut colors: Vec<u32> = Vec::new();
    let mut i: usize = 0;
    while i < draws.len()
        invariant
            i <= draws@.len(),
            are_draws(draws@),
            colors@ == drawn_colors(draws@).take(i as int),
        decreases draws@.len() - i,
    {
        let (r, g, b) = draws[i];
        colors.push(mix_color(r, g, b));
        i = i + 1;
        assert(colors@ =~= drawn_colors(draws@).take(i as int));
    }
    assert(colors@ =~= drawn_colors(draws@));
    colors
}

/// Queues a packet for or from the server.
fn enqueue(queue: &mut PacketBuffer<String>, data: Vec<u8>, now: Instant)
    requires
        old(queue).wf(),
    ensures
        final(queue).wf(),
        final(queue)@ == queued(old(queue)@, data@, now),
        final(queue)@.len() < PACKET_SLOTS,
        fit_memory(final(queue)@),
{
    let release_time = ReleaseTime { since: now, delay_nanos: FAKE_LAG_NANOS };
    queue.push(data, SERVER_ADDRESS.to_owned(), release_time);
    proof {
        queue.law_bounded();
    }
}

impl View for ClientContext {
    type V = ClientView;

    closed spec fn view(&self) -> ClientView {
        ClientView {
            client_id: self.client_id,
            local_player: self.local_player,
            history: self.prediction_history@,
            objects: self.objects@,
            num_objects: self.num_objects as nat,
            tick_number: self.tick_number,
            target_tick_number: self.target_tick_number,
            outgoing: self.send_buffer@,
            incoming: self.recv_buffer@,
            vertices: self.vertices@,
            frame: self.frame_buffer@,
        }
    }
}

impl ClientContext {
    /// The tables have their sizes, and the queues are in order.
    pub closed spec fn wf(&self) -> bool {
        &&& self.prediction_history.wf()
        &&& self.prediction_history.slots() == MAX_PREDICTED_TICKS
        &&& self.send_buffer.wf()
        &&& self.recv_buffer.wf()
        &&& valid(self@)
    }

    /// Every state of a client is a valid one.
    pub proof fn law_valid(&self)
        requires
            self.wf(),
        ensures
            valid(self@),
    {
    }

    /// A client that has not spoken to the server yet, whose quads have the given colours.
    pub fn with_colors(colors: &Vec<u32>) -> (context: Self)
        requires
            colors@.len() == MAX_CLIENTS,
        ensures
            context.wf(),
            context@ == fresh(colors@),
    {
        let mut vertices: Vec<Vertex> = Vec::with_capacity(VERTICES);
        let mut i: usize = 0;
        while i < MAX_CLIENTS
            invariant
                i <= MAX_CLIENTS,
                colors@.len() == MAX_CLIENTS,
                vertices@.len() == 4 * i,
                forall|v: int|
                    0 <= v < 4 * i ==> #[trigger] vertices@[v] == (Vertex {
                        x: 0,
                        y: 0,
                        color: colors@[v / 4],
                    }),
            decreases MAX_CLIENTS - i,
        {
            let color: u32 = colors[i];
            vertices.push(Vertex { x: 0, y: 0, color });
            vertices.push(Vertex { x: 0, y: 0, color });
            vertices.push(Vertex { x: 0, y: 0, color });
            vertices.push(Vertex { x: 0, y: 0, color });
            i = i + 1;
        }
        let context = ClientContext {
            client_id: None,
            local_player: PlayerState::default(),
            prediction_history: RingBuffer::new(MAX_PREDICTED_TICKS),
            objects: vec![PlayerState::default(); MAX_CLIENTS],
            num_objects: 0,
            tick_number: 0,
            target_tick_number: 0,
            send_buffer: PacketBuffer::new(),
            recv_buffer: PacketBuffer::new(),
            vertices,
            frame_buffer: vec![0; PIXELS],
        };
        assert(context@ =~= fresh(colors@));
        context
    }

    /// A client that has not spoken to the server yet. Each slot has a colour of its own, drawn
    /// by lot from the eight whose channels are off or full.
    pub fn new() -> (context: Self)
        ensures
            context.wf(),
            exists|draws: Seq<(u32, u32, u32)>|
                #![trigger drawn_colors(draws)]
                draws.len() == MAX_CLIENTS && are_draws(draws) && context@ == fresh(
                    drawn_colors(draws),
                ),
    {
        let mut draws: Vec<(u32, u32, u32)> = Vec::new();
        while draws.len() < MAX_CLIENTS
            invariant
                draws@.len() <= MAX_CLIENTS,
                are_draws(draws@),
            decreases MAX_CLIENTS - draws@.len(),
        {
            let r: u32 = gen_range(0, 2);
            let g: u32 = gen_range(0, 2);
            let b: u32 = gen_range(0, 2);
            draws.push((r, g, b));
        }
        let colors = mix_colors(&draws);
        Self::with_colors(&colors)
    }

    /// Queues the request for a slot.
    pub fn join(&mut self, now: Instant)
        requires
            old(self).wf(),
        ensures
            final(self).wf(),
            final(self)@ == (ClientView {
                outgoing: queued(old(self)@.outgoing, join_request(), now),
                ..old(self)@
            }),
    {
        enqueue(&mut self.send_buffer, build_join_request(), now);
    }

    /// Queues the farewell, if the client was given a slot. Says whether it was.
    pub fn leave(&mut self, now: Instant) -> (leaving: bool)
        requires
            old(self).wf(),
        ensures
            final(self).wf(),
            leaving == (old(self)@.client_id is Some),
            match old(self)@.client_id {
                Some(id) => final(self)@ == (ClientView {
                    outgoing: queued(old(self)@.outgoing, leave_request(id), now),
                    ..old(self)@
                }),
                None => final(self)@ == old(self)@,
            },
    {
        if let Some(id) = self.client_id {
            enqueue(&mut self.send_buffer, build_leave_request(id), now);
            true
        } else {
            false
        }
    }

    /// Queues the keys that are held for the tick that the client predicts up to, if the client
    /// was given a slot.
    pub fn send_input(&mut self, input: PlayerInput, now: Instant)
        requires
            old(self).wf(),
        ensures
            final(self).wf(),
            final(self)@ == reported(old(self)@, input, now),
    {
        if let Some(id) = self.client_id {
            let data = build_input_request(id, self.target_tick_number, input);
            enqueue(&mut self.send_buffer, data, now);
        }
    }

    /// Queues the first `bytes_received` bytes of `raw` as a packet from the server.
    pub fn receive(&mut self, raw: &[u8], bytes_received: usize, now: Instant)
        requires
            old(self).wf(),
            bytes_received <= raw@.len(),
        ensures
            final(self).wf(),
            final(self)@ == (ClientView {
                incoming: queued(old(self)@.incoming, raw@.take(bytes_received as int), now),
                ..old(self)@
            }),
    {
        enqueue(&mut self.recv_buffer, first_bytes(raw, bytes_received), now);
    }

    /// Takes the oldest packet that waits to be sent: its bytes and where they go.
    pub fn next_outgoing(&mut self) -> (packet: Option<(Vec<u8>, String)>)
        requires
            old(self).wf(),
        ensures
            final(self).wf(),
            match packet {
                None => old(self)@.outgoing.len() == 0 && final(self)@ == old(self)@,
                Some((data, address)) => {
                    &&& old(self)@.outgoing.len() > 0
                    &&& data@ == old(self)@.outgoing[0].data
                    &&& address@ == old(self)@.outgoing[0].endpoint
                    &&& final(self)@ == (ClientView {
                        outgoing: old(self)@.outgoing.drop_first(),
                        ..old(self)@
                    })
                },
            },
    {
        self.send_buffer.pop()
    }

    /// Whether the client can read every waiting packet. `process_received` may be called only
    /// then.
    pub fn can_process_received(&self) -> (ready: bool)
        requires
            self.wf(),
        ensures
            ready == (forall|k: int|
                0 <= k < self@.incoming.len() ==> is_readable((#[trigger] self@.incoming[k]).data)),
    {
        let count: usize = self.recv_buffer.size();
        let mut k: usize = 0;
        while k < count
            invariant
                self.wf(),
                k <= count == self@.incoming.len(),
                forall|j: int|
                    0 <= j < k ==> is_readable((#[trigger] self@.incoming[j]).data),
            decreases count - k,
        {
            let packet = self.recv_buffer.peek(k);
            assert(packet.data@ == self@.incoming[k as int].data);
            if !readable(packet.data.as_slice()) {
                return false;
            }
            k = k + 1;
        }
        true
    }

    /// Reads what a state tells of the other players.
    fn read_others(&mut self, data: &[u8], events: &mut Vec<ClientEvent>)
        requires
            old(self).wf(),
            data@.len() >= 21,
        ensures
            final(self).wf(),
            final(self)@ == (ClientView {
                objects: told(old(self)@.objects, data@, record_count(data@)),
                num_objects: other_players(
                    data@,
                    own_slot(old(self)@.client_id),
                    record_count(data@),
                ),
                ..old(self)@
            }),
            final(events)@ == old(events)@ + complaints(data@, record_count(data@)),
    {
        let own: usize = self.client_id.unwrap_or(0) as usize;
        let mut offset: usize = 21;
        let ghost mut k: nat = 0;
        self.num_objects = 0;
        assert(old(events)@ + complaints(data@, 0) =~= old(events)@);
        while data.len() - offset >= 14
            invariant
                self.wf(),
                own == own_slot(old(self)@.client_id),
                offset == record_at(k as int),
                offset <= data@.len(),
                k <= record_count(data@),
                other_players(data@, own as int, k) <= k,
                self@ == (ClientView {
                    objects: told(old(self)@.objects, data@, k),
                    num_objects: other_players(data@, own as int, k),
                    ..old(self)@
                }),
                events@ == old(events)@ + complaints(data@, k),
            decreases data@.len() - offset,
        {
            let id: usize = read_u16(data, offset) as usize;
            if id < MAX_CLIENTS {
                let object = PlayerState {
                    x: read_u32(data, offset + 2),
                    y: read_u32(data, offset + 6),
                    facing: read_u32(data, offset + 10),
                    speed: self.objects[id].speed,
                };
                self.objects.set(id, object);
                if id != own {
                    self.num_objects = self.num_objects + 1;
                }
            } else {
                events.push(ClientEvent::InvalidId { slot: id });
            }
            offset = offset + 14;
            proof {
                k = k + 1;
            }
            assert(events@ =~= old(events)@ + complaints(data@, k));
        }
    }

    /// Takes the server's word on the client's own player at the tick `received`.
    fn reconcile<
        F: Fn(PlayerState, PlayerInput) -> PlayerState,
        D: Fn(PlayerState, PlayerState) -> bool,
    >(
        &mut self,
        received: u32,
        actual: PlayerState,
        tick_player: &F,
        differs: &D,
    ) -> (event: Option<ClientEvent>)
        requires
            old(self).wf(),
            forall|state: PlayerState, input: PlayerInput| #[trigger]
                tick_player.requires((state, input)),
            forall|a: PlayerState, b: PlayerState| #[trigger] differs.requires((a, b)),
        ensures
            final(self).wf(),
            reconciled(
                step_of(*tick_player),
                *differs,
                old(self)@,
                received,
                actual,
                final(self)@,
                match event {
                    Some(event) => seq![event],
                    None => Seq::empty(),
                },
            ),
    {
        self.local_player = actual;
        let mut history_size: usize = self.prediction_history.size();
        let mut oldest: u32 = self.tick_number - history_size as u32;
        let ghost start = old(self)@;
        assert(start.history.skip(0) =~= start.history);
        while history_size > 0 && oldest < received
            invariant
                self.wf(),
                self@ == (ClientView { local_player: actual, history: self@.history, ..start }),
                history_size == self@.history.len(),
                history_size <= start.history.len(),
                oldest == start.tick_number - history_size,
                start.history.len() <= start.tick_number,
                self@.history == start.history.skip(start.history.len() - history_size),
                oldest <= received || history_size == start.history.len(),
            decreases history_size,
        {
            self.prediction_history.pop();
            oldest = oldest + 1;
            history_size = history_size - 1;
            assert(self@.history =~= start.history.skip(start.history.len() - history_size));
        }
        assert(self@.history =~= kept(start, received));
        if history_size > 0 && oldest == received {
            let predicted: PlayerState = self.prediction_history.peek(0).state;
            if differs(predicted, actual) {
                self.replay(tick_player);
                return Some(ClientEvent::Mispredicted { tick: received, predicted, actual });
            }
        }
        None
    }

    /// Plays the whole history again from the client's own player.
    fn replay<F: Fn(PlayerState, PlayerInput) -> PlayerState>(&mut self, tick_player: &F)
        requires
            old(self).wf(),
            old(self)@.history.len() > 0,
            forall|state: PlayerState, input: PlayerInput| #[trigger]
                tick_player.requires((state, input)),
        ensures
            final(self).wf(),
            final(self)@ == (ClientView {
                history: final(self)@.history,
                local_player: final(self)@.history.last().state,
                ..old(self)@
            }),
            replayed(
                step_of(*tick_player),
                old(self)@.local_player,
                old(self)@.history,
                final(self)@.history,
            ),
    {
        let ghost start = old(self)@;
        let mut player: PlayerState = self.local_player;
        let count: usize = self.prediction_history.size();
        let mut k: usize = 0;
        while k < count
            invariant
                self.wf(),
                k <= count == start.history.len(),
                self@ == (ClientView { history: self@.history, ..start }),
                self@.history.len() == count,
                player == if k == 0 {
                    start.local_player
                } else {
                    self@.history[k - 1].state
                },
                forall|state: PlayerState, input: PlayerInput| #[trigger]
                    tick_player.requires((state, input)),
                forall|j: int| k <= j < count ==> self@.history[j] == start.history[j],
                forall|j: int|
                    0 <= j < k ==> #[trigger] is_replayed_at(
                        step_of(*tick_player),
                        start.local_player,
                        start.history,
                        self@.history,
                        j,
                    ),
            decreases count - k,
        {
            let input: PlayerInput = self.prediction_history.peek(k).input;
            let ghost before = self@.history;
            player = tick_player(player, input);
            self.prediction_history.replace(k, Prediction { state: player, input });
            assert forall|j: int| 0 <= j <= k implies #[trigger] is_replayed_at(
                step_of(*tick_player),
                start.local_player,
                start.history,
                self@.history,
                j,
            ) by {
                if j < k {
                    assert(is_replayed_at(
                        step_of(*tick_player),
                        start.local_player,
                        start.history,
                        before,
                        j,
                    ));
                }
            }
            k = k + 1;
        }
        self.local_player = player;
    }

    /// Handles every waiting packet, oldest first. Returns what there is to tell, in order.
    ///
    /// `tick_player` moves a player by one tick, and `differs` says whether a predicted player is
    /// too far from the actual one.
    pub fn process_received<
        F: Fn(PlayerState, PlayerInput) -> PlayerState,
        D: Fn(PlayerState, PlayerState) -> bool,
    >(&mut self, tick_player: &F, differs: &D) -> (events: Vec<ClientEvent>)
        requires
            old(self).wf(),
            forall|k: int|
                0 <= k < old(self)@.incoming.len() ==> is_readable(
                    (#[trigger] old(self)@.incoming[k]).data,
                ),
            forall|state: PlayerState, input: PlayerInput| #[trigger]
                tick_player.requires((state, input)),
            forall|a: PlayerState, b: PlayerState| #[trigger] differs.requires((a, b)),
        ensures
            final(self).wf(),
            final(self)@.incoming.len() == 0,
            caught_up(step_of(*tick_player), *differs, old(self)@, final(self)@, events@),
    {
        let mut events: Vec<ClientEvent> = Vec::new();
        let ghost start = old(self)@;
        let ghost mut trace: Seq<(ClientView, Seq<ClientEvent>)> = seq![(start, events@)];
        loop
            invariant
                self.wf(),
                forall|k: int|
                    0 <= k < self@.incoming.len() ==> is_readable(
                        (#[trigger] self@.incoming[k]).data,
                    ),
                forall|state: PlayerState, input: PlayerInput| #[trigger]
                    tick_player.requires((state, input)),
                forall|a: PlayerState, b: PlayerState| #[trigger] differs.requires((a, b)),
                is_run(step_of(*tick_player), *differs, trace),
                trace.len() + self@.incoming.len() == start.incoming.len() + 1,
                trace.len() > 0,
                trace[0] == (start, Seq::<ClientEvent>::empty()),
                trace.last() == (self@, events@),
            ensures
                self.wf(),
                self@.incoming.len() == 0,
                is_run(step_of(*tick_player), *differs, trace),
                trace.len() == start.incoming.len() + 1,
                trace[0] == (start, Seq::<ClientEvent>::empty()),
                trace.last() == (self@, events@),
            decreases self@.incoming.len(),
        {
            let ghost before = self@;
            match self.recv_buffer.pop() {
                None => {
                    break;
                },
                Some((data, _)) => {
                    let ghost rest = ClientView { incoming: before.incoming.drop_first(), ..before };
                    assert(self@ =~= rest);
                    assert(is_readable(before.incoming[0].data));
                    self.handle_packet(data.as_slice(), tick_player, differs, &mut events);
                    proof {
                        let old_trace = trace;
                        trace = trace.push((self@, events@));
                        assert forall|k: int| 0 < k < trace.len() implies #[trigger] is_run_at(
                            step_of(*tick_player),
                            *differs,
                            trace,
                            k,
                        ) by {
                            if k < old_trace.len() {
                                assert(is_run_at(
                                    step_of(*tick_player),
                                    *differs,
                                    old_trace,
                                    k,
                                ));
                            }
                        }
                    }
                },
            }
        }
        events
    }

    /// Handles the oldest waiting packet. Returns what there is to tell, in order.
    pub fn process_next_received<
        F: Fn(PlayerState, PlayerInput) -> PlayerState,
        D: Fn(PlayerState, PlayerState) -> bool,
    >(&mut self, tick_player: &F, differs: &D) -> (events: Vec<ClientEvent>)
        requires
            old(self).wf(),
            is_next_readable(old(self)@),
            forall|state: PlayerState, input: PlayerInput| #[trigger]
                tick_player.requires((state, input)),
            forall|a: PlayerState, b: PlayerState| #[trigger] differs.requires((a, b)),
        ensures
            final(self).wf(),
            handled(step_of(*tick_player), *differs, old(self)@, final(self)@, events@),
    {
        let mut events: Vec<ClientEvent> = Vec::new();
        let ghost before = self@;
        if let Some((data, _)) = self.recv_buffer.pop() {
            assert(self@ =~= ClientView { incoming: before.incoming.drop_first(), ..before });
            self.handle_packet(data.as_slice(), tick_player, differs, &mut events);
            assert(events@.skip(0) =~= events@);
        }
        events
    }

    /// Whether a packet waits, and the client can read the oldest one. `process_next_received` may
    /// be called only then.
    pub fn can_process_next_received(&self) -> (ready: bool)
        requires
            self.wf(),
        ensures
            ready == is_next_readable(self@),
    {
        self.recv_buffer.size() > 0 && readable(self.recv_buffer.peek(0).data.as_slice())
    }

    /// Handles one packet that was taken off the queue.
    fn handle_packet<
        F: Fn(PlayerState, PlayerInput) -> PlayerState,
        D: Fn(PlayerState, PlayerState) -> bool,
    >(&mut self, data: &[u8], tick_player: &F, differs: &D, events: &mut Vec<ClientEvent>)
        requires
            old(self).wf(),
            is_readable(data@),
            forall|state: PlayerState, input: PlayerInput| #[trigger]
                tick_player.requires((state, input)),
            forall|a: PlayerState, b: PlayerState| #[trigger] differs.requires((a, b)),
        ensures
            final(self).wf(),
            old(events)@.len() <= final(events)@.len(),
            final(events)@.take(old(events)@.len() as int) == old(events)@,
            final(self)@.incoming == old(self)@.incoming,
            forall|s: ClientView|
                s.incoming.len() > 0 && s.incoming[0].data == data@ && old(self)@ == (ClientView {
                    incoming: s.incoming.drop_first(),
                    ..s
                }) ==> #[trigger] handled(
                    step_of(*tick_player),
                    *differs,
                    s,
                    final(self)@,
                    final(events)@.skip(old(events)@.len() as int),
                ),
    {
        let ghost spoken = events@;
        if data.len() > 1 {
            let tag: u8 = data[0];
            if tag == ServerMessage::JoinResult.to_byte() && data.len() >= 4 {
                if data[1] == 1 {
                    let id: u16 = read_u16(data, 2);
                    self.client_id = Some(id);
                    events.push(ClientEvent::Joined { id });
                    assert(events@.skip(spoken.len() as int) =~= seq![ClientEvent::Joined { id }]);
                }
            } else if tag == ServerMessage::State.to_byte() {
                let received: u32 = read_u32(data, 1);
                let actual = PlayerState {
                    x: read_u32(data, 5),
                    y: read_u32(data, 9),
                    facing: read_u32(data, 13),
                    speed: read_u32(data, 17),
                };
                self.read_others(data, events);
                self.target_tick_number = received + PREDICTED_LEAD;
                let ghost grumble = complaints(data@, record_count(data@));
                assert(self@ =~= informed(old(self)@, data@));
                let event = self.reconcile(received, actual, tick_player, differs);
                if let Some(event) = event {
                    events.push(event);
                }
                let ghost log = events@.skip(spoken.len() as int);
                assert(log.take(grumble.len() as int) =~= grumble);
                assert(log.skip(grumble.len() as int) =~= match event {
                    Some(event) => seq![event],
                    None => Seq::empty(),
                });
            }
        }
        assert(events@.take(spoken.len() as int) =~= spoken);
        assert(events@.len() == spoken.len() ==> events@.skip(spoken.len() as int) =~= Seq::<
            ClientEvent,
        >::empty());
    }

    /// Predicts the client's own player up to the target tick, with the keys that are held.
    pub fn predict<F: Fn(PlayerState, PlayerInput) -> PlayerState>(
        &mut self,
        tick_player: &F,
        input: PlayerInput,
    )
        requires
            old(self).wf(),
            forall|state: PlayerState, input: PlayerInput| #[trigger]
                tick_player.requires((state, input)),
        ensures
            final(self).wf(),
            predicted(step_of(*tick_player), input, old(self)@, final(self)@),
    {
        let ghost start = old(self)@;
        let ghost mut path: Seq<PlayerState> = seq![start.local_player];
        assert(noted(start.history, path, input) =~= start.history);
        while self.tick_number < self.target_tick_number
            invariant
                self.wf(),
                forall|state: PlayerState, input: PlayerInput| #[trigger]
                    tick_player.requires((state, input)),
                is_path(step_of(*tick_player), input, path),
                path.len() > 0,
                path.len() <= ticks_due(start) + 1,
                path[0] == start.local_player,
                start.history.len() < MAX_PREDICTED_TICKS,
                self@ == after_path(start, path, input),
                start.tick_number + path.len() - 1 <= u32::MAX,
            decreases self.target_tick_number - self.tick_number,
        {
            self.predict_tick(tick_player, input);
            proof {
                lemma_path_next(
                    step_of(*tick_player),
                    start.history,
                    path,
                    self.local_player,
                    input,
                );
                path = path.push(self.local_player);
            }
        }
    }

    /// Predicts the client's own player one tick further.
    fn predict_tick<F: Fn(PlayerState, PlayerInput) -> PlayerState>(
        &mut self,
        tick_player: &F,
        input: PlayerInput,
    )
        requires
            old(self).wf(),
            old(self)@.tick_number < u32::MAX,
            tick_player.requires((old(self)@.local_player, input)),
        ensures
            final(self).wf(),
            tick_player.ensures((old(self)@.local_player, input), final(self)@.local_player),
            final(self)@ == (ClientView {
                local_player: final(self)@.local_player,
                history: offered(
                    old(self)@.history,
                    MAX_PREDICTED_TICKS as nat,
                    Prediction { state: old(self)@.local_player, input },
                ),
                tick_number: (old(self)@.tick_number + 1) as u32,
                ..old(self)@
            }),
    {
        self.prediction_history.push(Prediction { state: self.local_player, input });
        self.local_player = tick_player(self.local_player, input);
        self.tick_number = self.tick_number + 1;
    }

    /// Places the corners of the quads: four for each slot that is drawn, and the rest at zero.
    ///
    /// `bounds_of` gives, for the place of a player, where the player's quad lies.
    pub fn update_vertices<B: Fn(u32, u32) -> Bounds>(&mut self, bounds_of: &B)
        requires
            old(self).wf(),
            forall|x: u32, y: u32| #[trigger] bounds_of.requires((x, y)),
        ensures
            final(self).wf(),
            final(self)@ == (ClientView { vertices: final(self)@.vertices, ..old(self)@ }),
            is_picture(*bounds_of, old(self)@, final(self)@.vertices),
    {
        let ghost start = old(self)@;
        let own: usize = self.client_id.unwrap_or(0) as usize;
        let mut next: usize = 0;
        let mut i: usize = 0;
        while i < MAX_CLIENTS
            invariant
                self.wf(),
                own == own_slot(start.client_id),
                i <= MAX_CLIENTS,
                self@ == (ClientView { vertices: self@.vertices, ..start }),
                next == 4 * shown_before(start, i as nat),
                shown_before(start, i as nat) <= i,
                forall|x: u32, y: u32| #[trigger] bounds_of.requires((x, y)),
                is_drawn(*bounds_of, start, self@.vertices, i as nat),
            decreases MAX_CLIENTS - i,
        {
            let object: PlayerState = self.objects[i];
            if i == own || i < self.num_objects || (object.x != 0 && object.x != 0x8000_0000) {
                let player: PlayerState = if i == own {
                    self.local_player
                } else {
                    object
                };
                let bounds = bounds_of(player.x, player.y);
                let ghost before = self@.vertices;
                self.place_quad(next, bounds);
                proof {
                    lemma_drawn_kept(*bounds_of, start, before, self@.vertices, i as nat);
                    assert(player == shown_player(start, i as int));
                    assert(is_quad(*bounds_of, player, self@.vertices, next as int));
                }
                next = next + 4;
            }
            proof {
                lemma_drawn_next(*bounds_of, start, self@.vertices, i as nat);
            }
            i = i + 1;
        }
        let ghost placed = next;
        while next < VERTICES
            invariant
                self.wf(),
                self@ == (ClientView { vertices: self@.vertices, ..start }),
                placed == 4 * shown_before(start, MAX_CLIENTS as nat),
                placed <= next <= VERTICES,
                is_drawn(*bounds_of, start, self@.vertices, MAX_CLIENTS as nat),
                forall|v: int|
                    placed <= v < next ==> (#[trigger] self@.vertices[v]).x == 0
                        && self@.vertices[v].y == 0,
            decreases VERTICES - next,
        {
            let ghost before = self@.vertices;
            self.place(next, 0, 0);
            proof {
                lemma_drawn_kept(
                    *bounds_of,
                    start,
                    before,
                    self@.vertices,
                    MAX_CLIENTS as nat,
                );
            }
            next = next + 1;
        }
    }

    /// Places the corners of one quad.
    fn place_quad(&mut self, at: usize, bounds: Bounds)
        requires
            old(self).wf(),
            at + 4 <= VERTICES,
        ensures
            final(self).wf(),
            final(self)@ == (ClientView { vertices: final(self)@.vertices, ..old(self)@ }),
            final(self)@.vertices.len() == VERTICES,
            forall|v: int|
                0 <= v < VERTICES && !(at <= v < at + 4) ==> #[trigger] final(self)@.vertices[v]
                    == old(self)@.vertices[v],
            forall|v: int|
                0 <= v < VERTICES ==> (#[trigger] final(self)@.vertices[v]).color
                    == old(self)@.vertices[v].color,
            ({
                let corners = final(self)@.vertices;
                &&& corners[at as int].x == bounds.low_x && corners[at as int].y == bounds.low_y
                &&& corners[at + 1].x == bounds.low_x && corners[at + 1].y == bounds.high_y
                &&& corners[at + 2].x == bounds.high_x && corners[at + 2].y == bounds.high_y
                &&& corners[at + 3].x == bounds.high_x && corners[at + 3].y == bounds.low_y
            }),
    {
        self.place(at, bounds.low_x, bounds.low_y);
        self.place(at + 1, bounds.low_x, bounds.high_y);
        self.place(at + 2, bounds.high_x, bounds.high_y);
        self.place(at + 3, bounds.high_x, bounds.low_y);
    }

    /// Moves one vertex.
    fn place(&mut self, v: usize, x: u32, y: u32)
        requires
            old(self).wf(),
            v < VERTICES,
        ensures
            final(self).wf(),
            final(self)@ == (ClientView {
                vertices: old(self)@.vertices.update(
                    v as int,
                    Vertex { x, y, color: old(self)@.vertices[v as int].color },
                ),
                ..old(self)@
            }),
    {
        let color: u32 = self.vertices[v].color;
        self.vertices.set(v, Vertex { x, y, color });
    }

    /// Paints every quad on black.
    ///
    /// `project` gives, for the four corners of a quad, the pixels that it takes.
    pub fn render<P: Fn(Vertex, Vertex, Vertex, Vertex) -> ScreenRect>(&mut self, project: &P)
        requires
            old(self).wf(),
            forall|a: Vertex, b: Vertex, c: Vertex, d: Vertex| #[trigger]
                project.requires((a, b, c, d)),
        ensures
            final(self).wf(),
            is_shown_on_screen(*project, old(self)@, final(self)@),
    {
        let mut rects: Vec<ScreenRect> = Vec::new();
        let mut colors: Vec<u32> = Vec::new();
        let mut i: usize = 0;
        while i < VERTICES / 4
            invariant
                self.wf(),
                i <= MAX_CLIENTS,
                forall|a: Vertex, b: Vertex, c: Vertex, d: Vertex| #[trigger]
                    project.requires((a, b, c, d)),
                rects@.len() == i,
                colors@ == quad_colors(self@.vertices).take(i as int),
                is_projected(*project, self@.vertices, rects@),
            decreases MAX_CLIENTS - i,
        {
            let first: Vertex = self.vertices[4 * i];
            rects.push(
                project(
                    first,
                    self.vertices[4 * i + 1],
                    self.vertices[4 * i + 2],
                    self.vertices[4 * i + 3],
                ),
            );
            colors.push(first.color);
            i = i + 1;
            assert(colors@ =~= quad_colors(self@.vertices).take(i as int));
        }
        assert(colors@ =~= quad_colors(self@.vertices));
        paint(&mut self.frame_buffer, &rects, &colors);
    }

    /// Runs one tick: reports the keys that are held, handles the waiting packets, predicts, and
    /// draws what came of it. Returns what there is to tell, in order.
    pub fn run_tick<
        F: Fn(PlayerState, PlayerInput) -> PlayerState,
        D: Fn(PlayerState, PlayerState) -> bool,
        B: Fn(u32, u32) -> Bounds,
        P: Fn(Vertex, Vertex, Vertex, Vertex) -> ScreenRect,
    >(
        &mut self,
        input: PlayerInput,
        now: Instant,
        tick_player: &F,
        differs: &D,
        bounds_of: &B,
        project: &P,
    ) -> (events: Vec<ClientEvent>)
        requires
            old(self).wf(),
            forall|k: int|
                0 <= k < old(self)@.incoming.len() ==> is_readable(
                    (#[trigger] old(self)@.incoming[k]).data,
                ),
            forall|state: PlayerState, input: PlayerInput| #[trigger]
                tick_player.requires((state, input)),
            forall|a: PlayerState, b: PlayerState| #[trigger] differs.requires((a, b)),
            forall|x: u32, y: u32| #[trigger] bounds_of.requires((x, y)),
            forall|a: Vertex, b: Vertex, c: Vertex, d: Vertex| #[trigger]
                project.requires((a, b, c, d)),
        ensures
            final(self).wf(),
            final(self)@.incoming.len() == 0,
            ticked(
                step_of(*tick_player),
                *differs,
                *bounds_of,
                *project,
                input,
                now,
                old(self)@,
                final(self)@,
                events@,
            ),
    {
        self.send_input(input, now);
        let events = self.process_received(tick_player, differs);
        let ghost current = self@;
        self.predict(tick_player, input);
        let ghost ahead = self@;
        self.update_vertices(bounds_of);
        self.render(project);
        proof {
            assert(caught_up(
                step_of(*tick_player),
                *differs,
                reported(old(self)@, input, now),
                current,
                events@,
            ));
            assert(predicted(step_of(*tick_player), input, current, ahead));
        }
        events
    }

    /// Runs one tick as `run_tick` does, in which `tick_player` moves the client's own player with
    /// the given functions.
    pub fn run_tick_by<
        U: Fn(u32) -> u32,
        S: Fn(u32) -> u32,
        L: Fn(u32) -> u32,
        R: Fn(u32) -> u32,
        A: Fn(PlayerState) -> (u32, u32),
        D: Fn(PlayerState, PlayerState) -> bool,
        B: Fn(u32, u32) -> Bounds,
        P: Fn(Vertex, Vertex, Vertex, Vertex) -> ScreenRect,
    >(
        &mut self,
        input: PlayerInput,
        now: Instant,
        speed_up: &U,
        slow_down: &S,
        turn_left: &L,
        turn_right: &R,
        advance: &A,
        differs: &D,
        bounds_of: &B,
        project: &P,
    ) -> (events: Vec<ClientEvent>)
        requires
            old(self).wf(),
            forall|k: int|
                0 <= k < old(self)@.incoming.len() ==> is_readable(
                    (#[trigger] old(self)@.incoming[k]).data,
                ),
            forall|speed: u32| #[trigger] speed_up.requires((speed,)),
            forall|speed: u32| #[trigger] slow_down.requires((speed,)),
            forall|facing: u32| #[trigger] turn_left.requires((facing,)),
            forall|facing: u32| #[trigger] turn_right.requires((facing,)),
            forall|player: PlayerState| #[trigger] advance.requires((player,)),
            forall|a: PlayerState, b: PlayerState| #[trigger] differs.requires((a, b)),
            forall|x: u32, y: u32| #[trigger] bounds_of.requires((x, y)),
            forall|a: Vertex, b: Vertex, c: Vertex, d: Vertex| #[trigger]
                project.requires((a, b, c, d)),
        ensures
            final(self).wf(),
            final(self)@.incoming.len() == 0,
            ticked(
                tick_by(*speed_up, *slow_down, *turn_left, *turn_right, *advance),
                *differs,
                *bounds_of,
                *project,
                input,
                now,
                old(self)@,
                final(self)@,
                events@,
            ),
    {
        let tick = |state: PlayerState, input: PlayerInput| -> (next: PlayerState)
            ensures
                tick_by(*speed_up, *slow_down, *turn_left, *turn_right, *advance)(
                    state,
                    input,
                    next,
                ),
            { moved(state, input, speed_up, slow_down, turn_left, turn_right, advance) };
        let events = self.run_tick(input, now, &tick, differs, bounds_of, project);
        proof {
            lemma_coarser_tick(
                step_of(tick),
                tick_by(*speed_up, *slow_down, *turn_left, *turn_right, *advance),
                *differs,
                *bounds_of,
                *project,
                input,
                now,
                old(self)@,
                self@,
                events@,
            );
        }
        events
    }

    /// The slot that the server gave the client.
    pub fn client_id(&self) -> (id: Option<u16>)
        ensures
            id == self@.client_id,
    {
        self.client_id
    }

    /// The client's own player, as predicted.
    pub fn local_player(&self) -> (player: PlayerState)
        ensures
            player == self@.local_player,
    {
        self.local_player
    }

    /// The player of a slot, as the server last told of it.
    pub fn object(&self, slot: usize) -> (player: PlayerState)
        requires
            self.wf(),
            slot < MAX_CLIENTS,
        ensures
            player == self@.objects[slot as int],
    {
        self.objects[slot]
    }

    /// How many other players the server last told of.
    pub fn num_objects(&self) -> (count: usize)
        ensures
            count == self@.num_objects,
    {
        self.num_objects
    }

    /// The tick up to which the client has predicted.
    pub fn tick_number(&self) -> (tick: u32)
        ensures
            tick == self@.tick_number,
    {
        self.tick_number
    }

    /// The tick up to which the client is to predict.
    pub fn target_tick_number(&self) -> (tick: u32)
        ensures
            tick == self@.target_tick_number,
    {
        self.target_tick_number
    }

    /// How many predictions the client remembers.
    pub fn history_size(&self) -> (size: usize)
        requires
            self.wf(),
        ensures
            size == self@.history.len(),
    {
        self.prediction_history.size()
    }

    /// The prediction at `offset`, counted from the oldest.
    pub fn prediction(&self, offset: usize) -> (prediction: Prediction)
        requires
            self.wf(),
            offset < self@.history.len(),
        ensures
            prediction == self@.history[offset as int],
    {
        *self.prediction_history.peek(offset)
    }

    /// The corners of the quads that are drawn.
    pub fn vertices(&self) -> (vertices: &Vec<Vertex>)
        ensures
            vertices@ == self@.vertices,
    {
        &self.vertices
    }

    /// The colours of the window's pixels, row by row.
    pub fn frame(&self) -> (frame: &Vec<u32>)
        ensures
            frame@ == self@.frame,
    {
        &self.frame_buffer
    }
}

/// Whether a client can read a packet.
fn readable(data: &[u8]) -> (fine: bool)
    ensures
        fine == is_readable(data@),
{
    if data.len() > 1 && data[0] == ServerMessage::State.to_byte() {
        data.len() >= 21 && read_u32(data, 1) <= u32::MAX - PREDICTED_LEAD
    } else {
        true
    }
}

} // verus!
