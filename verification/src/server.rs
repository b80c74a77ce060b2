//! The server: who sits in which slot, what each player asked for, and what is sent out.

use crate::little_endian::{le_bytes, le_value, put_le, read_u16, read_u32};
use crate::packet::{
    at_once, first_bytes, fit_memory, PacketBuffer, PacketView, ReleaseTime, SocketAddress,
    PACKET_SLOTS,
};
use crate::player::{
    at_rest, input_of_byte, moved, no_keys, step_of, tick_by, PlayerInput, PlayerState, Step,
};
use crate::protocol::{
    build_join_reply, full_state, join_reply, other_state, put_full_state, put_other_state,
    ClientMessage, ServerMessage, MAX_CLIENTS,
};
use crate::ring_buffer::offered;
use std::time::Instant;
use vstd::prelude::*;

verus! {

/// The number of ticks for which inputs are kept. Inputs for later ticks take the places of
/// earlier ones.
pub const INPUT_BUFFER_SIZE: usize = 60;

/// Who sits in a slot.
#[derive(Clone, Copy, Debug, PartialEq, Eq, Structural)]
pub struct IpEndpoint {
    pub address: SocketAddress,
}

/// The tick counter of a running server.
#[derive(Clone, Copy, Debug, PartialEq, Eq, Structural)]
pub struct Globals {
    pub tick_number: usize,
}

/// The state of a server.
pub struct ServerContext {
    client_endpoints: Vec<Option<IpEndpoint>>,
    time_since_heard: Vec<u32>,
    client_objects: Vec<PlayerState>,
    input_buffer: Vec<Vec<(PlayerInput, bool)>>,
    send_buffer: PacketBuffer<SocketAddress>,
    recv_buffer: PacketBuffer<SocketAddress>,
}

/// What a server knows.
#[verifier::ext_equal]
pub struct ServerView {
    /// Who sits in each slot.
    pub endpoints: Seq<Option<IpEndpoint>>,
    /// The seconds since each slot was last heard of, each as the bit pattern of a single.
    pub heard: Seq<u32>,
    /// The player of each slot.
    pub objects: Seq<PlayerState>,
    /// For each tick of the input window, the keys of each slot and whether they were reported.
    pub inputs: Seq<Seq<(PlayerInput, bool)>>,
    /// The packets that wait to be sent.
    pub outgoing: Seq<PacketView<SocketAddress>>,
    /// The packets that wait to be handled.
    pub incoming: Seq<PacketView<SocketAddress>>,
}

/// Every table has a row for each slot, no queue is overfull, and every packet fits into memory.
pub open spec fn valid(s: ServerView) -> bool {
    &&& s.endpoints.len() == MAX_CLIENTS
    &&& s.heard.len() == MAX_CLIENTS
    &&& s.objects.len() == MAX_CLIENTS
    &&& s.inputs.len() == INPUT_BUFFER_SIZE
    &&& forall|t: int| 0 <= t < INPUT_BUFFER_SIZE ==> (#[trigger] s.inputs[t]).len() == MAX_CLIENTS
    &&& s.outgoing.len() < PACKET_SLOTS
    &&& s.incoming.len() < PACKET_SLOTS
    &&& fit_memory(s.outgoing)
    &&& fit_memory(s.incoming)
}

/// A server that nobody has spoken to yet.
pub open spec fn fresh() -> ServerView {
    ServerView {
        endpoints: Seq::new(MAX_CLIENTS as nat, |i: int| None),
        heard: Seq::new(MAX_CLIENTS as nat, |i: int| 0u32),
        objects: Seq::new(MAX_CLIENTS as nat, |i: int| at_rest()),
        inputs: Seq::new(
            INPUT_BUFFER_SIZE as nat,
            |t: int| Seq::new(MAX_CLIENTS as nat, |i: int| (no_keys(), false)),
        ),
        outgoing: Seq::empty(),
        incoming: Seq::empty(),
    }
}

/// `k` is the lowest slot that nobody sits in.
pub open spec fn is_first_free(endpoints: Seq<Option<IpEndpoint>>, k: int) -> bool {
    &&& 0 <= k < endpoints.len()
    &&& endpoints[k] is None
    &&& forall|j: int| 0 <= j < k ==> (#[trigger] endpoints[j]) is Some
}

/// The lowest slot that nobody sits in; `None` if every slot is taken.
pub open spec fn free_slot(endpoints: Seq<Option<IpEndpoint>>) -> Option<int> {
    if exists|k: int| is_first_free(endpoints, k) {
        Some(choose|k: int| is_first_free(endpoints, k))
    } else {
        None
    }
}

/// There is at most one lowest free slot.
pub proof fn lemma_free_slot(endpoints: Seq<Option<IpEndpoint>>, k: int)
    requires
        is_first_free(endpoints, k),
    ensures
        free_slot(endpoints) == Some(k),
{
    let c = choose|k: int| is_first_free(endpoints, k);
    if c < k {
        assert(endpoints[c] is Some);
    } else if k < c {
        assert(endpoints[k] is Some);
    }
}

/// Whether the sender at `from` sits in `slot`.
pub open spec fn owns(endpoints: Seq<Option<IpEndpoint>>, slot: int, from: SocketAddress) -> bool {
    0 <= slot < MAX_CLIENTS && endpoints[slot] == Some(IpEndpoint { address: from })
}

/// Whether a packet asks for a slot.
pub open spec fn asks_to_join(data: Seq<u8>) -> bool {
    data.len() > 0 && data[0] == ClientMessage::Join.tag()
}

/// Whether a packet is long enough to be read as a record of held keys. A farewell is read as
/// such a record too: it frees no slot.
pub open spec fn is_record(data: Seq<u8>) -> bool {
    &&& data.len() > 0
    &&& (data[0] == ClientMessage::Leave.tag() && data.len() >= 3) || (data[0]
        == ClientMessage::Input.tag() && data.len() >= 7)
}

/// The slot that a record names.
pub open spec fn record_slot(data: Seq<u8>) -> int {
    le_value(data.subrange(1, 3)) as int
}

/// The row of the input window that a record belongs to.
pub open spec fn record_row(data: Seq<u8>) -> int {
    le_value(data.subrange(3, 7)) as int % INPUT_BUFFER_SIZE as int
}

/// Whether a packet is a record by the player of the slot that it names.
pub open spec fn is_own_record(
    endpoints: Seq<Option<IpEndpoint>>,
    data: Seq<u8>,
    from: SocketAddress,
) -> bool {
    is_record(data) && owns(endpoints, record_slot(data), from)
}

/// Whether a packet is a record by the player of the slot that it names, but stops before the
/// held keys. The server has no answer to such a packet.
pub open spec fn is_cut_short(
    endpoints: Seq<Option<IpEndpoint>>,
    data: Seq<u8>,
    from: SocketAddress,
) -> bool {
    is_own_record(endpoints, data, from) && data.len() < 8
}

/// Who sits where after a packet was handled.
pub open spec fn seated(
    endpoints: Seq<Option<IpEndpoint>>,
    data: Seq<u8>,
    from: SocketAddress,
) -> Seq<Option<IpEndpoint>> {
    match free_slot(endpoints) {
        Some(k) if asks_to_join(data) => endpoints.update(k, Some(IpEndpoint { address: from })),
        _ => endpoints,
    }
}

/// The slot that a packet won for its sender, if it won one.
pub open spec fn newcomers(
    endpoints: Seq<Option<IpEndpoint>>,
    data: Seq<u8>,
    from: SocketAddress,
) -> Seq<(usize, SocketAddress)> {
    match free_slot(endpoints) {
        Some(k) if asks_to_join(data) => seq![(k as usize, from)],
        _ => Seq::empty(),
    }
}

/// What handling one packet makes of the server.
///
/// A request to join takes the lowest free slot, puts a player at rest there and queues an
/// answer; without a free slot nothing happens. A record by the player of the slot that it names
/// is entered for its tick. Anything else changes nothing.
pub open spec fn handled(
    s: ServerView,
    data: Seq<u8>,
    from: SocketAddress,
    now: Instant,
) -> ServerView {
    if asks_to_join(data) {
        match free_slot(s.endpoints) {
            Some(k) => ServerView {
                endpoints: seated(s.endpoints, data, from),
                heard: s.heard.update(k, 0u32),
                objects: s.objects.update(k, at_rest()),
                outgoing: offered(
                    s.outgoing,
                    PACKET_SLOTS as nat,
                    PacketView { data: join_reply(k as u16), endpoint: from, release_time: at_once(now) },
                ),
                ..s
            },
            None => s,
        }
    } else if is_own_record(s.endpoints, data, from) {
        let slot = record_slot(data);
        let row = record_row(data);
        ServerView {
            heard: s.heard.update(slot, 0u32),
            inputs: s.inputs.update(row, s.inputs[row].update(slot, (input_of_byte(data[7]), true))),
            ..s
        }
    } else {
        s
    }
}

/// What handling every waiting packet, oldest first, makes of the server, and the newcomers in
/// the order in which they came.
pub open spec fn processed(s: ServerView, now: Instant) -> (ServerView, Seq<(usize, SocketAddress)>)
    decreases s.incoming.len(),
{
    if s.incoming.len() == 0 {
        (s, Seq::empty())
    } else {
        let packet = s.incoming[0];
        let rest = ServerView { incoming: s.incoming.drop_first(), ..s };
        let (end, log) = processed(handled(rest, packet.data, packet.endpoint, now), now);
        (end, newcomers(s.endpoints, packet.data, packet.endpoint) + log)
    }
}

/// Whether a packet waits, and the oldest one is one that the server can answer.
pub open spec fn is_next_processable(s: ServerView) -> bool {
    s.incoming.len() > 0 && !is_cut_short(
        s.endpoints,
        s.incoming[0].data,
        s.incoming[0].endpoint,
    )
}

/// Whether every one of the waiting packets, handled in turn, is one that the server can answer.
pub open spec fn processable(
    endpoints: Seq<Option<IpEndpoint>>,
    queue: Seq<PacketView<SocketAddress>>,
) -> bool
    decreases queue.len(),
{
    queue.len() > 0 ==> {
        &&& !is_cut_short(endpoints, queue[0].data, queue[0].endpoint)
        &&& processable(seated(endpoints, queue[0].data, queue[0].endpoint), queue.drop_first())
    }
}

/// `after` are the players of `s` one tick later: each player whose slot is taken and whose keys
/// `row` holds was moved by `step`, and no other.
pub open spec fn simulated(
    step: Step,
    endpoints: Seq<Option<IpEndpoint>>,
    row: Seq<(PlayerInput, bool)>,
    before: Seq<PlayerState>,
    after: Seq<PlayerState>,
) -> bool {
    &&& after.len() == before.len()
    &&& forall|i: int|
        #![trigger after[i]]
        0 <= i < after.len() ==> if endpoints[i] is Some && row[i].1 {
            step(before[i], row[i].0, after[i])
        } else {
            after[i] == before[i]
        }
}

/// The number of bytes of a machine word, in which the server writes its tick counter.
pub open spec fn word_bytes() -> nat {
    (usize::BITS / 8) as nat
}

/// What the player of slot `i` is told of the players of the first `n` slots.
pub open spec fn others(
    endpoints: Seq<Option<IpEndpoint>>,
    objects: Seq<PlayerState>,
    i: int,
    n: nat,
) -> Seq<u8>
    decreases n,
{
    if n == 0 {
        Seq::empty()
    } else {
        let j = n - 1;
        let before = others(endpoints, objects, i, j as nat);
        if j != i && endpoints[j] is Some {
            before + other_state(j as u16, objects[j])
        } else {
            before
        }
    }
}

/// What the player of slot `i` is told each tick.
pub open spec fn state_message(
    endpoints: Seq<Option<IpEndpoint>>,
    objects: Seq<PlayerState>,
    tick: nat,
    i: int,
) -> Seq<u8> {
    seq![ServerMessage::State.tag()] + le_bytes(tick, word_bytes()) + full_state(objects[i])
        + others(endpoints, objects, i, MAX_CLIENTS as nat)
}

/// The packets that wait to be sent after the players of the first `n` slots were told the state
/// of the game.
pub open spec fn announced(s: ServerView, tick: nat, now: Instant, n: nat) -> Seq<
    PacketView<SocketAddress>,
>
    decreases n,
{
    if n == 0 {
        s.outgoing
    } else {
        let i = n - 1;
        let before = announced(s, tick, now, i as nat);
        match s.endpoints[i] {
            Some(endpoint) => offered(
                before,
                PACKET_SLOTS as nat,
                PacketView {
                    data: state_message(s.endpoints, s.objects, tick, i),
                    endpoint: endpoint.address,
                    release_time: at_once(now),
                },
            ),
            None => before,
        }
    }
}

/// The row of the input window that a tick plays, which starts with the counter at `counter`.
pub open spec fn played_row(counter: nat) -> int {
    counter as int % INPUT_BUFFER_SIZE as int
}

/// The number that such a tick writes into the states it sends.
pub open spec fn written_tick(counter: nat) -> nat {
    counter + 1
}

/// The counter after such a tick.
pub open spec fn next_counter(counter: nat) -> nat {
    counter + 2
}

/// What a tick that starts with the counter at `counter` makes of the server: the waiting packets
/// are handled, the players are moved by the keys of the row that is played, and the state of the
/// game is queued for every player. `log` are the newcomers.
pub open spec fn ticked(
    step: Step,
    counter: nat,
    now: Instant,
    s: ServerView,
    t: ServerView,
    log: Seq<(usize, SocketAddress)>,
) -> bool {
    let start = processed(s, now).0;
    let moved = ServerView { objects: t.objects, ..start };
    &&& log == processed(s, now).1
    &&& simulated(
        step,
        start.endpoints,
        start.inputs[played_row(counter)],
        start.objects,
        t.objects,
    )
    &&& t == (ServerView {
        outgoing: announced(moved, written_tick(counter), now, MAX_CLIENTS as nat),
        ..moved
    })
}

/// The lowest free slot, if there is one.
fn find_free_slot(endpoints: &Vec<Option<IpEndpoint>>) -> (slot: Option<usize>)
    ensures
        match slot {
            Some(k) => k < endpoints@.len() && free_slot(endpoints@) == Some(k as int),
            None => free_slot(endpoints@) is None,
        },
{
    let mut k: usize = 0;
    while k < endpoints.len()
        invariant
            k <= endpoints@.len(),
            forall|j: int| 0 <= j < k ==> (#[trigger] endpoints@[j]) is Some,
        decreases endpoints@.len() - k,
    {
        if endpoints[k].is_none() {
            proof {
                lemma_free_slot(endpoints@, k as int);
            }
            return Some(k);
        }
        k = k + 1;
    }
    None
}

/// Whether the sender at `from` sits in `slot`.
fn sits_in(endpoints: &Vec<Option<IpEndpoint>>, slot: usize, from: SocketAddress) -> (sits: bool)
    requires
        endpoints@.len() == MAX_CLIENTS,
    ensures
        sits == owns(endpoints@, slot as int, from),
{
    if slot < MAX_CLIENTS {
        match endpoints[slot] {
            Some(endpoint) => endpoint.address == from,
            None => false,
        }
    } else {
        false
    }
}

/// Whether a packet is a record of held keys that stops before the keys, by the player of the
/// slot that it names.
fn cut_short(endpoints: &Vec<Option<IpEndpoint>>, data: &[u8], from: SocketAddress) -> (cut: bool)
    requires
        endpoints@.len() == MAX_CLIENTS,
    ensures
        cut == is_cut_short(endpoints@, data@, from),
{
    if data.len() == 0 || data.len() >= 8 {
        return false;
    }
    let tag: u8 = data[0];
    let record = (tag == ClientMessage::Leave.to_byte() && data.len() >= 3) || (tag
        == ClientMessage::Input.to_byte() && data.len() >= 7);
    record && sits_in(endpoints, read_u16(data, 1) as usize, from)
}

impl View for ServerContext {
    type V = ServerView;

    closed spec fn view(&self) -> ServerView {
        ServerView {
            endpoints: self.client_endpoints@,
            heard: self.time_since_heard@,
            objects: self.client_objects@,
            inputs: self.input_buffer@.map_values(|row: Vec<(PlayerInput, bool)>| row@),
            outgoing: self.send_buffer@,
            incoming: self.recv_buffer@,
        }
    }
}

impl ServerContext {
    /// The tables have a row for each slot, and the queues are in order.
    pub closed spec fn wf(&self) -> bool {
        &&& self.send_buffer.wf()
        &&& self.recv_buffer.wf()
        &&& valid(self@)
    }

    /// Every state of a server is a valid one.
    pub proof fn law_valid(&self)
        requires
            self.wf(),
        ensures
            valid(self@),
    {
    }

    /// A server that nobody has spoken to yet.
    pub fn new() -> (context: Self)
        ensures
            context.wf(),
            context@ == fresh(),
    {
        let context = ServerContext {
            client_endpoints: vec![None; MAX_CLIENTS],
            time_since_heard: vec![0; MAX_CLIENTS],
            client_objects: vec![PlayerState::default(); MAX_CLIENTS],
            input_buffer: blank_window(),
            send_buffer: PacketBuffer::new(),
            recv_buffer: PacketBuffer::new(),
        };
        assert(context@.endpoints =~= fresh().endpoints);
        assert(context@.heard =~= fresh().heard);
        assert(context@.objects =~= fresh().objects);
        assert(context@.inputs =~= fresh().inputs);
        context
    }

    /// Handles one packet. Returns the slot that it won for its sender, if it won one.
    fn handle_packet(&mut self, data: &[u8], from: SocketAddress, now: Instant) -> (joined: Option<usize>)
        requires
            old(self).wf(),
            !is_cut_short(old(self)@.endpoints, data@, from),
        ensures
            final(self).wf(),
            final(self)@ == handled(old(self)@, data@, from, now),
            newcomers(old(self)@.endpoints, data@, from) == match joined {
                Some(slot) => seq![(slot, from)],
                None => Seq::empty(),
            },
    {
        if data.len() == 0 {
            return None;
        }
        let tag: u8 = data[0];
        if tag == ClientMessage::Join.to_byte() {
            let slot = find_free_slot(&self.client_endpoints);
            if let Some(k) = slot {
                self.send_buffer.push(
                    build_join_reply(k as u16),
                    from,
                    ReleaseTime { since: now, delay_nanos: 0 },
                );
                self.client_endpoints.set(k, Some(IpEndpoint { address: from }));
                self.time_since_heard.set(k, 0);
                self.client_objects.set(k, PlayerState::default());
                proof {
                    self.send_buffer.law_bounded();
                }
                assert(self@ =~= handled(old(self)@, data@, from, now));
            }
            slot
        } else {
            if (tag == ClientMessage::Leave.to_byte() && data.len() >= 3) || (tag
                == ClientMessage::Input.to_byte() && data.len() >= 7) {
                self.handle_record(data, from);
            }
            None
        }
    }

    /// Enters a record of held keys, if its sender sits in the slot that it names.
    fn handle_record(&mut self, data: &[u8], from: SocketAddress)
        requires
            old(self).wf(),
            is_record(data@),
            !asks_to_join(data@),
            !is_cut_short(old(self)@.endpoints, data@, from),
        ensures
            final(self).wf(),
            forall|now: Instant| final(self)@ == #[trigger] handled(old(self)@, data@, from, now),
    {
        let slot: usize = read_u16(data, 1) as usize;
        if sits_in(&self.client_endpoints, slot, from) {
            let input_tick: u32 = read_u32(data, 3);
            let row: usize = (input_tick % INPUT_BUFFER_SIZE as u32) as usize;
            let input = PlayerInput::from_byte(data[7]);
            assert(self@.inputs[row as int].len() == MAX_CLIENTS);
            self.input_buffer[row][slot] = (input, true);
            self.time_since_heard.set(slot, 0);
            assert(self@.inputs =~= old(self)@.inputs.update(
                row as int,
                old(self)@.inputs[row as int].update(slot as int, (input, true)),
            ));
        }
    }

    /// Handles every waiting packet, oldest first. Returns who was given a slot, in order.
    pub fn process(&mut self, now: Instant) -> (joined: Vec<(usize, SocketAddress)>)
        requires
            old(self).wf(),
            processable(old(self)@.endpoints, old(self)@.incoming),
        ensures
            final(self).wf(),
            (final(self)@, joined@) == processed(old(self)@, now),
            final(self)@.incoming.len() == 0,
    {
        let mut joined: Vec<(usize, SocketAddress)> = Vec::new();
        while self.recv_buffer.size() > 0
            invariant
                self.wf(),
                processable(self@.endpoints, self@.incoming),
                processed(old(self)@, now) == (
                    processed(self@, now).0,
                    joined@ + processed(self@, now).1,
                ),
            decreases self@.incoming.len(),
        {
            let ghost before = self@;
            let ghost log = joined@;
            let ghost won = newcomers(
                before.endpoints,
                before.incoming[0].data,
                before.incoming[0].endpoint,
            );
            if let Some(newcomer) = self.process_next(now) {
                joined.push(newcomer);
            }
            assert(joined@ =~= log + won);
            assert(joined@ + processed(self@, now).1 =~= log + (won + processed(self@, now).1));
        }
        assert(joined@ + Seq::<(usize, SocketAddress)>::empty() =~= joined@);
        joined
    }

    /// Handles the oldest waiting packet. Returns who was given a slot, if anybody was.
    pub fn process_next(&mut self, now: Instant) -> (joined: Option<(usize, SocketAddress)>)
        requires
            old(self).wf(),
            is_next_processable(old(self)@),
        ensures
            final(self).wf(),
            ({
                let packet = old(self)@.incoming[0];
                let rest = ServerView { incoming: old(self)@.incoming.drop_first(), ..old(self)@ };
                &&& final(self)@ == handled(rest, packet.data, packet.endpoint, now)
                &&& newcomers(old(self)@.endpoints, packet.data, packet.endpoint) == match joined {
                    Some(newcomer) => seq![newcomer],
                    None => Seq::empty(),
                }
            }),
    {
        let ghost before = self@;
        match self.recv_buffer.pop() {
            None => None,
            Some((data, from)) => {
                assert(self@ =~= ServerView { incoming: before.incoming.drop_first(), ..before });
                match self.handle_packet(data.as_slice(), from, now) {
                    Some(slot) => Some((slot, from)),
                    None => None,
                }
            },
        }
    }

    /// Whether a packet waits, and the server can answer the oldest one. `process_next` may be
    /// called only then.
    pub fn can_process_next(&self) -> (ready: bool)
        requires
            self.wf(),
        ensures
            ready == is_next_processable(self@),
    {
        if self.recv_buffer.size() == 0 {
            return false;
        }
        let packet = self.recv_buffer.peek(0);
        !cut_short(&self.client_endpoints, packet.data.as_slice(), packet.endpoint)
    }

    /// Whether the server can answer every waiting packet. `process` may be called only then.
    pub fn can_process(&self) -> (ready: bool)
        requires
            self.wf(),
        ensures
            ready == processable(self@.endpoints, self@.incoming),
    {
        let mut endpoints = self.client_endpoints.clone();
        let count: usize = self.recv_buffer.size();
        let mut k: usize = 0;
        assert(endpoints@ =~= self@.endpoints);
        assert(self@.incoming.skip(0) =~= self@.incoming);
        while k < count
            invariant
                self.wf(),
                k <= count == self@.incoming.len(),
                endpoints@.len() == MAX_CLIENTS,
                processable(self@.endpoints, self@.incoming) == processable(
                    endpoints@,
                    self@.incoming.skip(k as int),
                ),
            decreases count - k,
        {
            let packet = self.recv_buffer.peek(k);
            assert(self@.incoming.skip(k as int).drop_first() =~= self@.incoming.skip(k + 1));
            if cut_short(&endpoints, packet.data.as_slice(), packet.endpoint) {
                return false;
            }
            if packet.data.len() > 0 && packet.data[0] == ClientMessage::Join.to_byte() {
                if let Some(slot) = find_free_slot(&endpoints) {
                    endpoints.set(slot, Some(IpEndpoint { address: packet.endpoint }));
                }
            }
            k = k + 1;
        }
        true
    }

    /// Moves every player whose keys were reported for the given row of the input window.
    pub fn simulate<F: Fn(PlayerState, PlayerInput) -> PlayerState>(
        &mut self,
        row: usize,
        tick_player: &F,
    )
        requires
            old(self).wf(),
            row < INPUT_BUFFER_SIZE,
            forall|state: PlayerState, input: PlayerInput| #[trigger]
                tick_player.requires((state, input)),
        ensures
            final(self).wf(),
            final(self)@ == (ServerView { objects: final(self)@.objects, ..old(self)@ }),
            simulated(
                step_of(*tick_player),
                old(self)@.endpoints,
                old(self)@.inputs[row as int],
                old(self)@.objects,
                final(self)@.objects,
            ),
    {
        let mut i: usize = 0;
        while i < MAX_CLIENTS
            invariant
                self.wf(),
                i <= MAX_CLIENTS,
                row < INPUT_BUFFER_SIZE,
                forall|state: PlayerState, input: PlayerInput| #[trigger]
                    tick_player.requires((state, input)),
                valid(old(self)@),
                self@ == (ServerView { objects: self@.objects, ..old(self)@ }),
                forall|j: int|
                    #![trigger self@.objects[j]]
                    0 <= j < i ==> if old(self)@.endpoints[j] is Some
                        && old(self)@.inputs[row as int][j].1 {
                        tick_player.ensures(
                            (old(self)@.objects[j], old(self)@.inputs[row as int][j].0),
                            self@.objects[j],
                        )
                    } else {
                        self@.objects[j] == old(self)@.objects[j]
                    },
                forall|j: int| i <= j < MAX_CLIENTS ==> self@.objects[j] == old(self)@.objects[j],
            decreases MAX_CLIENTS - i,
        {
            if self.client_endpoints[i].is_some() {
                assert(self@.inputs[row as int].len() == MAX_CLIENTS);
                let (input, has_input) = self.input_buffer[row][i];
                if has_input {
                    let moved = tick_player(self.client_objects[i], input);
                    self.client_objects.set(i, moved);
                }
            }
            i = i + 1;
        }
    }

    /// Writes what the player of slot `i` is told.
    fn build_state(&self, tick: usize, i: usize) -> (data: Vec<u8>)
        requires
            self.wf(),
            i < MAX_CLIENTS,
        ensures
            data@ == state_message(self@.endpoints, self@.objects, tick as nat, i as int),
    {
        let mut data: Vec<u8> = Vec::new();
        data.push(ServerMessage::State.to_byte());
        put_le(&mut data, tick as u64, (usize::BITS / 8) as usize);
        put_full_state(&mut data, self.client_objects[i]);
        let ghost head = data@;
        assert(head =~= seq![ServerMessage::State.tag()] + le_bytes(tick as nat, word_bytes())
            + full_state(self@.objects[i as int]));
        assert(head + others(self@.endpoints, self@.objects, i as int, 0) =~= head);
        let mut j: usize = 0;
        while j < MAX_CLIENTS
            invariant
                self.wf(),
                i < MAX_CLIENTS,
                j <= MAX_CLIENTS,
                data@ == head + others(self@.endpoints, self@.objects, i as int, j as nat),
            decreases MAX_CLIENTS - j,
        {
            let ghost before = others(self@.endpoints, self@.objects, i as int, j as nat);
            if i != j && self.client_endpoints[j].is_some() {
                put_other_state(&mut data, j as u16, self.client_objects[j]);
                assert(data@ =~= head + (before + other_state(j as u16, self@.objects[j as int])));
            }
            j = j + 1;
        }
        data
    }

    /// Queues the state of the game for every player.
    pub fn announce(&mut self, tick: usize, now: Instant)
        requires
            old(self).wf(),
        ensures
            final(self).wf(),
            final(self)@ == (ServerView {
                outgoing: announced(old(self)@, tick as nat, now, MAX_CLIENTS as nat),
                ..old(self)@
            }),
    {
        let mut i: usize = 0;
        while i < MAX_CLIENTS
            invariant
                self.wf(),
                i <= MAX_CLIENTS,
                self@ == (ServerView {
                    outgoing: announced(old(self)@, tick as nat, now, i as nat),
                    ..old(self)@
                }),
            decreases MAX_CLIENTS - i,
        {
            if let Some(endpoint) = self.client_endpoints[i] {
                let data = self.build_state(tick, i);
                let release_time = ReleaseTime { since: now, delay_nanos: 0 };
                self.send_buffer.push(data, endpoint.address, release_time);
                proof {
                    self.send_buffer.law_bounded();
                }
            }
            i = i + 1;
        }
    }

    /// Runs one tick: handles the waiting packets, moves the players by the keys that were
    /// reported for this tick, and queues the state of the game for every player. The counter
    /// moves on by one before the state is written and by one more after it.
    pub fn run_tick<F: Fn(PlayerState, PlayerInput) -> PlayerState>(
        &mut self,
        globals: &mut Globals,
        tick_player: &F,
        now: Instant,
    ) -> (joined: Vec<(usize, SocketAddress)>)
        requires
            old(self).wf(),
            processable(old(self)@.endpoints, old(self)@.incoming),
            old(globals).tick_number + 2 <= usize::MAX,
            forall|state: PlayerState, input: PlayerInput| #[trigger]
                tick_player.requires((state, input)),
        ensures
            final(self).wf(),
            final(globals).tick_number == next_counter(old(globals).tick_number as nat),
            ticked(
                step_of(*tick_player),
                old(globals).tick_number as nat,
                now,
                old(self)@,
                final(self)@,
                joined@,
            ),
    {
        let joined = self.process(now);
        let row: usize = globals.tick_number % INPUT_BUFFER_SIZE;
        globals.tick_number = globals.tick_number + 1;
        self.simulate(row, tick_player);
        self.announce(globals.tick_number, now);
        globals.tick_number = globals.tick_number + 1;
        joined
    }

    /// Runs one tick as `run_tick` does, in which `tick_player` moves the players with the given
    /// functions.
    pub fn run_tick_by<
        U: Fn(u32) -> u32,
        D: Fn(u32) -> u32,
        L: Fn(u32) -> u32,
        R: Fn(u32) -> u32,
        A: Fn(PlayerState) -> (u32, u32),
    >(
        &mut self,
        globals: &mut Globals,
        speed_up: &U,
        slow_down: &D,
        turn_left: &L,
        turn_right: &R,
        advance: &A,
        now: Instant,
    ) -> (joined: Vec<(usize, SocketAddress)>)
        requires
            old(self).wf(),
            processable(old(self)@.endpoints, old(self)@.incoming),
            old(globals).tick_number + 2 <= usize::MAX,
            forall|speed: u32| #[trigger] speed_up.requires((speed,)),
            forall|speed: u32| #[trigger] slow_down.requires((speed,)),
            forall|facing: u32| #[trigger] turn_left.requires((facing,)),
            forall|facing: u32| #[trigger] turn_right.requires((facing,)),
            forall|player: PlayerState| #[trigger] advance.requires((player,)),
        ensures
            final(self).wf(),
            final(globals).tick_number == next_counter(old(globals).tick_number as nat),
            ticked(
                tick_by(*speed_up, *slow_down, *turn_left, *turn_right, *advance),
                old(globals).tick_number as nat,
                now,
                old(self)@,
                final(self)@,
                joined@,
            ),
    {
        let tick = |state: PlayerState, input: PlayerInput| -> (next: PlayerState)
            ensures
                tick_by(*speed_up, *slow_down, *turn_left, *turn_right, *advance)(
                    state,
                    input,
                    next,
                ),
            { moved(state, input, speed_up, slow_down, turn_left, turn_right, advance) };
        self.run_tick(globals, &tick, now)
    }

    /// Takes the oldest packet that waits to be sent: its bytes and where they go.
    pub fn next_outgoing(&mut self) -> (packet: Option<(Vec<u8>, SocketAddress)>)
        requires
            old(self).wf(),
        ensures
            final(self).wf(),
            match packet {
                None => old(self)@.outgoing.len() == 0 && final(self)@ == old(self)@,
                Some((data, address)) => {
                    &&& old(self)@.outgoing.len() > 0
                    &&& data@ == old(self)@.outgoing[0].data
                    &&& address == old(self)@.outgoing[0].endpoint
                    &&& final(self)@ == (ServerView {
                        outgoing: old(self)@.outgoing.drop_first(),
                        ..old(self)@
                    })
                },
            },
    {
        self.send_buffer.pop()
    }

    /// Who sits in a slot.
    pub fn endpoint(&self, slot: usize) -> (endpoint: Option<IpEndpoint>)
        requires
            self.wf(),
            slot < MAX_CLIENTS,
        ensures
            endpoint == self@.endpoints[slot as int],
    {
        self.client_endpoints[slot]
    }

    /// The player of a slot.
    pub fn object(&self, slot: usize) -> (player: PlayerState)
        requires
            self.wf(),
            slot < MAX_CLIENTS,
        ensures
            player == self@.objects[slot as int],
    {
        self.client_objects[slot]
    }

    /// The keys of a slot in a row of the input window, and whether they were reported.
    pub fn input(&self, row: usize, slot: usize) -> (entry: (PlayerInput, bool))
        requires
            self.wf(),
            row < INPUT_BUFFER_SIZE,
            slot < MAX_CLIENTS,
        ensures
            entry == self@.inputs[row as int][slot as int],
    {
        assert(self@.inputs[row as int].len() == MAX_CLIENTS);
        self.input_buffer[row][slot]
    }

    /// Queues the first `bytes_received` bytes of `raw` as a packet from `from`.
    pub fn receive(&mut self, raw: &[u8], bytes_received: usize, from: SocketAddress, now: Instant)
        requires
            old(self).wf(),
            bytes_received <= raw@.len(),
        ensures
            final(self).wf(),
            final(self)@ == (ServerView {
                incoming: offered(
                    old(self)@.incoming,
                    PACKET_SLOTS as nat,
                    PacketView {
                        data: raw@.take(bytes_received as int),
                        endpoint: from,
                        release_time: at_once(now),
                    },
                ),
                ..old(self)@
            }),
    {
        let data = first_bytes(raw, bytes_received);
        self.recv_buffer.push(data, from, ReleaseTime { since: now, delay_nanos: 0 });
        proof {
            self.recv_buffer.law_bounded();
        }
    }
}

/// An input window in which nothing was reported.
fn blank_window() -> (window: Vec<Vec<(PlayerInput, bool)>>)
    ensures
        window@.map_values(|row: Vec<(PlayerInput, bool)>| row@) == fresh().inputs,
{
    let mut window: Vec<Vec<(PlayerInput, bool)>> = Vec::new();
    while window.len() < INPUT_BUFFER_SIZE
        invariant
            window@.len() <= INPUT_BUFFER_SIZE,
            forall|t: int| 0 <= t < window@.len() ==> (#[trigger] window@[t])@ == fresh().inputs[t],
        decreases INPUT_BUFFER_SIZE - window@.len(),
    {
        let mut row: Vec<(PlayerInput, bool)> = Vec::new();
        while row.len() < MAX_CLIENTS
            invariant
                row@.len() <= MAX_CLIENTS,
                forall|i: int| 0 <= i < row@.len() ==> #[trigger] row@[i] == (no_keys(), false),
            decreases MAX_CLIENTS - row@.len(),
        {
            row.push((PlayerInput::default(), false));
        }
        assert(row@ =~= fresh().inputs[0]);
        window.push(row);
    }
    assert(window@.map_values(|row: Vec<(PlayerInput, bool)>| row@) =~= fresh().inputs);
    window
}

} // verus!
