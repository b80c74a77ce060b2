//! Packets, where they go to or come from, and the bounded queues that hold them.

use crate::ring_buffer::{offered, RingBuffer};
use std::time::Instant;
use vstd::prelude::*;

verus! {

/// The number of slots of a packet queue: the ticks in a fifth of a second, cut to a whole
/// number, and two more. The tick length in single precision lies above a sixtieth of a second,
/// so that eleven whole ticks fit.
pub const PACKET_SLOTS: usize = 13;

/// The address of one end of a conversation.
#[derive(Clone, Copy, Debug, PartialEq, Eq, Structural)]
pub enum SocketAddress {
    V4 { ipv4: u32, port: u16 },
    V6 { ipv6: u128, port: u16, flowinfo: u32, scope_id: u32 },
}

impl View for SocketAddress {
    type V = SocketAddress;

    open spec fn view(&self) -> SocketAddress {
        *self
    }
}

impl Default for SocketAddress {
    /// The loopback address 127.0.0.1, port 0.
    fn default() -> (address: Self)
        ensures
            address == (SocketAddress::V4 { ipv4: 0x7f00_0001, port: 0 }),
    {
        SocketAddress::V4 { ipv4: 0x7f00_0001, port: 0 }
    }
}

/// A moment of the machine's steady clock.
#[verifier::external_type_specification]
#[verifier::external_body]
pub struct ExInstant(std::time::Instant);

/// `Instant::now` gives the present moment. As it rests on the time, nothing is claimed of it.
pub assume_specification[ std::time::Instant::now ]() -> (now: std::time::Instant);

/// The moment `delay_nanos` nanoseconds after `since`.
#[derive(Clone, Copy, Debug, PartialEq, Eq)]
pub struct ReleaseTime {
    pub since: Instant,
    pub delay_nanos: u64,
}

/// The moment `now` itself.
pub open spec fn at_once(now: Instant) -> ReleaseTime {
    ReleaseTime { since: now, delay_nanos: 0 }
}

/// Bytes, the other end, and the release time. The release time is only noted down: a queue hands
/// its packets out at any time.
#[derive(Debug)]
pub struct Packet<E> {
    pub data: Vec<u8>,
    pub endpoint: E,
    pub release_time: ReleaseTime,
}

/// What a packet holds.
#[verifier::ext_equal]
pub struct PacketView<V> {
    pub data: Seq<u8>,
    pub endpoint: V,
    pub release_time: ReleaseTime,
}

/// Whether the bytes of every queued packet fit into memory.
pub open spec fn fit_memory<V>(queue: Seq<PacketView<V>>) -> bool {
    forall|k: int| 0 <= k < queue.len() ==> (#[trigger] queue[k]).data.len() <= usize::MAX
}

impl<E: View> View for Packet<E> {
    type V = PacketView<E::V>;

    open spec fn view(&self) -> PacketView<E::V> {
        PacketView { data: self.data@, endpoint: self.endpoint@, release_time: self.release_time }
    }
}

impl<E: Clone> Clone for Packet<E> {
    fn clone(&self) -> (packet: Self)
        ensures
            packet.data@ == self.data@,
            cloned::<E>(self.endpoint, packet.endpoint),
            packet.release_time == self.release_time,
    {
        let data = self.data.clone();
        assert(data@ =~= self.data@);
        Packet { data, endpoint: self.endpoint.clone(), release_time: self.release_time }
    }
}

impl<E: Default> Default for Packet<E> {
    /// A packet without bytes, such as a free slot of a queue holds. Its release time is the
    /// present moment, whatever that is.
    fn default() -> (packet: Self)
        ensures
            packet.data@ == Seq::<u8>::empty(),
            E::default.ensures((), packet.endpoint),
            Instant::now.ensures((), packet.release_time.since),
            packet.release_time.delay_nanos == 0,
    {
        let release_time = ReleaseTime { since: Instant::now(), delay_nanos: 0 };
        Packet { data: Vec::new(), endpoint: E::default(), release_time }
    }
}

/// A queue of packets, oldest first. A packet that does not fit is dropped.
pub struct PacketBuffer<E>(RingBuffer<Packet<E>>);

impl<E: View> View for PacketBuffer<E> {
    type V = Seq<PacketView<E::V>>;

    closed spec fn view(&self) -> Seq<PacketView<E::V>> {
        self.0@.map_values(|packet: Packet<E>| packet@)
    }
}

impl<E: View + Clone + Default> PacketBuffer<E> {
    /// The ring under the queue is in order and has `PACKET_SLOTS` slots.
    pub closed spec fn wf(&self) -> bool {
        self.0.wf() && self.0.slots() == PACKET_SLOTS
    }

    /// A packet queue never holds more than `PACKET_SLOTS - 1` packets, and each of them fits into
    /// memory.
    pub proof fn law_bounded(&self)
        requires
            self.wf(),
        ensures
            self@.len() < PACKET_SLOTS,
            fit_memory(self@),
    {
        self.0.law_bounded();
        assert forall|k: int| 0 <= k < self@.len() implies (#[trigger] self@[k]).data.len()
            <= usize::MAX by {
            let bytes = self.0@[k].data;
            assert(bytes@.len() == bytes.len());
        }
    }

    /// An empty queue.
    pub fn new() -> (buffer: Self)
        ensures
            buffer.wf(),
            buffer@ == Seq::<PacketView<E::V>>::empty(),
    {
        let buffer = PacketBuffer(RingBuffer::new(PACKET_SLOTS));
        assert(buffer@ =~= Seq::<PacketView<E::V>>::empty());
        buffer
    }

    /// Queues a packet, unless the queue is full.
    pub fn push(&mut self, data: Vec<u8>, endpoint: E, release_time: ReleaseTime)
        requires
            old(self).wf(),
        ensures
            final(self).wf(),
            final(self)@ == offered(
                old(self)@,
                PACKET_SLOTS as nat,
                (PacketView { data: data@, endpoint: endpoint@, release_time }),
            ),
    {
        let packet = Packet { data, endpoint, release_time };
        self.0.push(packet);
        assert(self@ =~= offered(old(self)@, PACKET_SLOTS as nat, packet@));
    }

    /// Takes the oldest packet off the queue: its bytes and its endpoint.
    pub fn pop(&mut self) -> (popped: Option<(Vec<u8>, E)>)
        requires
            old(self).wf(),
        ensures
            final(self).wf(),
            match popped {
                None => old(self)@.len() == 0 && final(self)@ == old(self)@,
                Some((data, endpoint)) => {
                    &&& old(self)@.len() > 0
                    &&& data@ == old(self)@[0].data
                    &&& endpoint@ == old(self)@[0].endpoint
                    &&& final(self)@ == old(self)@.drop_first()
                },
            },
    {
        match self.0.pop() {
            None => None,
            Some(packet) => {
                assert(self@ =~= old(self)@.drop_first());
                Some((packet.data, packet.endpoint))
            },
        }
    }

    /// The number of queued packets.
    pub fn size(&self) -> (size: usize)
        requires
            self.wf(),
        ensures
            size == self@.len(),
    {
        self.0.size()
    }

    /// The queued packet at `offset`, counted from the oldest.
    pub fn peek(&self, offset: usize) -> (packet: &Packet<E>)
        requires
            self.wf(),
            offset < self@.len(),
        ensures
            packet@ == self@[offset as int],
    {
        self.0.peek(offset)
    }
}

/// A copy of the first `count` bytes of `raw`.
pub fn first_bytes(raw: &[u8], count: usize) -> (data: Vec<u8>)
    requires
        count <= raw@.len(),
    ensures
        data@ == raw@.take(count as int),
{
    let mut data: Vec<u8> = Vec::new();
    let mut i: usize = 0;
    while i < count
        invariant
            i <= count <= raw@.len(),
            data@ == raw@.take(i as int),
        decreases count - i,
    {
        data.push(raw[i]);
        i = i + 1;
        assert(data@ =~= raw@.take(i as int));
    }
    data
}

} // verus!
