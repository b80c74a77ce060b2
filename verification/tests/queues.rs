use std::time::Instant;

use fps_arena::client::{FAKE_LAG_NANOS, MAX_PREDICTED_TICKS, PREDICTED_LEAD, VERTICES};
use fps_arena::pacing::{is_overdue, wait_after, TICK_NANOS};
use fps_arena::packet::{
    first_bytes, Packet, PacketBuffer, ReleaseTime, SocketAddress, PACKET_SLOTS,
};
use fps_arena::protocol::MAX_CLIENTS;
use fps_arena::ring_buffer::RingBuffer;
use fps_arena::screen::{PIXELS, WINDOW_HEIGHT, WINDOW_WIDTH};

const SECONDS_PER_TICK: f32 = 1.0 / 60.0;
const FAKE_LAG_S: f32 = 0.2;

#[test]
fn sizes_are_those_of_single_precision_arithmetic() {
    assert_eq!(PACKET_SLOTS, (1.0 / SECONDS_PER_TICK * FAKE_LAG_S) as usize + 2);
    assert_eq!(MAX_PREDICTED_TICKS, (1.0 / SECONDS_PER_TICK * 2.0) as usize);
    assert_eq!(PREDICTED_LEAD, (0.4 / SECONDS_PER_TICK) as u32 + 2);
    assert_eq!(
        FAKE_LAG_NANOS as u128,
        std::time::Duration::from_secs_f32(FAKE_LAG_S).as_nanos()
    );
    assert_eq!(
        TICK_NANOS as u128,
        std::time::Duration::from_secs_f32(SECONDS_PER_TICK).as_nanos()
    );
    assert_eq!(PIXELS, WINDOW_WIDTH * WINDOW_HEIGHT);
    assert_eq!(VERTICES, MAX_CLIENTS * 4);
}

#[test]
fn ring_holds_one_less_than_its_slots() {
    let mut ring: RingBuffer<u32> = RingBuffer::new(3);
    assert!(ring.push(1));
    assert!(ring.push(2));
    assert!(!ring.push(3));
    assert_eq!(ring.size(), 2);
    assert_eq!(ring.pop(), Some(1));
    assert!(ring.push(4));
    assert_eq!(ring.pop(), Some(2));
    assert_eq!(ring.pop(), Some(4));
    assert_eq!(ring.pop(), None);
    assert_eq!(ring.size(), 0);
}

#[test]
fn ring_wraps_many_times() {
    let mut ring: RingBuffer<usize> = RingBuffer::new(5);
    for i in 0..100 {
        assert!(ring.push(2 * i));
        assert!(ring.push(2 * i + 1));
        assert_eq!(ring.size(), 2);
        assert_eq!(ring.pop(), Some(2 * i));
        assert_eq!(ring.pop(), Some(2 * i + 1));
    }
}

#[test]
fn ring_of_one_slot_takes_nothing() {
    let mut ring: RingBuffer<u8> = RingBuffer::new(1);
    assert!(!ring.push(9));
    assert_eq!(ring.pop(), None);
}

#[test]
fn ring_without_slots_is_empty() {
    let mut ring: RingBuffer<u8> = RingBuffer::new(0);
    assert_eq!(ring.size(), 0);
    assert_eq!(ring.pop(), None);
}

#[test]
fn ring_items_can_be_looked_at_and_replaced() {
    let mut ring: RingBuffer<u32> = RingBuffer::new(3);
    ring.push(1);
    ring.pop();
    ring.push(2);
    ring.push(3);
    assert_eq!(*ring.peek(0), 2);
    assert_eq!(*ring.peek(1), 3);
    ring.replace(1, 7);
    assert_eq!(ring.pop(), Some(2));
    assert_eq!(ring.pop(), Some(7));
}

#[test]
fn packet_queue_keeps_the_first_twelve() {
    let mut queue: PacketBuffer<SocketAddress> = PacketBuffer::new();
    let home = SocketAddress::V4 { ipv4: 0x7f00_0001, port: 9999 };
    let since = Instant::now();
    for i in 0..20u8 {
        queue.push(vec![i], home, ReleaseTime { since, delay_nanos: i as u64 });
    }
    assert_eq!(queue.size(), 12);
    assert_eq!(queue.peek(3).release_time, ReleaseTime { since, delay_nanos: 3 });
    for i in 0..12u8 {
        assert_eq!(queue.pop(), Some((vec![i], home)));
    }
    assert_eq!(queue.pop(), None);
}

#[test]
fn first_bytes_copies_a_prefix() {
    assert_eq!(first_bytes(&[1, 2, 3, 4], 3), vec![1, 2, 3]);
    assert_eq!(first_bytes(&[1, 2, 3, 4], 0), Vec::<u8>::new());
}

#[test]
fn default_address_is_loopback() {
    assert_eq!(
        SocketAddress::default(),
        SocketAddress::V4 { ipv4: u32::from_be_bytes([127, 0, 0, 1]), port: 0 }
    );
}

/// A value that starts at seven.
#[derive(Clone, Debug, PartialEq)]
struct Seven(u32);

impl Default for Seven {
    fn default() -> Self {
        Seven(7)
    }
}

#[test]
fn fresh_ring_takes_one_less_than_its_slots() {
    for capacity in 1..9 {
        let mut ring: RingBuffer<Seven> = RingBuffer::new(capacity);
        assert_eq!(ring.pop(), None);
        for n in 0..12 {
            assert_eq!(ring.push(Seven(n)), (n as usize) < capacity - 1);
        }
        assert_eq!(ring.size(), capacity - 1);
        if ring.pop().is_some() {
            assert!(ring.push(Seven(99)));
            assert!(!ring.push(Seven(100)));
        }
    }
}

#[test]
fn refused_items_leave_the_ring_alone() {
    let mut ring: RingBuffer<Seven> = RingBuffer::new(3);
    ring.push(Seven(1));
    ring.push(Seven(2));
    for n in 10..20 {
        assert!(!ring.push(Seven(n)));
        assert_eq!(*ring.peek(0), Seven(1));
        assert_eq!(*ring.peek(1), Seven(2));
    }
    assert_eq!(ring.pop(), Some(Seven(1)));
    assert_eq!(ring.pop(), Some(Seven(2)));
    assert_eq!(ring.pop(), None);
    assert_eq!(ring.pop(), None);
    assert!(ring.push(Seven(3)));
    assert_eq!(ring.pop(), Some(Seven(3)));
}

#[test]
fn ticks_are_filled_or_overdue() {
    assert_eq!(TICK_NANOS, 16_666_668);
    assert_eq!(wait_after(0), Some(16_666_668));
    assert_eq!(wait_after(6_666_668), Some(10_000_000));
    assert_eq!(wait_after(16_666_667), Some(1));
    assert_eq!(wait_after(16_666_668), None);
    assert_eq!(wait_after(16_666_669), None);
    assert_eq!(wait_after(u128::MAX), None);
    assert!(!is_overdue(0));
    assert!(!is_overdue(16_666_668));
    assert!(is_overdue(16_666_669));
    assert!(is_overdue(u128::MAX));
}

#[test]
fn default_packet_is_empty_and_of_the_present() {
    let before = Instant::now();
    let packet: Packet<SocketAddress> = Packet::default();
    let after = Instant::now();
    assert_eq!(packet.data, Vec::<u8>::new());
    assert_eq!(packet.endpoint, SocketAddress::default());
    assert!(before <= packet.release_time.since && packet.release_time.since <= after);
    assert_eq!(packet.release_time.delay_nanos, 0);
}

#[test]
fn packets_are_handed_out_before_their_release_time() {
    let mut queue: PacketBuffer<SocketAddress> = PacketBuffer::new();
    let home = SocketAddress::default();
    queue.push(vec![1], home, ReleaseTime { since: Instant::now(), delay_nanos: u64::MAX });
    assert_eq!(queue.pop(), Some((vec![1], home)));
}
