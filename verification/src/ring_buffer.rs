//! A first-in, first-out queue in a fixed ring of slots.

use vstd::arithmetic::div_mod::{
    lemma_mod_add_multiples_vanish, lemma_mod_self_0, lemma_small_mod,
};
use vstd::prelude::*;

verus! {

/// A queue in a ring of `capacity` slots.
///
/// One slot always stays free, so that a full ring and an empty one can be told apart: the queue
/// holds at most `capacity - 1` items. Its view is the sequence of queued items, oldest first.
pub struct RingBuffer<T> {
    items: Vec<T>,
    head: usize,
    tail: usize,
    capacity: usize,
}

/// The slot that lies `offset` slots after `head` on a ring of `capacity` slots.
spec fn ring_slot(head: int, offset: int, capacity: int) -> int {
    if head + offset < capacity {
        head + offset
    } else {
        head + offset - capacity
    }
}

/// A slot on the ring is found by its distance from `head`, modulo the number of slots.
proof fn lemma_ring_slot(head: int, offset: int, capacity: int)
    requires
        0 <= head < capacity,
        0 <= offset < capacity,
    ensures
        ring_slot(head, offset, capacity) == (head + offset) % capacity,
{
    if head + offset < capacity {
        lemma_small_mod((head + offset) as nat, capacity as nat);
    } else {
        lemma_mod_add_multiples_vanish(head + offset - capacity, capacity);
        lemma_small_mod((head + offset - capacity) as nat, capacity as nat);
    }
}

/// The number of slots from `head` up to, not including, `tail`.
spec fn ring_distance(head: int, tail: int, capacity: int) -> nat {
    if tail >= head {
        (tail - head) as nat
    } else {
        (capacity - head + tail) as nat
    }
}

/// Whether a ring of `capacity` slots takes another item: while it holds fewer than
/// `capacity - 1`.
pub open spec fn has_room<T>(queue: Seq<T>, capacity: nat) -> bool {
    queue.len() + 1 < capacity
}

/// What a bounded queue holds after `item` was offered to it: it takes the item while there is
/// room, and drops it otherwise.
pub open spec fn offered<T>(queue: Seq<T>, capacity: nat, item: T) -> Seq<T> {
    if has_room(queue, capacity) {
        queue.push(item)
    } else {
        queue
    }
}

impl<T> View for RingBuffer<T> {
    type V = Seq<T>;

    closed spec fn view(&self) -> Seq<T> {
        Seq::new(
            ring_distance(self.head as int, self.tail as int, self.capacity as int),
            |k: int| self.items@[ring_slot(self.head as int, k, self.capacity as int)],
        )
    }
}

impl<T> RingBuffer<T> {
    /// The ring has `capacity` slots, and both ends lie on it.
    pub closed spec fn wf(&self) -> bool {
        &&& self.items@.len() == self.capacity
        &&& if self.capacity == 0 {
            self.head == 0 && self.tail == 0
        } else {
            self.head < self.capacity && self.tail < self.capacity
        }
    }

    /// The number of slots of the ring.
    pub closed spec fn slots(&self) -> nat {
        self.capacity as nat
    }

    /// What every slot of the ring holds, the free ones too.
    pub closed spec fn cells(&self) -> Seq<T> {
        self.items@
    }

    /// The slot of the oldest item.
    pub closed spec fn front(&self) -> nat {
        self.head as nat
    }

    /// The slot that the next item goes to.
    pub closed spec fn back(&self) -> nat {
        self.tail as nat
    }

    /// Both ends lie on the ring. The queued items lie in the slots from the front on, round the
    /// ring, up to the back; the queue is empty exactly where both ends meet.
    pub proof fn law_layout(&self)
        requires
            self.wf(),
            self.slots() > 0,
        ensures
            self.cells().len() == self.slots(),
            self.front() < self.slots(),
            self.back() < self.slots(),
            self.back() == (self.front() + self@.len()) % self.slots(),
            (self@.len() == 0) == (self.front() == self.back()),
            forall|k: int|
                0 <= k < self@.len() ==> #[trigger] self@[k] == self.cells()[(self.front() + k)
                    % self.slots() as int],
    {
        let head = self.head as int;
        let capacity = self.capacity as int;
        assert forall|k: int| 0 <= k < self@.len() implies #[trigger] self@[k]
            == self.cells()[(self.front() + k) % self.slots() as int] by {
            lemma_ring_slot(head, k, capacity);
        }
        lemma_ring_slot(head, self@.len() as int, capacity);
    }

    /// A ring never holds more than one item less than it has slots.
    pub proof fn law_bounded(&self)
        requires
            self.wf(),
        ensures
            self@.len() == 0 || self@.len() < self.slots(),
            self.slots() <= usize::MAX,
    {
    }

    /// A ring that has given an item back has room for another.
    pub proof fn law_pop_makes_room(&self)
        requires
            self.wf(),
            self@.len() > 0,
        ensures
            has_room(self@.drop_first(), self.slots()),
    {
    }

    /// The index into `items` of the queued item at `offset`.
    fn slot_of(&self, offset: usize) -> (slot: usize)
        requires
            self.wf(),
            offset < self@.len(),
        ensures
            slot == ring_slot(self.head as int, offset as int, self.capacity as int),
            slot < self.capacity,
    {
        if offset < self.capacity - self.head {
            self.head + offset
        } else {
            offset - (self.capacity - self.head)
        }
    }

    /// The queued item at `offset`, counted from the oldest.
    pub fn peek(&self, offset: usize) -> (item: &T)
        requires
            self.wf(),
            offset < self@.len(),
        ensures
            *item == self@[offset as int],
    {
        &self.items[self.slot_of(offset)]
    }

    /// Puts `item` in the place of the queued item at `offset`, counted from the oldest.
    pub fn replace(&mut self, offset: usize, item: T)
        requires
            old(self).wf(),
            offset < old(self)@.len(),
        ensures
            final(self).wf(),
            final(self).slots() == old(self).slots(),
            final(self)@ == old(self)@.update(offset as int, item),
            final(self).cells() == old(self).cells().update(
                (old(self).front() + offset) % old(self).slots() as int,
                item,
            ),
            final(self).front() == old(self).front(),
            final(self).back() == old(self).back(),
    {
        let slot: usize = self.slot_of(offset);
        self.items.set(slot, item);
        proof {
            lemma_ring_slot(self.head as int, offset as int, self.capacity as int);
        }
        assert(self@ =~= old(self)@.update(offset as int, item));
    }

    /// The number of queued items.
    pub fn size(&self) -> (size: usize)
        requires
            self.wf(),
        ensures
            size == self@.len(),
    {
        if self.tail >= self.head {
            self.tail - self.head
        } else {
            self.capacity - self.head + self.tail
        }
    }
}

impl<T: Clone + Default> RingBuffer<T> {
    /// An empty queue in a ring of `capacity` slots, each of which holds the default.
    pub fn new(capacity: usize) -> (buffer: Self)
        ensures
            buffer.wf(),
            buffer.slots() == capacity,
            buffer@ == Seq::<T>::empty(),
            buffer.front() == 0,
            buffer.back() == 0,
            buffer.cells().len() == capacity,
            exists|blank: T|
                #[trigger] T::default.ensures((), blank) && forall|i: int|
                    0 <= i < capacity ==> cloned(blank, #[trigger] buffer.cells()[i]),
    {
        let blank = T::default();
        let ghost filler = blank;
        let buffer = RingBuffer { items: vec![blank; capacity], head: 0, tail: 0, capacity };
        assert(buffer@ =~= Seq::<T>::empty());
        assert(T::default.ensures((), filler));
        buffer
    }

    /// Appends `item`, unless only one slot is left. Says whether it did.
    pub fn push(&mut self, item: T) -> (accepted: bool)
        requires
            old(self).wf(),
            old(self).slots() > 0,
        ensures
            final(self).wf(),
            final(self).slots() == old(self).slots(),
            accepted == has_room(old(self)@, old(self).slots()),
            final(self)@ == offered(old(self)@, old(self).slots(), item),
            !accepted ==> *final(self) == *old(self),
            accepted ==> {
                &&& final(self).cells() == old(self).cells().update(old(self).back() as int, item)
                &&& final(self).front() == old(self).front()
                &&& final(self).back() == (old(self).back() + 1) % old(self).slots()
            },
    {
        proof {
            if self.tail + 1 < self.capacity {
                lemma_small_mod((self.tail + 1) as nat, self.capacity as nat);
            } else {
                lemma_mod_self_0(self.capacity as int);
            }
        }
        let next_tail: usize = (self.tail + 1) % self.capacity;
        if next_tail == self.head {
            false
        } else {
            self.items.set(self.tail, item);
            self.tail = next_tail;
            assert(self@ =~= old(self)@.push(item));
            true
        }
    }

    /// Removes the oldest item and returns it; `None` if there is none. The default takes its place
    /// in the slot.
    pub fn pop(&mut self) -> (popped: Option<T>)
        requires
            old(self).wf(),
        ensures
            final(self).wf(),
            final(self).slots() == old(self).slots(),
            old(self)@.len() == 0 ==> popped is None && *final(self) == *old(self),
            old(self)@.len() > 0 ==> {
                &&& popped == Some(old(self)@[0])
                &&& final(self)@ == old(self)@.drop_first()
                &&& T::default.ensures((), final(self).cells()[old(self).front() as int])
                &&& final(self).cells() == old(self).cells().update(
                    old(self).front() as int,
                    final(self).cells()[old(self).front() as int],
                )
                &&& final(self).front() == (old(self).front() + 1) % old(self).slots()
                &&& final(self).back() == old(self).back()
            },
    {
        if self.head == self.tail {
            None
        } else {
            proof {
                if self.head + 1 < self.capacity {
                    lemma_small_mod((self.head + 1) as nat, self.capacity as nat);
                } else {
                    lemma_mod_self_0(self.capacity as int);
                }
            }
            let mut item = T::default();
            let ghost blank = item;
            std::mem::swap(&mut item, &mut self.items[self.head]);
            self.head = (self.head + 1) % self.capacity;
            assert(self@ =~= old(self)@.drop_first());
            assert(self.cells() =~= old(self).cells().update(old(self).head as int, blank));
            Some(item)
        }
    }
}

} // verus!
