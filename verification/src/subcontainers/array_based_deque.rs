use crate::containers::traits::ErasableContainer;
use crate::containers::traits::FillableContainer;
use crate::containers::traits::SearchableContainer;
use crate::containers::traits::SizedContainer;
use crate::subcontainers::resizable_array::is_default;
use crate::subcontainers::resizable_array::ResizableArray;
use crate::subcontainers::traits::BackOrientedContainer;
use crate::subcontainers::traits::Deque;
use crate::subcontainers::traits::FrontOrientedContainer;
use vstd::prelude::*;

verus! {

/// A double-ended queue in a ring buffer whose capacity is a power of two.
pub struct ArrayBasedDeque<T: Default> {
    ring: ResizableArray<T>,
    head: usize,
    tail: usize,
    size: usize,
}

/// `n` is a power of two.
pub open spec fn is_power_of_two(n: usize) -> bool {
    n > 0 && n & ((n - 1) as usize) == 0
}

/// The ring slot of the element at offset `i` from the slot `head`.
pub open spec fn ring_slot(head: int, capacity: int, i: int) -> int {
    if head + i < capacity {
        head + i
    } else {
        head + i - capacity
    }
}

proof fn lemma_doubled_power(n: usize)
    requires
        is_power_of_two(n),
        n * 2 <= usize::MAX,
    ensures
        is_power_of_two((n * 2) as usize),
{
    let m: usize = (n * 2) as usize;
    assert(m > 0 && m & ((m - 1) as usize) == 0) by (bit_vector)
        requires
            n > 0,
            n & ((n - 1) as usize) == 0,
            m == n * 2,
    ;
}

impl<T: Default> Default for ArrayBasedDeque<T> {
    fn default() -> (deque: Self)
        ensures
            deque.wf(),
            deque@ == Seq::<T>::empty(),
    {
        let deque = Self { ring: ResizableArray::new(1), head: 0, tail: 0, size: 0 };
        proof {
            assert(1usize & ((1usize - 1) as usize) == 0) by (bit_vector);
            assert(deque@ =~= Seq::<T>::empty());
        }
        deque
    }
}

impl<T: Default> View for ArrayBasedDeque<T> {
    type V = Seq<T>;

    /// The elements from front to back.
    closed spec fn view(&self) -> Seq<T> {
        Seq::new(
            self.size as nat,
            |i: int| self.ring@[ring_slot(self.head as int, self.ring@.len() as int, i)],
        )
    }
}

impl<T: Default> ArrayBasedDeque<T> {
    /// An empty deque.
    pub fn new() -> (deque: Self)
        ensures
            deque.wf(),
            deque@ == Seq::<T>::empty(),
    {
        Default::default()
    }

    /// The whole ring, slot by slot, with the slots that hold no element.
    pub closed spec fn slots(&self) -> Seq<T> {
        self.ring.searched()
    }

    spec fn inv(&self) -> bool {
        &&& is_power_of_two(self.ring@.len() as usize)
        &&& self.ring@.len() <= usize::MAX
        &&& self.head < self.ring@.len()
        &&& self.tail < self.ring@.len()
        &&& self.size <= self.ring@.len()
        &&& self.tail == ring_slot(
            self.head as int,
            self.ring@.len() as int,
            self.size + self.ring@.len() - 1,
        ) || self.tail == ring_slot(self.head as int, self.ring@.len() as int, self.size - 1)
    }

    /// The slot after `ndx`, around the ring.
    fn next_ndx(&self, ndx: usize) -> (next: usize)
        requires
            self.inv(),
            ndx < self.ring@.len(),
        ensures
            next == if ndx + 1 == self.ring@.len() {
                0
            } else {
                ndx + 1
            },
    {
        let capacity = self.capacity();
        let mask = capacity - 1;
        let bumped = ndx + 1;
        assert(bumped & mask == (if bumped == capacity {
            0
        } else {
            bumped
        })) by (bit_vector)
            requires
                capacity > 0,
                capacity & ((capacity - 1) as usize) == 0,
                mask == capacity - 1,
                0 < bumped <= capacity,
        ;
        bumped & mask
    }

    /// The slot before `ndx`, around the ring.
    fn prev_ndx(&self, ndx: usize) -> (prev: usize)
        requires
            self.inv(),
            ndx < self.ring@.len(),
        ensures
            prev == if ndx == 0 {
                self.ring@.len() - 1
            } else {
                ndx - 1
            },
    {
        let capacity = self.capacity();
        let mask = capacity - 1;
        if ndx == 0 {
            mask
        } else {
            let lowered = ndx - 1;
            assert(lowered & mask == lowered) by (bit_vector)
                requires
                    capacity > 0,
                    capacity & ((capacity - 1) as usize) == 0,
                    mask == capacity - 1,
                    lowered < capacity,
            ;
            lowered & mask
        }
    }

    /// Doubles the ring and moves the part of the elements that had wrapped
    /// round behind the others, so that the order from the head on stays.
    fn double_the_capacity(&mut self)
        requires
            old(self).inv(),
            old(self).size == old(self).ring@.len(),
            old(self).ring@.len() * 2 <= usize::MAX,
        ensures
            final(self).inv(),
            final(self)@ == old(self)@,
            final(self).size == old(self).size,
            final(self).ring@.len() == 2 * old(self).ring@.len(),
    {
        let old_capacity = self.capacity();
        proof {
            lemma_doubled_power(old_capacity);
        }
        self.ring.double_the_size();
        let mut i: usize = 0;
        while i < self.head
            invariant
                i <= self.head,
                self.head == old(self).head,
                self.size == old(self).size,
                self.tail == old(self).tail,
                self.head < old_capacity,
                old_capacity == old(self).ring@.len(),
                old_capacity * 2 <= usize::MAX,
                self.ring@.len() == 2 * old_capacity,
                forall|j: int| i <= j < old_capacity ==> #[trigger] self.ring@[j] == old(self).ring@[j],
                forall|j: int|
                    0 <= j < i ==> #[trigger] self.ring@[old_capacity + j] == old(self).ring@[j],
            decreases self.head - i,
        {
            let mut moved = T::default();
            core::mem::swap(&mut moved, self.ring.index_mut(i));
            core::mem::swap(&mut moved, self.ring.index_mut(old_capacity + i));
            i += 1;
        }
        self.tail = self.head + (self.size - 1);
        proof {
            assert forall|k: int| 0 <= k < self.size implies self@[k] == old(self)@[k] by {
                if self.head + k >= old_capacity {
                    let j = self.head + k - old_capacity;
                    assert(self.ring@[old_capacity + j] == old(self).ring@[j]);
                } else {
                    assert(self.ring@[self.head + k] == old(self).ring@[self.head + k]);
                }
            }
            assert(self@ =~= old(self)@);
        }
    }

    fn capacity(&self) -> (capacity: usize)
        ensures
            capacity == self.ring@.len(),
    {
        self.ring.size()
    }

    /// Takes the element out of a slot and leaves a default value there.
    fn take_slot(&mut self, ndx: usize) -> (taken: T)
        requires
            ndx < old(self).ring@.len(),
        ensures
            taken == old(self).ring@[ndx as int],
            final(self).ring@.len() == old(self).ring@.len(),
            is_default(final(self).ring@[ndx as int]),
            forall|j: int|
                0 <= j < old(self).ring@.len() && j != ndx ==> #[trigger] final(self).ring@[j]
                    == old(self).ring@[j],
            final(self).head == old(self).head,
            final(self).tail == old(self).tail,
            final(self).size == old(self).size,
    {
        let mut taken = T::default();
        core::mem::swap(&mut taken, self.ring.index_mut(ndx));
        taken
    }
}

impl<T: Default> SizedContainer for ArrayBasedDeque<T> {
    closed spec fn wf(&self) -> bool {
        self.inv()
    }

    closed spec fn spec_size(&self) -> nat {
        self.size as nat
    }

    closed spec fn can_grow(&self) -> bool {
        self.size < self.ring@.len() || self.ring@.len() * 2 <= usize::MAX
    }

    proof fn lemma_can_grow(&self) {
    }

    fn size(&self) -> (n: usize) {
        self.size
    }
}

impl<T: Default> FrontOrientedContainer<T> for ArrayBasedDeque<T> {
    open spec fn front_view(&self) -> Seq<T> {
        self@
    }

    proof fn lemma_front_size(&self) {
    }

    fn push_front(&mut self, element: T) {
        if self.size() == self.capacity() {
            self.double_the_capacity();
        }
        let ghost before = *self;
        self.head = self.prev_ndx(self.head);
        let mut slot_value = element;
        core::mem::swap(&mut slot_value, self.ring.index_mut(self.head));
        self.size += 1;
        proof {
            assert(self@ =~= seq![element] + before@);
        }
    }

    fn pop_front(&mut self) -> (popped: Option<T>) {
        if self.size() > 0 {
            let ghost before = *self;
            let prev_head = self.take_slot(self.head);
            self.head = self.next_ndx(self.head);
            self.size -= 1;
            proof {
                assert(self@ =~= before@.drop_first());
            }
            Some(prev_head)
        } else {
            None
        }
    }

    fn front(&self) -> (first: Option<&T>) {
        if self.size() > 0 {
            Some(self.ring.index(self.head))
        } else {
            None
        }
    }
}

impl<T: Default> BackOrientedContainer<T> for ArrayBasedDeque<T> {
    open spec fn back_view(&self) -> Seq<T> {
        self@
    }

    proof fn lemma_back_size(&self) {
    }

    fn push_back(&mut self, element: T) {
        if self.size() == self.capacity() {
            self.double_the_capacity();
        }
        let ghost before = *self;
        self.tail = self.next_ndx(self.tail);
        let mut slot_value = element;
        core::mem::swap(&mut slot_value, self.ring.index_mut(self.tail));
        self.size += 1;
        proof {
            assert(self@ =~= before@.push(element));
        }
    }

    fn back(&self) -> (last: Option<&T>) {
        if self.size() > 0 {
            Some(self.ring.index(self.tail))
        } else {
            None
        }
    }

    fn pop_back(&mut self) -> (popped: Option<T>) {
        if self.size() > 0 {
            let ghost before = *self;
            let prev_tail = self.take_slot(self.tail);
            self.tail = self.prev_ndx(self.tail);
            self.size -= 1;
            proof {
                assert(self@ =~= before@.drop_last());
            }
            Some(prev_tail)
        } else {
            None
        }
    }
}

impl<T: Default> Deque<T> for ArrayBasedDeque<T> {
    proof fn lemma_one_sequence(&self) {
    }
}

impl<T: Default> ErasableContainer<T> for ArrayBasedDeque<T> {
    open spec fn erasable(&self) -> bool {
        self.wf()
    }

    open spec fn erased_from(&self) -> Seq<T> {
        self.slots()
    }

    fn erase_first<F>(&mut self, predicate: F) -> (erased: Option<T>) where
        F: Fn(&T) -> bool,
        T: Default,
     {
        proof {
            assert(self.erased_from() == self.searched());
        }
        match self.find_mut(predicate) {
            Some(found) => {
                let mut taken = T::default();
                core::mem::swap(&mut taken, found);
                Some(taken)
            },
            None => None,
        }
    }
}

impl<T: Default> FillableContainer<T> for ArrayBasedDeque<T> {
    open spec fn filled(&self) -> Seq<T> {
        self@
    }

    fn push(&mut self, element: T) -> (this: &mut Self) {
        proof {
            self.lemma_back_size();
        }
        self.push_back(element);
        proof {
            self.lemma_back_size();
        }
        self
    }
}

impl<T: Default> SearchableContainer<T> for ArrayBasedDeque<T> {
    open spec fn searchable(&self) -> bool {
        self.wf()
    }

    open spec fn searched(&self) -> Seq<T> {
        self.slots()
    }

    fn find<F>(&self, predicate: F) -> (found: Option<&T>) where F: Fn(&T) -> bool {
        proof {
            assert(self.searched() == self.ring.searched());
        }
        self.ring.find(predicate)
    }

    fn find_mut<F>(&mut self, predicate: F) -> (found: Option<&mut T>) where F: Fn(&T) -> bool {
        proof {
            assert(self.searched() == self.ring.searched());
        }
        self.ring.find_mut(predicate)
    }
}

} // verus!
