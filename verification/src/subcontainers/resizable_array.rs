use crate::containers::traits::always_callable;
use crate::containers::traits::first_match;
use crate::containers::traits::SearchableContainer;
use crate::containers::traits::SizedContainer;
use vstd::prelude::*;

verus! {

/// `x` is a value that `T::default` can return.
pub open spec fn is_default<T: Default>(x: T) -> bool {
    call_ensures(T::default, (), x)
}

/// An array of a length that is chosen at run time and can be changed.
pub struct ResizableArray<T: Default> {
    array: Vec<T>,
}

impl<T: Default> View for ResizableArray<T> {
    type V = Seq<T>;

    closed spec fn view(&self) -> Seq<T> {
        self.array@
    }
}

impl<T: Default> Default for ResizableArray<T> {
    fn default() -> (array: Self)
        ensures
            array@.len() == 0,
    {
        Self::new(0)
    }
}

impl<T: Default> ResizableArray<T> {
    /// An array of `initial_size` default values.
    pub fn new(initial_size: usize) -> (array: Self)
        ensures
            array@.len() == initial_size,
            forall|i: int| 0 <= i < initial_size ==> is_default(#[trigger] array@[i]),
    {
        Self { array: Self::allocate_slice(initial_size) }
    }

    /// Changes the length to `new_size`, which is not less than the length
    /// before: the elements stay, and default values follow them.
    pub fn resize(&mut self, new_size: usize)
        requires
            old(self)@.len() <= new_size,
        ensures
            final(self)@.len() == new_size,
            forall|i: int| 0 <= i < old(self)@.len() ==> #[trigger] final(self)@[i] == old(self)@[i],
            forall|i: int| old(self)@.len() <= i < new_size ==> is_default(#[trigger] final(self)@[i]),
    {
        let mut new_slice = Self::allocate_slice(new_size);
        let old_size = self.array.len();
        let mut i: usize = 0;
        while i < old_size
            invariant
                i <= old_size,
                old_size == self.array@.len(),
                old_size == old(self)@.len(),
                old_size <= new_size,
                new_slice@.len() == new_size,
                forall|j: int| 0 <= j < i ==> #[trigger] new_slice@[j] == old(self)@[j],
                forall|j: int| i <= j < old_size ==> #[trigger] self.array@[j] == old(self)@[j],
                forall|j: int| old_size <= j < new_size ==> is_default(#[trigger] new_slice@[j]),
            decreases old_size - i,
        {
            core::mem::swap(&mut new_slice[i], &mut self.array[i]);
            i += 1;
        }
        self.array = new_slice;
    }

    /// Doubles the length.
    pub fn double_the_size(&mut self)
        requires
            old(self)@.len() * 2 <= usize::MAX,
        ensures
            final(self)@.len() == old(self)@.len() * 2,
            forall|i: int| 0 <= i < old(self)@.len() ==> #[trigger] final(self)@[i] == old(self)@[i],
            forall|i: int|
                old(self)@.len() <= i < old(self)@.len() * 2 ==> is_default(
                    #[trigger] final(self)@[i],
                ),
    {
        self.resize(self.size() * 2);
    }

    fn allocate_slice(size: usize) -> (slice: Vec<T>)
        ensures
            slice@.len() == size,
            forall|i: int| 0 <= i < size ==> is_default(#[trigger] slice@[i]),
    {
        let mut slice: Vec<T> = Vec::with_capacity(size);
        let mut i: usize = 0;
        while i < size
            invariant
                i <= size,
                slice@.len() == i,
                forall|j: int| 0 <= j < i ==> is_default(#[trigger] slice@[j]),
            decreases size - i,
        {
            slice.push(T::default());
            i += 1;
        }
        slice
    }

    /// The element at `index`.
    pub fn index(&self, index: usize) -> (element: &T)
        requires
            index < self@.len(),
        ensures
            *element == self@[index as int],
    {
        &self.array[index]
    }

    /// Access for writing to the element at `index`.
    pub fn index_mut(&mut self, index: usize) -> (element: &mut T)
        requires
            index < old(self)@.len(),
        ensures
            *element == old(self)@[index as int],
            final(self)@ == old(self)@.update(index as int, *final(element)),
    {
        &mut self.array[index]
    }
}

impl<T: Default> SizedContainer for ResizableArray<T> {
    open spec fn wf(&self) -> bool {
        true
    }

    open spec fn spec_size(&self) -> nat {
        self@.len()
    }

    open spec fn can_grow(&self) -> bool {
        self@.len() * 2 <= usize::MAX
    }

    proof fn lemma_can_grow(&self) {
    }

    fn size(&self) -> (n: usize) {
        self.array.len()
    }
}

impl<T: Default> SearchableContainer<T> for ResizableArray<T> {
    open spec fn searchable(&self) -> bool {
        true
    }

    open spec fn searched(&self) -> Seq<T> {
        self@
    }

    fn find<F>(&self, predicate: F) -> (found: Option<&T>) where F: Fn(&T) -> bool {
        let mut i: usize = 0;
        while i < self.array.len()
            invariant
                i <= self.array@.len(),
                always_callable::<T, F>(predicate),
                forall|j: int| 0 <= j < i ==> predicate.ensures((&#[trigger] self.array@[j],), false),
            decreases self.array@.len() - i,
        {
            if predicate(&self.array[i]) {
                assert(first_match(self.searched(), predicate, i as int));
                return Some(&self.array[i]);
            }
            i += 1;
        }
        None
    }

    fn find_mut<F>(&mut self, predicate: F) -> (found: Option<&mut T>) where F: Fn(&T) -> bool {
        let mut i: usize = 0;
        while i < self.array.len()
            invariant
                i <= self.array@.len(),
                self.array@ == old(self).array@,
                always_callable::<T, F>(predicate),
                forall|j: int| 0 <= j < i ==> predicate.ensures((&#[trigger] self.array@[j],), false),
            decreases self.array@.len() - i,
        {
            if predicate(&self.array[i]) {
                assert(first_match(old(self).searched(), predicate, i as int));
                return Some(&mut self.array[i]);
            }
            i += 1;
        }
        None
    }
}

} // verus!
