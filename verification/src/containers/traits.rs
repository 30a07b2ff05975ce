use vstd::prelude::*;

verus! {

/// `predicate` accepts every argument.
pub open spec fn always_callable<T, F: Fn(&T) -> bool>(predicate: F) -> bool {
    forall|x: T| #[trigger] predicate.requires((&x,))
}

/// `i` is the first index of `items` at which `predicate` can answer `true`,
/// and it answers `false` before.
pub open spec fn first_match<T, F: Fn(&T) -> bool>(items: Seq<T>, predicate: F, i: int) -> bool {
    &&& 0 <= i < items.len()
    &&& predicate.ensures((&items[i],), true)
    &&& forall|j: int| 0 <= j < i ==> predicate.ensures((&#[trigger] items[j],), false)
}

/// `predicate` answers `false` on every item.
pub open spec fn no_match<T, F: Fn(&T) -> bool>(items: Seq<T>, predicate: F) -> bool {
    forall|j: int| 0 <= j < items.len() ==> predicate.ensures((&#[trigger] items[j],), false)
}

/// A container that knows how many elements it holds.
pub trait SizedContainer {
    /// The invariant of the representation.
    spec fn wf(&self) -> bool;

    spec fn spec_size(&self) -> nat;

    /// One more element fits within the limits of the machine.
    spec fn can_grow(&self) -> bool;

    /// A container at most half as large as the machine can count has room
    /// for one more element.
    proof fn lemma_can_grow(&self)
        requires
            self.wf(),
            self.spec_size() <= usize::MAX / 2,
        ensures
            self.can_grow(),
    ;

    fn size(&self) -> (n: usize)
        requires
            self.wf(),
        ensures
            n == self.spec_size(),
    ;
}

/// A container that takes elements one at a time.
pub trait FillableContainer<T>: SizedContainer + Sized {
    /// The elements in the order in which they were pushed, as far as they
    /// are still held.
    spec fn filled(&self) -> Seq<T>;

    fn push(&mut self, element: T) -> (this: &mut Self)
        requires
            old(self).wf(),
            old(self).can_grow(),
        ensures
            this.wf(),
            this.filled() == old(self).filled().push(element),
            this.spec_size() == old(self).spec_size() + 1,
            *final(this) == *final(self),
    ;
}

/// A container whose storage can be searched for an element to blank out.
pub trait ErasableContainer<T> {
    /// The invariant of the representation.
    spec fn erasable(&self) -> bool;

    /// The storage that is searched, slot by slot.
    spec fn erased_from(&self) -> Seq<T>;

    /// Takes the first element that `predicate` accepts out of the storage and
    /// leaves a default value in its slot.
    fn erase_first<F>(&mut self, predicate: F) -> (erased: Option<T>) where
        F: Fn(&T) -> bool,
        T: Default,

        requires
            old(self).erasable(),
            always_callable::<T, F>(predicate),
        ensures
            final(self).erasable(),
            match erased {
                Some(x) => exists|i: int|
                    {
                        &&& #[trigger] first_match(old(self).erased_from(), predicate, i)
                        &&& x == old(self).erased_from()[i]
                        &&& final(self).erased_from().len() == old(self).erased_from().len()
                        &&& call_ensures(T::default, (), final(self).erased_from()[i])
                        &&& forall|j: int|
                            0 <= j < old(self).erased_from().len() && j != i ==> final(self).erased_from()[j] == old(self).erased_from()[j]
                    },
                None => no_match(old(self).erased_from(), predicate) && final(self).erased_from()
                    == old(self).erased_from(),
            },
    ;
}

/// A container that hands its elements out one at a time, in an order of its
/// own.
pub trait ReadableContainer<T>: SizedContainer {
    /// The elements in the order in which `pop` hands them out.
    spec fn pending(&self) -> Seq<T>;

    /// The size is the number of pending elements.
    proof fn lemma_pending_size(&self)
        requires
            self.wf(),
        ensures
            self.spec_size() == self.pending().len(),
    ;

    /// The element that `pop` would hand out.
    fn pivot(&self) -> (next: Option<&T>)
        requires
            self.wf(),
        ensures
            next == if self.pending().len() > 0 {
                Some(&self.pending()[0])
            } else {
                None
            },
    ;

    fn pop(&mut self) -> (next: Option<T>)
        requires
            old(self).wf(),
        ensures
            final(self).wf(),
            next == if old(self).pending().len() > 0 {
                Some(old(self).pending()[0])
            } else {
                None
            },
            final(self).pending() == if old(self).pending().len() > 0 {
                old(self).pending().drop_first()
            } else {
                old(self).pending()
            },
    ;
}

/// A container whose storage can be searched.
pub trait SearchableContainer<T> {
    /// The invariant of the representation.
    spec fn searchable(&self) -> bool;

    /// The storage that is searched, slot by slot.
    spec fn searched(&self) -> Seq<T>;

    /// The first element that `predicate` accepts.
    fn find<F>(&self, predicate: F) -> (found: Option<&T>) where F: Fn(&T) -> bool
        requires
            self.searchable(),
            always_callable::<T, F>(predicate),
        ensures
            match found {
                Some(x) => exists|i: int| #[trigger]
                    first_match(self.searched(), predicate, i) && *x == self.searched()[i],
                None => no_match(self.searched(), predicate),
            },
    ;

    /// Access for writing to the first element that `predicate` accepts.
    fn find_mut<F>(&mut self, predicate: F) -> (found: Option<&mut T>) where F: Fn(&T) -> bool
        requires
            old(self).searchable(),
            always_callable::<T, F>(predicate),
        ensures
            final(self).searchable(),
            match found {
                Some(x) => exists|i: int|
                    {
                        &&& #[trigger] first_match(old(self).searched(), predicate, i)
                        &&& *x == old(self).searched()[i]
                        &&& final(self).searched() == old(self).searched().update(i, *final(x))
                    },
                None => no_match(old(self).searched(), predicate) && final(self).searched() == old(self).searched(),
            },
    ;
}

} // verus!
