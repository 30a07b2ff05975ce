use crate::containers::traits::SizedContainer;
use vstd::prelude::*;

verus! {

/// A container that grows and shrinks at its front.
pub trait FrontOrientedContainer<T>: SizedContainer {
    /// The elements from front to back.
    spec fn front_view(&self) -> Seq<T>;

    /// The size is the number of elements.
    proof fn lemma_front_size(&self)
        requires
            self.wf(),
        ensures
            self.spec_size() == self.front_view().len(),
    ;

    fn push_front(&mut self, element: T)
        requires
            old(self).wf(),
            old(self).can_grow(),
        ensures
            final(self).wf(),
            final(self).front_view() == seq![element] + old(self).front_view(),
    ;

    fn pop_front(&mut self) -> (popped: Option<T>)
        requires
            old(self).wf(),
        ensures
            final(self).wf(),
            popped == if old(self).front_view().len() > 0 {
                Some(old(self).front_view().first())
            } else {
                None
            },
            final(self).front_view() == if old(self).front_view().len() > 0 {
                old(self).front_view().drop_first()
            } else {
                old(self).front_view()
            },
    ;

    fn front(&self) -> (first: Option<&T>)
        requires
            self.wf(),
        ensures
            first == if self.front_view().len() > 0 {
                Some(&self.front_view().first())
            } else {
                None
            },
    ;
}

/// A container that grows and shrinks at its back.
pub trait BackOrientedContainer<T>: SizedContainer {
    /// The elements from front to back.
    spec fn back_view(&self) -> Seq<T>;

    /// The size is the number of elements.
    proof fn lemma_back_size(&self)
        requires
            self.wf(),
        ensures
            self.spec_size() == self.back_view().len(),
    ;

    fn push_back(&mut self, element: T)
        requires
            old(self).wf(),
            old(self).can_grow(),
        ensures
            final(self).wf(),
            final(self).back_view() == old(self).back_view().push(element),
    ;

    fn back(&self) -> (last: Option<&T>)
        requires
            self.wf(),
        ensures
            last == if self.back_view().len() > 0 {
                Some(&self.back_view().last())
            } else {
                None
            },
    ;

    fn pop_back(&mut self) -> (popped: Option<T>)
        requires
            old(self).wf(),
        ensures
            final(self).wf(),
            popped == if old(self).back_view().len() > 0 {
                Some(old(self).back_view().last())
            } else {
                None
            },
            final(self).back_view() == if old(self).back_view().len() > 0 {
                old(self).back_view().drop_last()
            } else {
                old(self).back_view()
            },
    ;
}

/// A double-ended queue: both ends work on the same sequence.
pub trait Deque<T>: FrontOrientedContainer<T> + BackOrientedContainer<T> {
    proof fn lemma_one_sequence(&self)
        requires
            self.wf(),
        ensures
            self.front_view() == self.back_view(),
    ;
}

} // verus!
