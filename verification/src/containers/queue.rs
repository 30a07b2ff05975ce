use crate::containers::traits::FillableContainer;
use crate::containers::traits::ReadableContainer;
use crate::containers::traits::SizedContainer;
use crate::subcontainers::traits::Deque;
use core::marker::PhantomData;
use vstd::prelude::*;

verus! {

/// A first-in first-out queue over any double-ended queue.
pub struct Queue<Element, Subcontainer> where Subcontainer: Default + Deque<Element> {
    subcontainer: Subcontainer,
    _marker: PhantomData<Element>,
}

/// Every value that `Subcontainer::default` makes is well formed and empty.
pub open spec fn default_is_empty<Element, Subcontainer>() -> bool where
    Subcontainer: Default + Deque<Element>,
 {
    forall|made: Subcontainer| #[trigger]
        call_ensures(Subcontainer::default, (), made) ==> made.wf() && made.back_view()
            == Seq::<Element>::empty()
}

impl<Element, Subcontainer> Queue<Element, Subcontainer> where
    Subcontainer: Default + Deque<Element>,
 {
    /// An empty queue.
    pub fn new() -> (made: Self)
        ensures
            default_is_empty::<Element, Subcontainer>() ==> made.wf() && made.pending()
                == Seq::<Element>::empty() && made.filled() == Seq::<Element>::empty(),
    {
        Default::default()
    }
}

impl<Element, Subcontainer> Default for Queue<Element, Subcontainer> where
    Subcontainer: Default + Deque<Element>,
 {
    fn default() -> (made: Self)
        ensures
            default_is_empty::<Element, Subcontainer>() ==> made.wf() && made.pending()
                == Seq::<Element>::empty() && made.filled() == Seq::<Element>::empty(),
    {
        let made = Self { subcontainer: Default::default(), _marker: PhantomData };
        proof {
            if default_is_empty::<Element, Subcontainer>() {
                made.subcontainer.lemma_one_sequence();
                assert(made.pending() =~= Seq::<Element>::empty());
            }
        }
        made
    }
}

impl<Element, Subcontainer> SizedContainer for Queue<Element, Subcontainer> where
    Subcontainer: Default + Deque<Element>,
 {
    closed spec fn wf(&self) -> bool {
        self.subcontainer.wf()
    }

    closed spec fn spec_size(&self) -> nat {
        self.subcontainer.spec_size()
    }

    closed spec fn can_grow(&self) -> bool {
        self.subcontainer.can_grow()
    }

    proof fn lemma_can_grow(&self) {
        self.subcontainer.lemma_can_grow();
    }

    fn size(&self) -> (n: usize) {
        self.subcontainer.size()
    }
}

impl<Element, Subcontainer> FillableContainer<Element> for Queue<Element, Subcontainer> where
    Subcontainer: Default + Deque<Element>,
 {
    closed spec fn filled(&self) -> Seq<Element> {
        self.subcontainer.back_view()
    }

    fn push(&mut self, element: Element) -> (this: &mut Self) {
        proof {
            self.subcontainer.lemma_back_size();
        }
        self.subcontainer.push_back(element);
        proof {
            self.subcontainer.lemma_back_size();
        }
        self
    }
}

impl<Element, Subcontainer> ReadableContainer<Element> for Queue<Element, Subcontainer> where
    Subcontainer: Default + Deque<Element>,
 {
    closed spec fn pending(&self) -> Seq<Element> {
        self.subcontainer.front_view()
    }

    proof fn lemma_pending_size(&self) {
        self.subcontainer.lemma_front_size();
    }

    fn pivot(&self) -> (next: Option<&Element>) {
        self.subcontainer.front()
    }

    fn pop(&mut self) -> (next: Option<Element>) {
        let ghost before = self.subcontainer.front_view();
        self.subcontainer.pop_front()
    }
}

impl<Element, Subcontainer> Queue<Element, Subcontainer> where
    Subcontainer: Default + Deque<Element>,
 {
    /// What was pushed and is still held comes out in the same order.
    pub proof fn lemma_order(&self)
        requires
            self.wf(),
        ensures
            self.pending() == self.filled(),
    {
        self.subcontainer.lemma_one_sequence();
    }
}

} // verus!
