use crate::containers::traits::FillableContainer;
use crate::containers::traits::ReadableContainer;
use crate::containers::traits::SizedContainer;
use crate::subcontainers::traits::Deque;
use core::marker::PhantomData;
use vstd::prelude::*;

verus! {

/// A last-in first-out stack over any double-ended queue.
pub struct Stack<Element, Subcontainer> where Subcontainer: Default + Deque<Element> {
    subcontainer: Subcontainer,
    _marker: PhantomData<Element>,
}

/// Every value that `Subcontainer::default` makes is well formed and empty.
pub open spec fn default_is_empty<Element, Subcontainer>() -> bool where
    Subcontainer: Default + Deque<Element>,
 {
    forall|made: Subcontainer| #[trigger]
        call_ensures(Subcontainer::default, (), made) ==> made.wf() && made.back_view()
            == Seq::<Element>::empty()
}

impl<Element, Subcontainer> Stack<Element, Subcontainer> where
    Subcontainer: Default + Deque<Element>,
 {
    /// An empty stack.
    pub fn new() -> (made: Self)
        ensures
            default_is_empty::<Element, Subcontainer>() ==> made.wf() && made.pending()
                == Seq::<Element>::empty() && made.filled() == Seq::<Element>::empty(),
    {
        Default::default()
    }
}

impl<Element, Subcontainer> Default for Stack<Element, Subcontainer> where
    Subcontainer: Default + Deque<Element>,
 {
    fn default() -> (made: Self)
        ensures
            default_is_empty::<Element, Subcontainer>() ==> made.wf() && made.pending()
                == Seq::<Element>::empty() && made.filled() == Seq::<Element>::empty(),
    {
        let made = Self { subcontainer: Default::default(), _marker: PhantomData };
        proof {
            if default_is_empty::<Element, Subcontainer>() {
                made.subcontainer.lemma_one_sequence();
                assert(made.pending() =~= Seq::<Element>::empty());
            }
        }
        made
    }
}

impl<Element, Subcontainer> SizedContainer for Stack<Element, Subcontainer> where
    Subcontainer: Default + Deque<Element>,
 {
    closed spec fn wf(&self) -> bool {
        self.subcontainer.wf()
    }

    closed spec fn spec_size(&self) -> nat {
        self.subcontainer.spec_size()
    }

    closed spec fn can_grow(&self) -> bool {
        self.subcontainer.can_grow()
    }

    proof fn lemma_can_grow(&self) {
        self.subcontainer.lemma_can_grow();
    }

    fn size(&self) -> (n: usize) {
        self.subcontainer.size()
    }
}

impl<Element, Subcontainer> FillableContainer<Element> for Stack<Element, Subcontainer> where
    Subcontainer: Default + Deque<Element>,
 {
    closed spec fn filled(&self) -> Seq<Element> {
        self.subcontainer.back_view()
    }

    fn push(&mut self, element: Element) -> (this: &mut Self) {
        proof {
            self.subcontainer.lemma_back_size();
        }
        self.subcontainer.push_back(element);
        proof {
            self.subcontainer.lemma_back_size();
        }
        self
    }
}

impl<Element, Subcontainer> ReadableContainer<Element> for Stack<Element, Subcontainer> where
    Subcontainer: Default + Deque<Element>,
 {
    closed spec fn pending(&self) -> Seq<Element> {
        self.subcontainer.back_view().reverse()
    }

    proof fn lemma_pending_size(&self) {
        self.subcontainer.lemma_back_size();
    }

    fn pivot(&self) -> (next: Option<&Element>) {
        proof {
            let s = self.subcontainer.back_view();
            if s.len() > 0 {
                assert(s.reverse()[0] == s.last());
            }
        }
        self.subcontainer.back()
    }

    fn pop(&mut self) -> (next: Option<Element>) {
        let ghost before = self.subcontainer.back_view();
        proof {
            if before.len() > 0 {
                assert(before.reverse()[0] == before.last());
                assert(before.drop_last().reverse() =~= before.reverse().drop_first());
            }
        }
        self.subcontainer.pop_back()
    }
}

impl<Element, Subcontainer> Stack<Element, Subcontainer> where
    Subcontainer: Default + Deque<Element>,
 {
    /// What was pushed and is still held comes out in the opposite order.
    pub proof fn lemma_order(&self)
        requires
            self.wf(),
        ensures
            self.pending() == self.filled().reverse(),
    {
        self.subcontainer.lemma_one_sequence();
    }
}

} // verus!
