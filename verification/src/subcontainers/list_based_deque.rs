use crate::containers::traits::SizedContainer;
use crate::subcontainers::traits::BackOrientedContainer;
use crate::subcontainers::traits::Deque;
use crate::subcontainers::traits::FrontOrientedContainer;
use vstd::prelude::*;

verus! {

struct Node<T> {
    element: Option<T>,
    next_node: Option<usize>,
    prev_node: Option<usize>,
}

/// A double-ended queue in a doubly linked list. The nodes lie in one
/// growable array and name their neighbours by index; the slot of a node that
/// left the list is used again.
pub struct ListBasedDeque<T> {
    size: usize,
    head: Option<usize>,
    tail: Option<usize>,
    nodes: Vec<Node<T>>,
    free: Vec<usize>,
    chain: Ghost<Seq<usize>>,
}

impl<T> View for ListBasedDeque<T> {
    type V = Seq<T>;

    /// The elements from front to back.
    closed spec fn view(&self) -> Seq<T> {
        Seq::new(self.chain@.len(), |i: int| self.nodes@[self.chain@[i] as int].element.unwrap())
    }
}

impl<T> ListBasedDeque<T> {
    /// An empty deque.
    pub fn new() -> (deque: Self)
        ensures
            deque.wf(),
            deque@ == Seq::<T>::empty(),
    {
        Default::default()
    }

    /// The link that the node at place `i` of the chain has to place `j`.
    spec fn link(&self, j: int) -> Option<usize> {
        if 0 <= j < self.chain@.len() {
            Some(self.chain@[j])
        } else {
            None
        }
    }

    spec fn linked(&self, i: int) -> bool {
        let node = self.nodes@[self.chain@[i] as int];
        &&& self.chain@[i] < self.nodes@.len()
        &&& node.element is Some
        &&& node.prev_node == self.link(i - 1)
        &&& node.next_node == self.link(i + 1)
    }

    spec fn inv(&self) -> bool {
        &&& self.size == self.chain@.len()
        &&& forall|i: int| 0 <= i < self.chain@.len() ==> #[trigger] self.linked(i)
        &&& forall|i: int, j: int|
            0 <= i < j < self.chain@.len() ==> self.chain@[i] != self.chain@[j]
        &&& self.head == self.link(0)
        &&& self.tail == self.link(self.chain@.len() - 1)
        &&& forall|k: int| 0 <= k < self.free@.len() ==> #[trigger] self.free@[k] < self.nodes@.len()
        &&& forall|k: int, i: int|
            0 <= k < self.free@.len() && 0 <= i < self.chain@.len() ==> self.free@[k]
                != self.chain@[i]
        &&& forall|k: int, l: int| 0 <= k < l < self.free@.len() ==> self.free@[k] != self.free@[l]
    }

    /// Puts a node into a slot that is not in use and returns the slot.
    fn place_node(&mut self, node: Node<T>) -> (ndx: usize)
        requires
            old(self).inv(),
        ensures
            ndx < final(self).nodes@.len(),
            final(self).nodes@[ndx as int] == node,
            final(self).nodes@.len() >= old(self).nodes@.len(),
            forall|i: int|
                0 <= i < old(self).nodes@.len() && i != ndx ==> #[trigger] final(self).nodes@[i]
                    == old(self).nodes@[i],
            forall|i: int| 0 <= i < old(self).chain@.len() ==> old(self).chain@[i] != ndx,
            final(self).chain == old(self).chain,
            final(self).size == old(self).size,
            final(self).head == old(self).head,
            final(self).tail == old(self).tail,
            forall|k: int|
                0 <= k < final(self).free@.len() ==> #[trigger] final(self).free@[k] < final(self).nodes@.len() && final(self).free@[k] != ndx,
            forall|k: int, i: int|
                0 <= k < final(self).free@.len() && 0 <= i < final(self).chain@.len() ==> final(self).free@[k] != final(self).chain@[i],
            forall|k: int, l: int|
                0 <= k < l < final(self).free@.len() ==> final(self).free@[k] != final(self).free@[l],
    {
        match self.free.pop() {
            Some(ndx) => {
                assert(ndx == old(self).free@[old(self).free@.len() - 1]);
                self.nodes[ndx] = node;
                ndx
            },
            None => {
                let ndx = self.nodes.len();
                self.nodes.push(node);
                assert forall|i: int| 0 <= i < old(self).chain@.len() implies old(self).chain@[i]
                    != ndx by {
                    assert(old(self).linked(i));
                }
                ndx
            },
        }
    }
}

impl<T> Default for ListBasedDeque<T> {
    fn default() -> (deque: Self)
        ensures
            deque.wf(),
            deque@ == Seq::<T>::empty(),
    {
        let deque = Self {
            size: 0,
            head: None,
            tail: None,
            nodes: Vec::new(),
            free: Vec::new(),
            chain: Ghost(Seq::empty()),
        };
        proof {
            assert(deque@ =~= Seq::<T>::empty());
        }
        deque
    }
}

impl<T> SizedContainer for ListBasedDeque<T> {
    closed spec fn wf(&self) -> bool {
        self.inv()
    }

    closed spec fn spec_size(&self) -> nat {
        self.size as nat
    }

    closed spec fn can_grow(&self) -> bool {
        self.size < usize::MAX
    }

    proof fn lemma_can_grow(&self) {
    }

    fn size(&self) -> (n: usize) {
        self.size
    }
}

impl<T> FrontOrientedContainer<T> for ListBasedDeque<T> {
    open spec fn front_view(&self) -> Seq<T> {
        self@
    }

    proof fn lemma_front_size(&self) {
    }

    fn front(&self) -> (first: Option<&T>) {
        match self.head {
            Some(head) => {
                assert(self.linked(0));
                self.nodes[head].element.as_ref()
            },
            None => None,
        }
    }

    fn push_front(&mut self, element: T) {
        let ghost before = *self;
        let new_head = self.place_node(
            Node { element: Some(element), next_node: self.head, prev_node: None },
        );
        if let Some(old_head) = self.head {
            assert(before.linked(0));
            self.nodes[old_head].prev_node = Some(new_head);
        }
        self.head = Some(new_head);
        if self.tail.is_none() {
            self.tail = Some(new_head);
        }
        self.size += 1;
        proof {
            self.chain@ = seq![new_head] + before.chain@;
            assert forall|i: int| 0 <= i < self.chain@.len() implies #[trigger] self.linked(i) by {
                if i > 0 {
                    assert(before.linked(i - 1));
                    assert(self.chain@[i] == before.chain@[i - 1]);
                }
            }
            assert forall|i: int| 0 <= i < self@.len() implies self@[i] == (seq![element]
                + before@)[i] by {
                if i > 0 {
                    assert(before.linked(i - 1));
                    assert(self.chain@[i] == before.chain@[i - 1]);
                }
            }
            assert(self@ =~= seq![element] + before@);
        }
    }

    fn pop_front(&mut self) -> (popped: Option<T>) {
        let ghost before = *self;
        match self.head {
            Some(old_head) => {
                assert(before.linked(0));
                let element = self.nodes[old_head].element.take();
                let next = self.nodes[old_head].next_node;
                match next {
                    Some(new_head) => {
                        assert(before.linked(1));
                        self.nodes[new_head].prev_node = None;
                    },
                    None => {
                        self.tail = None;
                    },
                }
                self.head = next;
                self.free.push(old_head);
                self.size -= 1;
                proof {
                    self.chain@ = before.chain@.drop_first();
                    assert forall|i: int| 0 <= i < self.chain@.len() implies #[trigger] self.linked(
                        i,
                    ) by {
                        assert(before.linked(i + 1));
                        assert(self.chain@[i] == before.chain@[i + 1]);
                    }
                    assert forall|i: int| 0 <= i < self@.len() implies self@[i]
                        == before@.drop_first()[i] by {
                        assert(before.linked(i + 1));
                        assert(self.chain@[i] == before.chain@[i + 1]);
                    }
                    assert(self@ =~= before@.drop_first());
                }
                element
            },
            None => None,
        }
    }
}

impl<T> BackOrientedContainer<T> for ListBasedDeque<T> {
    open spec fn back_view(&self) -> Seq<T> {
        self@
    }

    proof fn lemma_back_size(&self) {
    }

    fn push_back(&mut self, element: T) {
        let ghost before = *self;
        let new_tail = self.place_node(
            Node { element: Some(element), next_node: None, prev_node: self.tail },
        );
        if let Some(old_tail) = self.tail {
            assert(before.linked(before.chain@.len() - 1));
            self.nodes[old_tail].next_node = Some(new_tail);
        }
        self.tail = Some(new_tail);
        if self.head.is_none() {
            self.head = Some(new_tail);
        }
        self.size += 1;
        proof {
            self.chain@ = before.chain@.push(new_tail);
            assert forall|i: int| 0 <= i < self.chain@.len() implies #[trigger] self.linked(i) by {
                if i < before.chain@.len() {
                    assert(before.linked(i));
                }
            }
            assert forall|i: int| 0 <= i < self@.len() implies self@[i] == before@.push(
                element,
            )[i] by {
                if i < before.chain@.len() {
                    assert(before.linked(i));
                }
            }
            assert(self@ =~= before@.push(element));
        }
    }

    fn back(&self) -> (last: Option<&T>) {
        match self.tail {
            Some(tail) => {
                assert(self.linked(self.chain@.len() - 1));
                self.nodes[tail].element.as_ref()
            },
            None => None,
        }
    }

    fn pop_back(&mut self) -> (popped: Option<T>) {
        let ghost before = *self;
        match self.tail {
            Some(old_tail) => {
                assert(before.linked(before.chain@.len() - 1));
                let element = self.nodes[old_tail].element.take();
                let prev = self.nodes[old_tail].prev_node;
                match prev {
                    Some(new_tail) => {
                        assert(before.linked(before.chain@.len() - 2));
                        self.nodes[new_tail].next_node = None;
                    },
                    None => {
                        self.head = None;
                    },
                }
                self.tail = prev;
                self.free.push(old_tail);
                self.size -= 1;
                proof {
                    self.chain@ = before.chain@.drop_last();
                    assert forall|i: int| 0 <= i < self.chain@.len() implies #[trigger] self.linked(
                        i,
                    ) by {
                        assert(before.linked(i));
                    }
                    assert forall|i: int| 0 <= i < self@.len() implies self@[i]
                        == before@.drop_last()[i] by {
                        assert(before.linked(i));
                    }
                    assert(self@ =~= before@.drop_last());
                }
                element
            },
            None => None,
        }
    }
}

impl<T> Deque<T> for ListBasedDeque<T> {
    proof fn lemma_one_sequence(&self) {
    }
}

} // verus!
