use crate::order::total_order;
use crate::trees::array_binary_search_tree::ArrayBinarySearchTree;
use crate::trees::traits::Tree;
use vstd::prelude::*;

verus! {

const RED: bool = true;

/// What the tree keeps under a key: the caller's value and a colour.
struct Payload<Value> {
    val: Value,
    color: bool,
}

/// An ordered map as a binary search tree laid out in one array, whose
/// nodes carry a colour beside their value. Every node is made red.
pub struct BinaryTree<Key: Ord, Value> {
    array: ArrayBinarySearchTree<Key, Payload<Value>>,
}

/// The values of the payloads, without the colours.
spec fn values_of<Key, Value>(payloads: Map<Key, Payload<Value>>) -> Map<Key, Value> {
    payloads.map_values(|payload: Payload<Value>| payload.val)
}

impl<Key: Ord, Value> Default for BinaryTree<Key, Value> {
    fn default() -> (tree: Self)
        ensures
            total_order::<Key>() ==> tree.wf(),
            tree.spec_capacity() == 2,
            tree.content() == Map::<Key, Value>::empty(),
    {
        let tree = Self { array: ArrayBinarySearchTree::default() };
        proof {
            assert(tree.content() =~= Map::<Key, Value>::empty());
        }
        tree
    }
}

impl<Key: Ord, Value> BinaryTree<Key, Value> {
    /// The invariant of the representation. It holds only of a tree whose
    /// keys are totally ordered.
    pub closed spec fn wf(&self) -> bool {
        self.array.wf()
    }

    /// The keys of a well-formed tree are totally ordered.
    pub proof fn lemma_key_order(&self)
        requires
            self.wf(),
        ensures
            total_order::<Key>(),
    {
        self.array.lemma_key_order();
    }

    /// The mapping that the tree holds.
    pub closed spec fn content(&self) -> Map<Key, Value> {
        values_of(self.array.content())
    }

    /// The number of cells of the array. An insertion leaves it as it is or
    /// doubles it.
    pub closed spec fn spec_capacity(&self) -> nat {
        self.array.spec_capacity()
    }

    /// The array can be doubled once more.
    pub open spec fn has_room(&self) -> bool {
        self.spec_capacity() * 4 <= usize::MAX
    }

    /// Stores `val` under `key`, in place of a value already there.
    pub fn insert(&mut self, key: Key, val: Value)
        requires
            old(self).wf(),
            old(self).has_room(),
        ensures
            final(self).wf(),
            final(self).content() == old(self).content().insert(key, val),
            final(self).spec_capacity() == old(self).spec_capacity() || final(self).spec_capacity()
                == 2 * old(self).spec_capacity(),
    {
        let payload = Payload { val, color: RED };
        self.array.insert(key, payload);
        proof {
            assert(values_of(old(self).array.content().insert(key, payload)) =~= values_of(
                old(self).array.content(),
            ).insert(key, val));
        }
    }

    /// The value stored under `key`.
    pub fn get(&self, key: &Key) -> (found: Option<&Value>)
        requires
            self.wf(),
        ensures
            found == if self.content().contains_key(*key) {
                Some(&self.content()[*key])
            } else {
                None
            },
    {
        match self.array.get(key) {
            Some(payload) => Some(&payload.val),
            None => None,
        }
    }
}

} // verus!
