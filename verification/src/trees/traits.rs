use crate::order::total_order;
use crate::trees::model::Slot;
use crate::trees::model::TreeModel;
use vstd::prelude::*;

verus! {

/// An ordered map from keys to values.
pub trait Tree<Key: Ord, Value> {
    /// The invariant of the representation. It holds only of a tree whose
    /// keys are totally ordered.
    spec fn wf(&self) -> bool;

    /// The keys of a well-formed tree are totally ordered.
    proof fn lemma_key_order(&self)
        requires
            self.wf(),
        ensures
            total_order::<Key>(),
    ;

    /// The mapping that the tree holds.
    spec fn content(&self) -> Map<Key, Value>;

    /// One more node fits within the limits of the machine.
    spec fn has_room(&self) -> bool;

    /// Stores `val` under `key`, in place of a value already there.
    fn insert(&mut self, key: Key, val: Value)
        requires
            old(self).wf(),
            old(self).has_room(),
        ensures
            final(self).wf(),
            final(self).content() == old(self).content().insert(key, val),
    ;

    /// The value stored under `key`.
    fn get(&self, key: &Key) -> (found: Option<&Value>)
        requires
            self.wf(),
        ensures
            found == if self.content().contains_key(*key) {
                Some(&self.content()[*key])
            } else {
                None
            },
    ;
}

/// A tree whose nodes are reached by an identity that the tree hands out.
pub trait NodeIdentifiableTree<Key: Ord, Value, NodeId>: Tree<Key, Value> {
    /// The nodes and their links.
    spec fn model(&self) -> TreeModel<Key, Value, NodeId>;

    /// A well-formed store is a binary search tree, and holds what its nodes
    /// hold.
    proof fn lemma_model(&self)
        requires
            self.wf(),
        ensures
            self.model().is_search_tree(),
            self.content() == self.model().content(),
    ;

    /// Stores `val` under `key` and returns the node that holds it. An
    /// existing node keeps its place and its links; a new node becomes a leaf
    /// in the empty position where a search for `key` ends.
    fn insert_and_get_id(&mut self, key: Key, val: Value) -> (id: NodeId)
        requires
            old(self).wf(),
            old(self).has_room(),
        ensures
            final(self).wf(),
            final(self).content() == old(self).content().insert(key, val),
            old(self).model().has_key(key) ==> id == old(self).model().node_of(key) && final(self).model() == old(self).model().with_value(id, val),
            !old(self).model().has_key(key) ==> !old(self).model().has(id) && exists|
                slot: Slot<NodeId>,
            |
                {
                    &&& old(self).model().slot_free(slot)
                    &&& old(self).model().slot_takes(slot, key)
                    &&& final(self).model() == #[trigger] old(self).model().with_leaf(
                        slot,
                        id,
                        key,
                        val,
                    )
                },
    ;

    /// The key of a node; none for an identity that names no node.
    fn get_key_by_id(&self, node_id: NodeId) -> (found: Option<&Key>)
        requires
            self.wf(),
        ensures
            found == if self.model().has(node_id) {
                Some(&self.model().key(node_id))
            } else {
                None
            },
    ;

    /// The payload of a node; none for an identity that names no node.
    fn get_by_id(&self, node_id: NodeId) -> (found: Option<&Value>)
        requires
            self.wf(),
        ensures
            found == match self.model().payload_of(node_id) {
                Some(v) => Some(&v),
                None => None,
            },
    ;

    /// The left child of a node; none without such a child, and for an
    /// identity that names no node.
    fn get_left_son_id(&self, node_id: NodeId) -> (son: Option<NodeId>)
        requires
            self.wf(),
        ensures
            son == self.model().left_of(node_id),
    ;

    /// The right child of a node; none without such a child, and for an
    /// identity that names no node.
    fn get_right_son_id(&self, node_id: NodeId) -> (son: Option<NodeId>)
        requires
            self.wf(),
        ensures
            son == self.model().right_of(node_id),
    ;

    /// The root; none in an empty tree.
    fn get_root_id(&self) -> (root: Option<NodeId>)
        requires
            self.wf(),
        ensures
            root == self.model().root,
    ;

    /// Access to the payload of a node for writing. The links stay as they
    /// are, whatever is written.
    fn get_by_id_mut(&mut self, node_id: NodeId) -> (found: Option<&mut Value>)
        requires
            old(self).wf(),
        ensures
            final(self).wf(),
            match found {
                Some(v) => old(self).model().payload_of(node_id) == Some(*v) && final(self).model() == old(self).model().with_value(node_id, *final(v)),
                None => old(self).model().payload_of(node_id) is None && final(self).model()
                    == old(self).model(),
            },
    ;

    /// Access for writing to the payload of the left child of `node_id`.
    fn get_left_son_mut(&mut self, node_id: NodeId) -> (found: Option<&mut Value>)
        requires
            old(self).wf(),
        ensures
            final(self).wf(),
            match found {
                Some(v) => old(self).model().payload_at(old(self).model().left_of(node_id))
                    == Some(*v) && final(self).model() == old(self).model().written(
                    old(self).model().left_of(node_id),
                    *final(v),
                ),
                None => old(self).model().payload_at(old(self).model().left_of(node_id)) is None
                    && final(self).model() == old(self).model(),
            },
    ;

    /// Access for writing to the payload of the right child of `node_id`.
    fn get_right_son_mut(&mut self, node_id: NodeId) -> (found: Option<&mut Value>)
        requires
            old(self).wf(),
        ensures
            final(self).wf(),
            match found {
                Some(v) => old(self).model().payload_at(old(self).model().right_of(node_id))
                    == Some(*v) && final(self).model() == old(self).model().written(
                    old(self).model().right_of(node_id),
                    *final(v),
                ),
                None => old(self).model().payload_at(old(self).model().right_of(node_id)) is None
                    && final(self).model() == old(self).model(),
            },
    ;

    /// Access for writing to the payload of the root.
    fn get_root_mut(&mut self) -> (found: Option<&mut Value>)
        requires
            old(self).wf(),
        ensures
            final(self).wf(),
            match found {
                Some(v) => old(self).model().payload_at(old(self).model().root) == Some(*v)
                    && final(self).model() == old(self).model().written(
                    old(self).model().root,
                    *final(v),
                ),
                None => old(self).model().payload_at(old(self).model().root) is None && final(self).model() == old(self).model(),
            },
    ;

    /// Replaces the payload of node `node_id` by what `modifier` makes of it.
    /// An unknown `node_id` changes nothing, and `modifier` is not called.
    fn modify<F: FnOnce(&Value) -> Value>(&mut self, node_id: NodeId, modifier: F)
        requires
            old(self).wf(),
            old(self).model().has(node_id) ==> modifier.requires(
                (&old(self).model().nodes[node_id].value,),
            ),
        ensures
            final(self).wf(),
            !old(self).model().has(node_id) ==> final(self).model() == old(self).model(),
            old(self).model().has(node_id) ==> final(self).model() == old(self).model().with_value(
                node_id,
                final(self).model().nodes[node_id].value,
            ) && modifier.ensures(
                (&old(self).model().nodes[node_id].value,),
                final(self).model().nodes[node_id].value,
            ),
    ;
}

/// A tree whose nodes know their parents.
pub trait ParentifiedTree<Key: Ord, Value, NodeId>: NodeIdentifiableTree<Key, Value, NodeId> {
    /// The parent of a node; none for the root, and for an identity that
    /// names no node.
    fn get_parent_id(&self, node_id: NodeId) -> (parent: Option<NodeId>)
        requires
            self.wf(),
        ensures
            parent == self.model().parent_of(node_id),
    ;

    /// The left child of the grandparent of a node.
    fn get_left_uncle_id(&self, node_id: NodeId) -> (uncle: Option<NodeId>)
        requires
            self.wf(),
        ensures
            uncle == self.model().left_uncle_of(node_id),
    ;

    /// The right child of the grandparent of a node.
    fn get_right_uncle_id(&self, node_id: NodeId) -> (uncle: Option<NodeId>)
        requires
            self.wf(),
        ensures
            uncle == self.model().right_uncle_of(node_id),
    ;

    /// Whether a node is the left child of its parent; false for the root.
    fn is_left_son(&self, node_id: NodeId) -> (answer: bool)
        requires
            self.wf(),
        ensures
            answer == self.model().is_left_child(node_id),
    ;

    /// Whether a node is the right child of its parent; false for the root.
    fn is_right_son(&self, node_id: NodeId) -> (answer: bool)
        requires
            self.wf(),
        ensures
            answer == self.model().is_right_child(node_id),
    ;

    /// The payload of the parent of a node.
    fn get_parent(&self, node_id: NodeId) -> (found: Option<&Value>)
        requires
            self.wf(),
        ensures
            found == match self.model().payload_at(self.model().parent_of(node_id)) {
                Some(v) => Some(&v),
                None => None,
            },
    ;

    /// Access for writing to the payload of the parent of `node_id`.
    fn get_parent_mut(&mut self, node_id: NodeId) -> (found: Option<&mut Value>)
        requires
            old(self).wf(),
        ensures
            final(self).wf(),
            match found {
                Some(v) => old(self).model().payload_at(old(self).model().parent_of(node_id))
                    == Some(*v) && final(self).model() == old(self).model().written(
                    old(self).model().parent_of(node_id),
                    *final(v),
                ),
                None => old(self).model().payload_at(old(self).model().parent_of(node_id)) is None
                    && final(self).model() == old(self).model(),
            },
    ;

    /// Access for writing to the payload of the left child of the grandparent of `node_id`.
    fn get_left_uncle_mut(&mut self, node_id: NodeId) -> (found: Option<&mut Value>)
        requires
            old(self).wf(),
        ensures
            final(self).wf(),
            match found {
                Some(v) => old(self).model().payload_at(old(self).model().left_uncle_of(node_id))
                    == Some(*v) && final(self).model() == old(self).model().written(
                    old(self).model().left_uncle_of(node_id),
                    *final(v),
                ),
                None => old(self).model().payload_at(old(self).model().left_uncle_of(node_id)) is None
                    && final(self).model() == old(self).model(),
            },
    ;

    /// Access for writing to the payload of the right child of the grandparent of `node_id`.
    fn get_right_uncle_mut(&mut self, node_id: NodeId) -> (found: Option<&mut Value>)
        requires
            old(self).wf(),
        ensures
            final(self).wf(),
            match found {
                Some(v) => old(self).model().payload_at(old(self).model().right_uncle_of(node_id))
                    == Some(*v) && final(self).model() == old(self).model().written(
                    old(self).model().right_uncle_of(node_id),
                    *final(v),
                ),
                None => old(self).model().payload_at(old(self).model().right_uncle_of(node_id)) is None
                    && final(self).model() == old(self).model(),
            },
    ;
}

/// A tree that can rotate about a node.
pub trait RotatableTree<Key: Ord, Value, NodeId>: NodeIdentifiableTree<Key, Value, NodeId> {
    /// Lifts the left child of `node_id` into its place. Without such a
    /// child the tree stays as it is. The tree holds the same mapping after
    /// as before.
    fn right_rotate(&mut self, node_id: NodeId)
        requires
            old(self).wf(),
        ensures
            final(self).wf(),
            final(self).model() == if old(self).model().can_rotate_right(node_id) {
                old(self).model().rotated_right(node_id)
            } else {
                old(self).model()
            },
            final(self).content() == old(self).content(),
    ;

    /// Lifts the right child of `node_id` into its place. Without such a
    /// child the tree stays as it is. The tree holds the same mapping after
    /// as before.
    fn left_rotate(&mut self, node_id: NodeId)
        requires
            old(self).wf(),
        ensures
            final(self).wf(),
            final(self).model() == if old(self).model().can_rotate_left(node_id) {
                old(self).model().rotated_left(node_id)
            } else {
                old(self).model()
            },
            final(self).content() == old(self).content(),
    ;
}

} // verus!
