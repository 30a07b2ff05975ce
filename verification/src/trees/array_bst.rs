use crate::order::key_lt;
use crate::order::less;
use crate::order::total_order;
use crate::trees::model::lemma_content_with_leaf;
use crate::trees::model::lemma_content_with_value;
use crate::trees::model::Layout;
use crate::trees::model::NodeModel;
use crate::trees::model::Slot;
use crate::trees::model::TreeModel;
use crate::trees::model::lemma_rotated_left;
use crate::trees::model::lemma_rotated_right;
use crate::trees::model::lemma_with_value;
use crate::trees::traits::NodeIdentifiableTree;
use crate::trees::traits::ParentifiedTree;
use crate::trees::traits::RotatableTree;
use crate::trees::traits::Tree;
use vstd::prelude::*;

verus! {

/// The identity of a node of an `ArrayBST`: its index in the store.
#[derive(Debug, Clone, Copy, PartialEq, Eq, Structural)]
pub struct NodeId {
    node_ndx: usize,
}

impl NodeId {
    /// The index that the identity stands for.
    pub closed spec fn spec_index(self) -> usize {
        self.node_ndx
    }
}

impl Default for NodeId {
    /// The identity with index 0.
    fn default() -> (id: Self)
        ensures
            id.spec_index() == 0,
    {
        NodeId { node_ndx: 0 }
    }
}

struct Node<Key, Value> {
    key: Key,
    val: Value,
    id: NodeId,
    parent_id: Option<NodeId>,
    left_son_id: Option<NodeId>,
    right_son_id: Option<NodeId>,
}

enum SonType {
    Left,
    Right,
}

enum InsertionPlace {
    Root,
    SonOf(NodeId, SonType),
    NodeAlreadyExists(NodeId),
}

/// A binary search tree whose nodes lie in one growable array and name each
/// other by index.
pub struct ArrayBST<Key: Ord, Value> {
    array: Vec<Node<Key, Value>>,
    root_id: Option<NodeId>,
}

impl<Key, Value> Node<Key, Value> {
    spec fn with_val(self, val: Value) -> Self {
        Node { val, ..self }
    }

    spec fn as_model(self) -> NodeModel<Key, Value, NodeId> {
        NodeModel {
            key: self.key,
            value: self.val,
            parent: self.parent_id,
            left: self.left_son_id,
            right: self.right_son_id,
        }
    }
}

impl InsertionPlace {
    spec fn slot(self) -> Slot<NodeId> {
        match self {
            InsertionPlace::Root => Slot::Root,
            InsertionPlace::SonOf(p, SonType::Left) => Slot::LeftOf(p),
            InsertionPlace::SonOf(p, SonType::Right) => Slot::RightOf(p),
            InsertionPlace::NodeAlreadyExists(_) => Slot::Root,
        }
    }
}

impl<Key: Ord, Value> ArrayBST<Key, Value> {
    spec fn graph_of(array: Seq<Node<Key, Value>>, root: Option<NodeId>) -> TreeModel<
        Key,
        Value,
        NodeId,
    > {
        TreeModel {
            nodes: Map::new(
                |id: NodeId| id.node_ndx < array.len(),
                |id: NodeId| array[id.node_ndx as int].as_model(),
            ),
            root,
        }
    }

    spec fn graph(&self) -> TreeModel<Key, Value, NodeId> {
        Self::graph_of(self.array@, self.root_id)
    }

    proof fn lemma_graph_with_value(
        array: Seq<Node<Key, Value>>,
        root: Option<NodeId>,
        node_id: NodeId,
    )
        requires
            node_id.node_ndx < array.len(),
            Self::graph_of(array, root).is_search_tree(),
            total_order::<Key>(),
        ensures
            forall|v: Value|
                #![trigger Self::graph_of(array, root).with_value(node_id, v)]
                Self::graph_of(
                    array.update(
                        node_id.node_ndx as int,
                        array[node_id.node_ndx as int].with_val(v),
                    ),
                    root,
                ) == Self::graph_of(array, root).with_value(node_id, v) && Self::graph_of(
                    array,
                    root,
                ).with_value(node_id, v).is_search_tree(),
    {
        let m = Self::graph_of(array, root);
        assert forall|v: Value|
            #![trigger Self::graph_of(array, root).with_value(node_id, v)]
            Self::graph_of(
                array.update(
                    node_id.node_ndx as int,
                    array[node_id.node_ndx as int].with_val(v),
                ),
                root,
            ) == m.with_value(node_id, v) && m.with_value(node_id, v).is_search_tree() by {
            let new_node = array[node_id.node_ndx as int].with_val(v);
            let m2 = Self::graph_of(array.update(node_id.node_ndx as int, new_node), root);
            lemma_with_value(m, m.layout(), node_id, v);
            assert(m2.nodes =~= m.with_value(node_id, v).nodes);
        }
    }

    /// The links of a known node name known nodes.
    proof fn lemma_links_known(&self, node_id: NodeId)
        requires
            self.inv(),
        ensures
            self.graph().has(node_id) ==> self.graph().node_fits(self.graph().layout(), node_id),
            self.graph().parent_of(node_id) matches Some(p) ==> self.graph().has(p)
                && self.graph().node_fits(self.graph().layout(), p),
            self.graph().left_of(node_id) matches Some(c) ==> self.graph().has(c)
                && self.graph().node_fits(self.graph().layout(), c),
            self.graph().right_of(node_id) matches Some(c) ==> self.graph().has(c)
                && self.graph().node_fits(self.graph().layout(), c),
            self.graph().grandparent_of(node_id) matches Some(g) ==> self.graph().has(g)
                && self.graph().node_fits(self.graph().layout(), g),
            self.graph().left_uncle_of(node_id) matches Some(u) ==> self.graph().has(u),
            self.graph().right_uncle_of(node_id) matches Some(u) ==> self.graph().has(u),
    {
        let m = self.graph();
        let w = m.layout();
        if m.has(node_id) {
            assert(m.node_fits(w, node_id));
            if let Some(p) = m.nodes[node_id].parent {
                assert(m.node_fits(w, p));
                if let Some(g) = m.nodes[p].parent {
                    assert(m.node_fits(w, g));
                }
            }
            if let Some(c) = m.nodes[node_id].left {
                assert(m.node_fits(w, c));
            }
            if let Some(c) = m.nodes[node_id].right {
                assert(m.node_fits(w, c));
            }
        }
    }

    spec fn inv(&self) -> bool {
        &&& total_order::<Key>()
        &&& self.graph().is_search_tree()
        &&& forall|i: int|
            0 <= i < self.array@.len() ==> (#[trigger] self.array@[i]).id.node_ndx == i
    }

    /// Where a search for `key` ends: at the node that holds it, or at the
    /// empty position where it belongs.
    fn find_insertion_place(&self, key: &Key) -> (place: InsertionPlace)
        requires
            self.inv(),
        ensures
            match place {
                InsertionPlace::NodeAlreadyExists(id) => self.graph().has(id) && self.graph().key(
                    id,
                ) == *key,
                _ => self.graph().slot_free(place.slot()) && self.graph().slot_takes(
                    place.slot(),
                    *key,
                ),
            },
    {
        let ghost m = self.graph();
        let ghost w = m.layout();
        let mut maybe_current_node = self.get_root_node();
        proof {
            if let Some(r) = self.root_id {
                assert(m.node_fits(w, r));
            }
        }
        while maybe_current_node.is_some()
            invariant
                self.inv(),
                total_order::<Key>(),
                m == self.graph(),
                m.laid_out(w),
                maybe_current_node is None ==> self.root_id is None,
                maybe_current_node matches Some(n) ==> {
                    &&& m.has(n.id)
                    &&& *n == self.array@[n.id.node_ndx as int]
                    &&& forall|j: int|
                        0 <= j < (w.lo)(n.id) ==> key_lt(m.key(#[trigger] w.order[j]), *key)
                    &&& forall|j: int|
                        (w.hi)(n.id) <= j < w.order.len() ==> key_lt(
                            *key,
                            m.key(#[trigger] w.order[j]),
                        )
                },
            decreases
                    match maybe_current_node {
                        Some(n) => (w.hi)(n.id) - (w.lo)(n.id),
                        None => 0,
                    },
        {
            let current_node = maybe_current_node.unwrap();
            let ghost c = current_node.id;
            proof {
                assert(m.node_fits(w, c));
                assert(w.order[(w.pos)(c)] == c);
            }
            if less(key, &current_node.key) {
                proof {
                    assert forall|j: int| (w.pos)(c) <= j < w.order.len() implies key_lt(
                        *key,
                        m.key(#[trigger] w.order[j]),
                    ) by {
                        if j > (w.pos)(c) {
                            assert(key_lt(m.key(w.order[(w.pos)(c)]), m.key(w.order[j])));
                            crate::order::lemma_lt_transitive(*key, m.key(c), m.key(w.order[j]));
                        }
                    }
                }
                if let Some(left_son_id) = current_node.left_son_id {
                    proof {
                        assert(m.node_fits(w, left_son_id));
                    }
                    maybe_current_node = self.get_node_by_id(left_son_id);
                } else {
                    proof {
                        assert forall|id: NodeId| #[trigger] m.has(id) implies id == c || key_lt(
                            m.key(id),
                            *key,
                        ) || key_lt(m.key(c), m.key(id)) by {
                            assert(m.node_fits(w, id));
                            let j = (w.pos)(id);
                            assert(w.order[j] == id);
                            if j > (w.pos)(c) {
                                assert(key_lt(m.key(w.order[(w.pos)(c)]), m.key(w.order[j])));
                            }
                        }
                    }
                    return InsertionPlace::SonOf(current_node.id, SonType::Left);
                }
            } else if less(&current_node.key, key) {
                proof {
                    assert forall|j: int| 0 <= j < (w.pos)(c) + 1 implies key_lt(
                        m.key(#[trigger] w.order[j]),
                        *key,
                    ) by {
                        if j < (w.pos)(c) {
                            assert(key_lt(m.key(w.order[j]), m.key(w.order[(w.pos)(c)])));
                            crate::order::lemma_lt_transitive(m.key(w.order[j]), m.key(c), *key);
                        }
                    }
                }
                if let Some(right_son_id) = current_node.right_son_id {
                    proof {
                        assert(m.node_fits(w, right_son_id));
                    }
                    maybe_current_node = self.get_node_by_id(right_son_id);
                } else {
                    proof {
                        assert forall|id: NodeId| #[trigger] m.has(id) implies id == c || key_lt(
                            m.key(id),
                            m.key(c),
                        ) || key_lt(*key, m.key(id)) by {
                            assert(m.node_fits(w, id));
                            let j = (w.pos)(id);
                            assert(w.order[j] == id);
                            if j < (w.pos)(c) {
                                assert(key_lt(m.key(w.order[j]), m.key(w.order[(w.pos)(c)])));
                            }
                        }
                    }
                    return InsertionPlace::SonOf(current_node.id, SonType::Right);
                }
            } else {
                proof {
                    crate::order::lemma_lt_total(*key, current_node.key);
                }
                return InsertionPlace::NodeAlreadyExists(current_node.id);
            }
        }
        InsertionPlace::Root
    }

    fn get_node_by_id(&self, node_id: NodeId) -> (node: Option<&Node<Key, Value>>)
        ensures
            node == if node_id.node_ndx < self.array@.len() {
                Some(&self.array@[node_id.node_ndx as int])
            } else {
                None
            },
    {
        if node_id.node_ndx < self.array.len() {
            Some(&self.array[node_id.node_ndx])
        } else {
            None
        }
    }

    fn get_root_node(&self) -> (node: Option<&Node<Key, Value>>)
        ensures
            node == match self.root_id {
                Some(r) => if r.node_ndx < self.array@.len() {
                    Some(&self.array@[r.node_ndx as int])
                } else {
                    None
                },
                None => None,
            },
    {
        self.get_node_by_id(self.root_id?)
    }
}

impl<Key: Ord, Value> Default for ArrayBST<Key, Value> {
    fn default() -> (tree: Self)
        ensures
            total_order::<Key>() ==> tree.wf(),
            tree.content() == Map::<Key, Value>::empty(),
            tree.model() == TreeModel::<Key, Value, NodeId>::empty(),
    {
        let tree = Self { array: Vec::new(), root_id: None };
        proof {
            let w = Layout::<NodeId> {
                order: Seq::empty(),
                pos: |id: NodeId| 0int,
                lo: |id: NodeId| 0int,
                hi: |id: NodeId| 0int,
            };
            assert(tree.graph().laid_out(w));
            assert(tree.graph().nodes =~= Map::empty());
            assert(tree.graph().content() =~= Map::empty());
        }
        tree
    }
}

impl<Key: Ord, Value> Tree<Key, Value> for ArrayBST<Key, Value> {
    closed spec fn wf(&self) -> bool {
        self.inv()
    }

    proof fn lemma_key_order(&self) {
    }

    closed spec fn content(&self) -> Map<Key, Value> {
        self.graph().content()
    }

    open spec fn has_room(&self) -> bool {
        true
    }

    fn insert(&mut self, key: Key, val: Value) {
        let _ = self.insert_and_get_id(key, val);
    }

    fn get(&self, key: &Key) -> (found: Option<&Value>) {
        match self.find_insertion_place(key) {
            InsertionPlace::NodeAlreadyExists(node_id) => {
                proof {
                    crate::trees::model::lemma_content_of_node(self.graph(), node_id);
                }
                match self.get_node_by_id(node_id) {
                    Some(node) => Some(&node.val),
                    None => None,
                }
            },
            place => {
                proof {
                    crate::trees::model::lemma_slot_key_absent(self.graph(), place.slot(), *key);
                }
                None
            },
        }
    }
}

impl<Key: Ord, Value> NodeIdentifiableTree<Key, Value, NodeId> for ArrayBST<Key, Value> {
    closed spec fn model(&self) -> TreeModel<Key, Value, NodeId> {
        self.graph()
    }

    proof fn lemma_model(&self) {
    }

    fn insert_and_get_id(&mut self, key: Key, val: Value) -> (id: NodeId) {
        let ghost m = self.graph();
        let place = self.find_insertion_place(&key);
        match place {
            InsertionPlace::Root => {
                let inserted_node_id = NodeId { node_ndx: self.array.len() };
                self.root_id = Some(inserted_node_id);
                self.array.push(
                    Node {
                        key,
                        val,
                        id: inserted_node_id,
                        parent_id: None,
                        left_son_id: None,
                        right_son_id: None,
                    },
                );
                proof {
                    lemma_content_with_leaf(m, Slot::Root, inserted_node_id, key, val);
                    crate::trees::model::lemma_slot_key_absent(m, Slot::Root, key);
                    assert(self.graph().nodes =~= m.with_leaf(
                        Slot::Root,
                        inserted_node_id,
                        key,
                        val,
                    ).nodes);
                    assert(self.graph() == m.with_leaf(Slot::Root, inserted_node_id, key, val));
                }
                inserted_node_id
            },
            InsertionPlace::SonOf(parent_id, son_type) => {
                let inserted_node_id = NodeId { node_ndx: self.array.len() };
                self.array.push(
                    Node {
                        key,
                        val,
                        id: inserted_node_id,
                        parent_id: Some(parent_id),
                        left_son_id: None,
                        right_son_id: None,
                    },
                );
                match son_type {
                    SonType::Left => {
                        self.array[parent_id.node_ndx].left_son_id = Some(inserted_node_id);
                    },
                    SonType::Right => {
                        self.array[parent_id.node_ndx].right_son_id = Some(inserted_node_id);
                    },
                }
                proof {
                    let slot = place.slot();
                    lemma_content_with_leaf(m, slot, inserted_node_id, key, val);
                    crate::trees::model::lemma_slot_key_absent(m, slot, key);
                    assert(self.graph().nodes =~= m.with_leaf(
                        slot,
                        inserted_node_id,
                        key,
                        val,
                    ).nodes);
                    assert(self.graph() == m.with_leaf(slot, inserted_node_id, key, val));
                }
                inserted_node_id
            },
            InsertionPlace::NodeAlreadyExists(node_id) => {
                self.array[node_id.node_ndx].val = val;
                proof {
                    crate::trees::model::lemma_content_of_node(m, node_id);
                    lemma_content_with_value(m, node_id, val);
                    assert(self.graph().nodes =~= m.with_value(node_id, val).nodes);
                    assert(self.graph() == m.with_value(node_id, val));
                }
                node_id
            },
        }
    }

    fn get_key_by_id(&self, node_id: NodeId) -> (found: Option<&Key>) {
        match self.get_node_by_id(node_id) {
            Some(node) => Some(&node.key),
            None => None,
        }
    }

    fn get_by_id(&self, node_id: NodeId) -> (found: Option<&Value>) {
        match self.get_node_by_id(node_id) {
            Some(node) => Some(&node.val),
            None => None,
        }
    }

    fn get_left_son_id(&self, node_id: NodeId) -> (son: Option<NodeId>) {
        match self.get_node_by_id(node_id) {
            Some(node) => node.left_son_id,
            None => None,
        }
    }

    fn get_right_son_id(&self, node_id: NodeId) -> (son: Option<NodeId>) {
        match self.get_node_by_id(node_id) {
            Some(node) => node.right_son_id,
            None => None,
        }
    }

    fn get_root_id(&self) -> (root: Option<NodeId>) {
        self.root_id
    }

    fn get_by_id_mut(&mut self, node_id: NodeId) -> (found: Option<&mut Value>) {
        if node_id.node_ndx < self.array.len() {
            proof {
                Self::lemma_graph_with_value(self.array@, self.root_id, node_id);
            }
            let node = &mut self.array[node_id.node_ndx];
            Some(&mut node.val)
        } else {
            None
        }
    }

    fn get_left_son_mut(&mut self, node_id: NodeId) -> (found: Option<&mut Value>) {
        proof {
            self.lemma_links_known(node_id);
        }
        match self.get_left_son_id(node_id) {
            Some(target) => self.get_by_id_mut(target),
            None => None,
        }
    }

    fn get_right_son_mut(&mut self, node_id: NodeId) -> (found: Option<&mut Value>) {
        proof {
            self.lemma_links_known(node_id);
        }
        match self.get_right_son_id(node_id) {
            Some(target) => self.get_by_id_mut(target),
            None => None,
        }
    }

    fn get_root_mut(&mut self) -> (found: Option<&mut Value>) {
        match self.get_root_id() {
            Some(target) => self.get_by_id_mut(target),
            None => None,
        }
    }

    fn modify<F: FnOnce(&Value) -> Value>(&mut self, node_id: NodeId, modifier: F) {
        if node_id.node_ndx < self.array.len() {
            proof {
                Self::lemma_graph_with_value(self.array@, self.root_id, node_id);
            }
            let new_val = modifier(&self.array[node_id.node_ndx].val);
            self.array[node_id.node_ndx].val = new_val;
        }
    }
}

impl<Key: Ord, Value> ParentifiedTree<Key, Value, NodeId> for ArrayBST<Key, Value> {
    fn get_parent_id(&self, node_id: NodeId) -> (parent: Option<NodeId>) {
        match self.get_node_by_id(node_id) {
            Some(node) => node.parent_id,
            None => None,
        }
    }

    fn get_parent(&self, node_id: NodeId) -> (found: Option<&Value>) {
        match self.get_parent_id(node_id) {
            Some(parent_id) => self.get_by_id(parent_id),
            None => None,
        }
    }

    fn get_parent_mut(&mut self, node_id: NodeId) -> (found: Option<&mut Value>) {
        proof {
            self.lemma_links_known(node_id);
        }
        match self.get_parent_id(node_id) {
            Some(target) => self.get_by_id_mut(target),
            None => None,
        }
    }

    fn get_left_uncle_id(&self, node_id: NodeId) -> (uncle: Option<NodeId>) {
        match self.get_parent_id(node_id) {
            Some(parent_id) => match self.get_parent_id(parent_id) {
                Some(grand_parent_id) => self.get_left_son_id(grand_parent_id),
                None => None,
            },
            None => None,
        }
    }

    fn get_right_uncle_id(&self, node_id: NodeId) -> (uncle: Option<NodeId>) {
        match self.get_parent_id(node_id) {
            Some(parent_id) => match self.get_parent_id(parent_id) {
                Some(grand_parent_id) => self.get_right_son_id(grand_parent_id),
                None => None,
            },
            None => None,
        }
    }

    fn get_left_uncle_mut(&mut self, node_id: NodeId) -> (found: Option<&mut Value>) {
        proof {
            self.lemma_links_known(node_id);
        }
        match self.get_left_uncle_id(node_id) {
            Some(target) => self.get_by_id_mut(target),
            None => None,
        }
    }

    fn get_right_uncle_mut(&mut self, node_id: NodeId) -> (found: Option<&mut Value>) {
        proof {
            self.lemma_links_known(node_id);
        }
        match self.get_right_uncle_id(node_id) {
            Some(target) => self.get_by_id_mut(target),
            None => None,
        }
    }

    fn is_left_son(&self, node_id: NodeId) -> (answer: bool) {
        match self.get_parent_id(node_id) {
            Some(parent_id) => match self.get_left_son_id(parent_id) {
                Some(id) => id == node_id,
                None => false,
            },
            None => false,
        }
    }

    fn is_right_son(&self, node_id: NodeId) -> (answer: bool) {
        match self.get_parent_id(node_id) {
            Some(parent_id) => match self.get_right_son_id(parent_id) {
                Some(id) => id == node_id,
                None => false,
            },
            None => false,
        }
    }
}

impl<Key: Ord, Value> RotatableTree<Key, Value, NodeId> for ArrayBST<Key, Value> {
    fn right_rotate(&mut self, node_id: NodeId) {
        let son_id = match self.get_left_son_id(node_id) {
            Some(son_id) => son_id,
            None => {
                return ;
            },
        };
        let ghost m = self.graph();
        proof {
            self.lemma_links_known(node_id);
            self.lemma_links_known(son_id);
            lemma_rotated_right(m, m.layout(), node_id);
        }
        let sons_right_son_id = self.array[son_id.node_ndx].right_son_id;
        let is_left_son = self.is_left_son(node_id);
        let node_parent_id = self.array[node_id.node_ndx].parent_id;
        self.array[node_id.node_ndx].parent_id = Some(son_id);
        self.array[node_id.node_ndx].left_son_id = sons_right_son_id;
        self.array[son_id.node_ndx].parent_id = node_parent_id;
        self.array[son_id.node_ndx].right_son_id = Some(node_id);
        if let Some(moved_id) = sons_right_son_id {
            self.array[moved_id.node_ndx].parent_id = Some(node_id);
        }
        match node_parent_id {
            Some(parent_id) => {
                if is_left_son {
                    self.array[parent_id.node_ndx].left_son_id = Some(son_id);
                } else {
                    self.array[parent_id.node_ndx].right_son_id = Some(son_id);
                }
            },
            None => {
                self.root_id = Some(son_id);
            },
        }
        proof {
            assert(self.graph().nodes =~= m.rotated_right(node_id).nodes);
            assert(self.graph() == m.rotated_right(node_id));
            crate::trees::model::lemma_content_same(m, self.graph());
        }
    }

    fn left_rotate(&mut self, node_id: NodeId) {
        let son_id = match self.get_right_son_id(node_id) {
            Some(son_id) => son_id,
            None => {
                return ;
            },
        };
        let ghost m = self.graph();
        proof {
            self.lemma_links_known(node_id);
            self.lemma_links_known(son_id);
            lemma_rotated_left(m, m.layout(), node_id);
        }
        let sons_left_son_id = self.array[son_id.node_ndx].left_son_id;
        let is_left_son = self.is_left_son(node_id);
        let node_parent_id = self.array[node_id.node_ndx].parent_id;
        self.array[node_id.node_ndx].parent_id = Some(son_id);
        self.array[node_id.node_ndx].right_son_id = sons_left_son_id;
        self.array[son_id.node_ndx].parent_id = node_parent_id;
        self.array[son_id.node_ndx].left_son_id = Some(node_id);
        if let Some(moved_id) = sons_left_son_id {
            self.array[moved_id.node_ndx].parent_id = Some(node_id);
        }
        match node_parent_id {
            Some(parent_id) => {
                if is_left_son {
                    self.array[parent_id.node_ndx].left_son_id = Some(son_id);
                } else {
                    self.array[parent_id.node_ndx].right_son_id = Some(son_id);
                }
            },
            None => {
                self.root_id = Some(son_id);
            },
        }
        proof {
            assert(self.graph().nodes =~= m.rotated_left(node_id).nodes);
            assert(self.graph() == m.rotated_left(node_id));
            crate::trees::model::lemma_content_same(m, self.graph());
        }
    }
}

} // verus!
