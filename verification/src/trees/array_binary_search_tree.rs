use crate::containers::traits::SizedContainer;
use crate::order::key_lt;
use crate::order::less;
use crate::order::total_order;
use crate::subcontainers::resizable_array::ResizableArray;
use crate::trees::model::lemma_content_of_node;
use crate::trees::model::lemma_content_with_leaf;
use crate::trees::model::lemma_content_with_value;
use crate::trees::model::lemma_slot_key_absent;
use crate::trees::model::Layout;
use crate::trees::model::NodeModel;
use crate::trees::model::Slot;
use crate::trees::model::TreeModel;
use crate::trees::traits::NodeIdentifiableTree;
use crate::trees::traits::ParentifiedTree;
use crate::trees::traits::Tree;
use vstd::prelude::*;

verus! {

const ROOT_NDX: usize = 1;

const INITIAL_CAPACITY: usize = ROOT_NDX + 1;

struct Node<Key, Value> {
    key: Key,
    val: Value,
}

/// The identity of a node of an `ArrayBinarySearchTree`: its index in the
/// array.
#[derive(Clone, Copy, PartialEq, Eq, Structural)]
pub struct NodeId {
    node_ndx: usize,
}

impl NodeId {
    /// The index that the identity stands for.
    pub closed spec fn spec_index(self) -> usize {
        self.node_ndx
    }
}

impl Default for NodeId {
    /// The identity with index 0.
    fn default() -> (id: Self)
        ensures
            id.spec_index() == 0,
    {
        NodeId { node_ndx: 0 }
    }
}

/// A binary search tree laid out in one array: the root at index 1, the
/// children of the node at index `i` at `2 * i` (greater keys) and
/// `2 * i + 1` (lesser keys).
pub struct ArrayBinarySearchTree<Key: Ord, Value> {
    array: ResizableArray<Option<Node<Key, Value>>>,
}

spec fn id_at(index: int) -> NodeId {
    NodeId { node_ndx: index as usize }
}

spec fn cell_some<Key, Value>(cells: Seq<Option<Node<Key, Value>>>, index: int) -> bool {
    0 <= index < cells.len() && cells[index] is Some
}

spec fn link<Key, Value>(cells: Seq<Option<Node<Key, Value>>>, index: int) -> Option<NodeId> {
    if cell_some(cells, index) {
        Some(id_at(index))
    } else {
        None
    }
}

/// The empty position that the cell at `index` stands for.
spec fn slot_at(index: int) -> Slot<NodeId> {
    if index == 1 {
        Slot::Root
    } else if index % 2 == 0 {
        Slot::RightOf(id_at(index / 2))
    } else {
        Slot::LeftOf(id_at(index / 2))
    }
}

spec fn graph_of<Key: Ord, Value>(cells: Seq<Option<Node<Key, Value>>>) -> TreeModel<
    Key,
    Value,
    NodeId,
> {
    TreeModel {
        nodes: Map::new(
            |id: NodeId| cell_some(cells, id.node_ndx as int),
            |id: NodeId|
                NodeModel {
                    key: cells[id.node_ndx as int].unwrap().key,
                    value: cells[id.node_ndx as int].unwrap().val,
                    parent: link(cells, id.node_ndx as int / 2),
                    left: link(cells, 2 * id.node_ndx as int + 1),
                    right: link(cells, 2 * id.node_ndx as int),
                },
        ),
        root: link(cells, 1),
    }
}

spec fn cells_inv<Key: Ord, Value>(cells: Seq<Option<Node<Key, Value>>>) -> bool {
    &&& total_order::<Key>()
    &&& graph_of(cells).is_search_tree()
    &&& 2 <= cells.len()
    &&& cells.len() * 2 <= usize::MAX
    &&& cells[0] is None
}

/// Writing a value into a node keeps the tree.
proof fn lemma_cells_with_value<Key: Ord, Value>(cells: Seq<Option<Node<Key, Value>>>, index: int)
    requires
        cells_inv(cells),
        cell_some(cells, index),
    ensures
        forall|v: Value|
            #![trigger graph_of(cells).with_value(id_at(index), v)]
            graph_of(cells.update(index, Some(Node { key: cells[index].unwrap().key, val: v })))
                == graph_of(cells).with_value(id_at(index), v) && cells_inv(
                cells.update(index, Some(Node { key: cells[index].unwrap().key, val: v })),
            ),
{
    let m = graph_of(cells);
    assert forall|v: Value|
        #![trigger graph_of(cells).with_value(id_at(index), v)]
        graph_of(cells.update(index, Some(Node { key: cells[index].unwrap().key, val: v })))
            == m.with_value(id_at(index), v) && cells_inv(
            cells.update(index, Some(Node { key: cells[index].unwrap().key, val: v })),
        ) by {
        let cells2 = cells.update(index, Some(Node { key: cells[index].unwrap().key, val: v }));
        let m2 = graph_of(cells2);
        crate::trees::model::lemma_with_value(m, m.layout(), id_at(index), v);
        assert(m2.nodes =~= m.with_value(id_at(index), v).nodes);
    }
}

/// Filling the empty cell where a key belongs links a new leaf into the tree.
proof fn lemma_cells_with_leaf<Key: Ord, Value>(
    cells: Seq<Option<Node<Key, Value>>>,
    cells2: Seq<Option<Node<Key, Value>>>,
    index: int,
    key: Key,
    val: Value,
)
    requires
        total_order::<Key>(),
        cells_inv(cells),
        cells.len() * 4 <= usize::MAX,
        1 <= index < 2 * cells.len(),
        !cell_some(cells, index),
        graph_of(cells).slot_free(slot_at(index)),
        graph_of(cells).slot_takes(slot_at(index), key),
        cells2.len() == cells.len() || cells2.len() == 2 * cells.len(),
        index < cells2.len(),
        cells2[index] == Some(Node { key, val }),
        forall|i: int| 0 <= i < cells.len() && i != index ==> cells2[i] == cells[i],
        forall|i: int| cells.len() <= i < cells2.len() && i != index ==> cells2[i] is None,
    ensures
        cells_inv(cells2),
        graph_of(cells2) == graph_of(cells).with_leaf(slot_at(index), id_at(index), key, val),
        graph_of(cells2).content() == graph_of(cells).content().insert(key, val),
        !graph_of(cells).has_key(key),
        !graph_of(cells).has(id_at(index)),
{
    let m = graph_of(cells);
    let id = id_at(index);
    let slot = slot_at(index);
    let m2 = m.with_leaf(slot, id, key, val);
    let w = m.layout();
    lemma_content_with_leaf(m, slot, id, key, val);
    lemma_slot_key_absent(m, slot, key);
    if index > 1 {
        assert(m.has(id_at(index / 2)));
    }
    assert forall|a: NodeId| m.has(a) implies graph_of(cells2).has(a) && graph_of(cells2).nodes[a]
        == m2.nodes[a] by {
        assert(m.node_fits(w, a));
        assert(a == id_at(a.node_ndx as int));
    }
    assert(graph_of(cells2).has(id) && graph_of(cells2).nodes[id] == m2.nodes[id]) by {
        if cell_some(cells, 2 * index) {
            assert(m.node_fits(w, id_at(2 * index)));
        }
        if cell_some(cells, 2 * index + 1) {
            assert(m.node_fits(w, id_at(2 * index + 1)));
        }
    }
    assert forall|a: NodeId| graph_of(cells2).has(a) implies m2.has(a) by {
        assert(a == id_at(a.node_ndx as int));
    }
    assert(graph_of(cells2).nodes =~= m2.nodes);
}

impl<Key: Ord, Value> Default for ArrayBinarySearchTree<Key, Value> {
    fn default() -> (tree: Self)
        ensures
            total_order::<Key>() ==> tree.wf(),
            tree.spec_capacity() == 2,
            tree.content() == Map::<Key, Value>::empty(),
            tree.model() == TreeModel::<Key, Value, NodeId>::empty(),
    {
        let tree = Self { array: ResizableArray::new(INITIAL_CAPACITY) };
        proof {
            let w = Layout::<NodeId> {
                order: Seq::empty(),
                pos: |id: NodeId| 0int,
                lo: |id: NodeId| 0int,
                hi: |id: NodeId| 0int,
            };
            assert(tree.array@[0] is None);
            assert(tree.array@[1] is None);
            assert(tree.graph().nodes =~= Map::empty());
            assert(tree.graph().laid_out(w));
            assert(tree.graph().content() =~= Map::empty());
        }
        tree
    }
}

impl<Key: Ord, Value> ArrayBinarySearchTree<Key, Value> {
    /// The number of cells of the array. An insertion leaves it as it is or
    /// doubles it.
    pub closed spec fn spec_capacity(&self) -> nat {
        self.array@.len()
    }

    spec fn graph(&self) -> TreeModel<Key, Value, NodeId> {
        graph_of(self.array@)
    }

    spec fn inv(&self) -> bool {
        cells_inv(self.array@)
    }

    /// The index at which a search for `key` ends: that of the node that
    /// holds it, or that of the empty cell where it belongs, which may lie
    /// behind the end of the array.
    fn find_index(&self, key: &Key) -> (index: usize)
        requires
            self.inv(),
        ensures
            1 <= index < 2 * self.array@.len(),
            cell_some(self.array@, index as int) ==> self.array@[index as int].unwrap().key == *key,
            !cell_some(self.array@, index as int) ==> self.graph().slot_free(slot_at(index as int))
                && self.graph().slot_takes(slot_at(index as int), *key),
    {
        let ghost m = self.graph();
        let ghost w = m.layout();
        let mut index = ROOT_NDX;
        if self.array.index(index).is_none() {
            return index;
        }
        proof {
            assert(m.node_fits(w, id_at(1)));
        }
        loop
            invariant
                self.inv(),
                total_order::<Key>(),
                m == self.graph(),
                m.laid_out(w),
                cell_some(self.array@, index as int),
                index >= 1,
                forall|j: int|
                    0 <= j < (w.lo)(id_at(index as int)) ==> key_lt(
                        m.key(#[trigger] w.order[j]),
                        *key,
                    ),
                forall|j: int|
                    (w.hi)(id_at(index as int)) <= j < w.order.len() ==> key_lt(
                        *key,
                        m.key(#[trigger] w.order[j]),
                    ),
            decreases (w.hi)(id_at(index as int)) - (w.lo)(id_at(index as int)),
        {
            let ghost c = id_at(index as int);
            proof {
                assert(m.has(c));
                assert(m.node_fits(w, c));
                assert(w.order[(w.pos)(c)] == c);
            }
            let node = match self.array.index(index) {
                Some(node) => node,
                None => {
                    return index;
                },
            };
            let next_index = if less(&node.key, key) {
                proof {
                    assert forall|j: int| 0 <= j < (w.pos)(c) + 1 implies key_lt(
                        m.key(#[trigger] w.order[j]),
                        *key,
                    ) by {
                        if j < (w.pos)(c) {
                            assert(key_lt(m.key(w.order[j]), m.key(w.order[(w.pos)(c)])));
                            crate::order::lemma_lt_transitive(m.key(w.order[j]), m.key(c), *key);
                        }
                    }
                    if !cell_some(self.array@, 2 * index) {
                        assert forall|id: NodeId| #[trigger] m.has(id) implies id == c || key_lt(
                            m.key(id),
                            m.key(c),
                        ) || key_lt(*key, m.key(id)) by {
                            assert(m.node_fits(w, id));
                            let j = (w.pos)(id);
                            assert(w.order[j] == id);
                            if j < (w.pos)(c) {
                                assert(key_lt(m.key(w.order[j]), m.key(w.order[(w.pos)(c)])));
                            }
                        }
                    } else {
                        assert(m.node_fits(w, id_at(2 * index)));
                    }
                }
                index * 2
            } else if less(key, &node.key) {
                proof {
                    assert forall|j: int| (w.pos)(c) <= j < w.order.len() implies key_lt(
                        *key,
                        m.key(#[trigger] w.order[j]),
                    ) by {
                        if j > (w.pos)(c) {
                            assert(key_lt(m.key(w.order[(w.pos)(c)]), m.key(w.order[j])));
                            crate::order::lemma_lt_transitive(*key, m.key(c), m.key(w.order[j]));
                        }
                    }
                    if !cell_some(self.array@, 2 * index + 1) {
                        assert forall|id: NodeId| #[trigger] m.has(id) implies id == c || key_lt(
                            m.key(id),
                            *key,
                        ) || key_lt(m.key(c), m.key(id)) by {
                            assert(m.node_fits(w, id));
                            let j = (w.pos)(id);
                            assert(w.order[j] == id);
                            if j > (w.pos)(c) {
                                assert(key_lt(m.key(w.order[(w.pos)(c)]), m.key(w.order[j])));
                            }
                        }
                    } else {
                        assert(m.node_fits(w, id_at(2 * index + 1)));
                    }
                }
                2 * index + 1
            } else {
                proof {
                    crate::order::lemma_lt_total(*key, node.key);
                }
                return index;
            };
            if next_index >= self.array.size() {
                return next_index;
            }
            if self.array.index(next_index).is_none() {
                return next_index;
            }
            index = next_index;
        }
    }

    /// The cell where a search for `key` ends, or the index of that cell
    /// where it lies behind the end of the array.
    fn find_cell(&self, key: &Key) -> (found: Result<&Option<Node<Key, Value>>, usize>)
        requires
            self.inv(),
        ensures
            match found {
                Ok(cell) => match *cell {
                    Some(node) => node.key == *key && self.graph().content().contains_key(*key)
                        && self.graph().content()[*key] == node.val,
                    None => !self.graph().content().contains_key(*key),
                },
                Err(index) => !self.graph().content().contains_key(*key) && self.array@.len()
                    <= index,
            },
    {
        let index = self.find_index(key);
        proof {
            if cell_some(self.array@, index as int) {
                lemma_content_of_node(self.graph(), id_at(index as int));
            } else {
                lemma_slot_key_absent(self.graph(), slot_at(index as int), *key);
            }
        }
        if index < self.array.size() {
            Ok(self.array.index(index))
        } else {
            Err(index)
        }
    }

    fn extract_node_with_id(&self, node_id: NodeId) -> (present: bool)
        ensures
            present == cell_some(self.array@, node_id.node_ndx as int),
    {
        node_id.node_ndx < self.array.size() && self.array.index(node_id.node_ndx).is_some()
    }
}

impl<Key: Ord, Value> Tree<Key, Value> for ArrayBinarySearchTree<Key, Value> {
    closed spec fn wf(&self) -> bool {
        self.inv()
    }

    proof fn lemma_key_order(&self) {
    }

    closed spec fn content(&self) -> Map<Key, Value> {
        self.graph().content()
    }

    /// The array can be doubled once more.
    open spec fn has_room(&self) -> bool {
        self.spec_capacity() * 4 <= usize::MAX
    }

    fn insert(&mut self, key: Key, val: Value)
        ensures
            final(self).spec_capacity() == old(self).spec_capacity() || final(self).spec_capacity()
                == 2 * old(self).spec_capacity(),
    {
        let _ = self.insert_and_get_id(key, val);
    }

    fn get(&self, key: &Key) -> (found: Option<&Value>) {
        match self.find_cell(key) {
            Ok(Some(node)) => Some(&node.val),
            _ => None,
        }
    }
}

impl<Key: Ord, Value> NodeIdentifiableTree<Key, Value, NodeId> for ArrayBinarySearchTree<
    Key,
    Value,
> {
    closed spec fn model(&self) -> TreeModel<Key, Value, NodeId> {
        self.graph()
    }

    proof fn lemma_model(&self) {
    }

    fn insert_and_get_id(&mut self, key: Key, val: Value) -> (id: NodeId)
        ensures
            final(self).spec_capacity() == old(self).spec_capacity() || final(self).spec_capacity()
                == 2 * old(self).spec_capacity(),
    {
        let ghost m = self.graph();
        let ghost cells = self.array@;
        let node_ndx = self.find_index(&key);
        let ghost id = id_at(node_ndx as int);
        if self.extract_node_with_id(NodeId { node_ndx }) {
            proof {
                lemma_cells_with_value(cells, node_ndx as int);
                lemma_content_of_node(m, id);
                lemma_content_with_value(m, id, val);
            }
            match self.array.index_mut(node_ndx) {
                Some(node) => {
                    node.val = val;
                },
                None => {},
            }
        } else {
            if node_ndx >= self.array.size() {
                self.array.double_the_size();
            }
            let mut cell = Some(Node { key, val });
            core::mem::swap(&mut cell, self.array.index_mut(node_ndx));
            proof {
                assert forall|i: int| cells.len() <= i < self.array@.len() && i
                    != node_ndx implies self.array@[i] is None by {
                    assert(crate::subcontainers::resizable_array::is_default(self.array@[i]));
                }
                lemma_cells_with_leaf(cells, self.array@, node_ndx as int, key, val);
            }
        }
        NodeId { node_ndx }
    }

    fn get_key_by_id(&self, node_id: NodeId) -> (found: Option<&Key>) {
        if node_id.node_ndx >= self.array.size() {
            return None;
        }
        match self.array.index(node_id.node_ndx) {
            Some(node) => Some(&node.key),
            None => None,
        }
    }

    fn get_by_id(&self, node_id: NodeId) -> (found: Option<&Value>) {
        if node_id.node_ndx >= self.array.size() {
            return None;
        }
        match self.array.index(node_id.node_ndx) {
            Some(node) => Some(&node.val),
            None => None,
        }
    }

    fn get_by_id_mut(&mut self, node_id: NodeId) -> (found: Option<&mut Value>) {
        if node_id.node_ndx >= self.array.size() {
            return None;
        }
        proof {
            assert(id_at(node_id.node_ndx as int) == node_id);
            assert(self.array@.update(node_id.node_ndx as int, self.array@[node_id.node_ndx as int])
                =~= self.array@);
            if cell_some(self.array@, node_id.node_ndx as int) {
                lemma_cells_with_value(self.array@, node_id.node_ndx as int);
            }
        }
        match self.array.index_mut(node_id.node_ndx) {
            Some(node) => Some(&mut node.val),
            None => None,
        }
    }

    fn get_left_son_id(&self, node_id: NodeId) -> (son: Option<NodeId>) {
        if !self.extract_node_with_id(node_id) {
            return None;
        }
        let left_son_ndx = 2 * node_id.node_ndx + 1;
        let son = NodeId { node_ndx: left_son_ndx };
        if self.extract_node_with_id(son) {
            Some(son)
        } else {
            None
        }
    }

    fn get_right_son_id(&self, node_id: NodeId) -> (son: Option<NodeId>) {
        if !self.extract_node_with_id(node_id) {
            return None;
        }
        let right_son_ndx = 2 * node_id.node_ndx;
        let son = NodeId { node_ndx: right_son_ndx };
        if self.extract_node_with_id(son) {
            Some(son)
        } else {
            None
        }
    }

    fn get_root_id(&self) -> (root: Option<NodeId>) {
        let root = NodeId { node_ndx: ROOT_NDX };
        if self.extract_node_with_id(root) {
            Some(root)
        } else {
            None
        }
    }

    fn get_left_son_mut(&mut self, node_id: NodeId) -> (found: Option<&mut Value>) {
        match self.get_left_son_id(node_id) {
            Some(target) => self.get_by_id_mut(target),
            None => None,
        }
    }

    fn get_right_son_mut(&mut self, node_id: NodeId) -> (found: Option<&mut Value>) {
        match self.get_right_son_id(node_id) {
            Some(target) => self.get_by_id_mut(target),
            None => None,
        }
    }

    fn get_root_mut(&mut self) -> (found: Option<&mut Value>) {
        match self.get_root_id() {
            Some(target) => self.get_by_id_mut(target),
            None => None,
        }
    }

    fn modify<F: FnOnce(&Value) -> Value>(&mut self, node_id: NodeId, modifier: F) {
        if self.extract_node_with_id(node_id) {
            proof {
                assert(id_at(node_id.node_ndx as int) == node_id);
                lemma_cells_with_value(self.array@, node_id.node_ndx as int);
            }
            match self.array.index_mut(node_id.node_ndx) {
                Some(node) => {
                    let new_val = modifier(&node.val);
                    node.val = new_val;
                },
                None => {},
            }
        }
    }
}

impl<Key: Ord, Value> ParentifiedTree<Key, Value, NodeId> for ArrayBinarySearchTree<Key, Value> {
    fn get_parent_id(&self, node_id: NodeId) -> (parent: Option<NodeId>) {
        if !self.extract_node_with_id(node_id) {
            return None;
        }
        let parent = NodeId { node_ndx: node_id.node_ndx / 2 };
        if self.extract_node_with_id(parent) {
            Some(parent)
        } else {
            None
        }
    }

    fn get_parent(&self, node_id: NodeId) -> (found: Option<&Value>) {
        match self.get_parent_id(node_id) {
            Some(parent_id) => self.get_by_id(parent_id),
            None => None,
        }
    }

    fn get_parent_mut(&mut self, node_id: NodeId) -> (found: Option<&mut Value>) {
        match self.get_parent_id(node_id) {
            Some(target) => self.get_by_id_mut(target),
            None => None,
        }
    }

    fn get_left_uncle_id(&self, node_id: NodeId) -> (uncle: Option<NodeId>) {
        let parent_id = self.get_parent_id(node_id)?;
        let grand_parent_id = self.get_parent_id(parent_id)?;
        self.get_left_son_id(grand_parent_id)
    }

    fn get_right_uncle_id(&self, node_id: NodeId) -> (uncle: Option<NodeId>) {
        let parent_id = self.get_parent_id(node_id)?;
        let grand_parent_id = self.get_parent_id(parent_id)?;
        self.get_right_son_id(grand_parent_id)
    }

    fn get_left_uncle_mut(&mut self, node_id: NodeId) -> (found: Option<&mut Value>) {
        match self.get_left_uncle_id(node_id) {
            Some(target) => self.get_by_id_mut(target),
            None => None,
        }
    }

    fn get_right_uncle_mut(&mut self, node_id: NodeId) -> (found: Option<&mut Value>) {
        match self.get_right_uncle_id(node_id) {
            Some(target) => self.get_by_id_mut(target),
            None => None,
        }
    }

    fn is_left_son(&self, node_id: NodeId) -> (answer: bool) {
        match self.get_parent_id(node_id) {
            Some(parent_id) => match self.get_left_son_id(parent_id) {
                Some(left_brother_id) => node_id == left_brother_id,
                None => false,
            },
            None => false,
        }
    }

    fn is_right_son(&self, node_id: NodeId) -> (answer: bool) {
        match self.get_parent_id(node_id) {
            Some(parent_id) => match self.get_right_son_id(parent_id) {
                Some(right_brother_id) => node_id == right_brother_id,
                None => false,
            },
            None => false,
        }
    }
}

} // verus!
