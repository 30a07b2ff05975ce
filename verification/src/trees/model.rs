use crate::order::key_lt;
use crate::order::lemma_lt_asymmetric;
use crate::order::lemma_lt_transitive;
use crate::order::total_order;
use vstd::prelude::*;

verus! {

/// What a store holds of one node: its key, its payload and its three links.
pub struct NodeModel<K, V, Id> {
    pub key: K,
    pub value: V,
    pub parent: Option<Id>,
    pub left: Option<Id>,
    pub right: Option<Id>,
}

/// The pointer graph of a store: every node by its identity, and the root.
#[verifier::reject_recursive_types(Id)]
pub struct TreeModel<K, V, Id> {
    pub nodes: Map<Id, NodeModel<K, V, Id>>,
    pub root: Option<Id>,
}

/// An empty position of a tree, where a new leaf can be linked.
pub enum Slot<Id> {
    Root,
    LeftOf(Id),
    RightOf(Id),
}

/// A witness that a pointer graph is a binary search tree: the nodes in
/// ascending key order, each node's index in that order, and for each node
/// the index range `lo..hi` that its subtree occupies.
#[verifier::reject_recursive_types(Id)]
pub struct Layout<Id> {
    pub order: Seq<Id>,
    pub pos: spec_fn(Id) -> int,
    pub lo: spec_fn(Id) -> int,
    pub hi: spec_fn(Id) -> int,
}

impl<K: Ord, V, Id> TreeModel<K, V, Id> {
    /// The graph without nodes.
    pub open spec fn empty() -> Self {
        TreeModel { nodes: Map::empty(), root: None }
    }

    /// `id` names a node of the graph.
    pub open spec fn has(self, id: Id) -> bool {
        self.nodes.contains_key(id)
    }

    /// The key of node `id`.
    pub open spec fn key(self, id: Id) -> K {
        self.nodes[id].key
    }

    /// Some node holds `key`.
    pub open spec fn has_key(self, key: K) -> bool {
        exists|id: Id| self.has(id) && #[trigger] self.key(id) == key
    }

    /// The node that holds `key`, where one does.
    pub open spec fn node_of(self, key: K) -> Id {
        choose|id: Id| self.has(id) && #[trigger] self.key(id) == key
    }

    /// The key-value mapping that the nodes represent.
    pub open spec fn content(self) -> Map<K, V> {
        Map::new(|k: K| self.has_key(k), |k: K| self.nodes[self.node_of(k)].value)
    }

    /// The payload of node `id`, where the graph has such a node.
    pub open spec fn payload_of(self, id: Id) -> Option<V> {
        if self.has(id) {
            Some(self.nodes[id].value)
        } else {
            None
        }
    }

    /// The payload of the node `target`, where it names one.
    pub open spec fn payload_at(self, target: Option<Id>) -> Option<V> {
        match target {
            Some(id) => self.payload_of(id),
            None => None,
        }
    }

    /// The parent of node `id`; none for the root and for an unknown `id`.
    pub open spec fn parent_of(self, id: Id) -> Option<Id> {
        if self.has(id) {
            self.nodes[id].parent
        } else {
            None
        }
    }

    /// The left child of node `id`; none for an unknown `id`.
    pub open spec fn left_of(self, id: Id) -> Option<Id> {
        if self.has(id) {
            self.nodes[id].left
        } else {
            None
        }
    }

    /// The right child of node `id`; none for an unknown `id`.
    pub open spec fn right_of(self, id: Id) -> Option<Id> {
        if self.has(id) {
            self.nodes[id].right
        } else {
            None
        }
    }

    /// The parent of the parent of node `id`.
    pub open spec fn grandparent_of(self, id: Id) -> Option<Id> {
        match self.parent_of(id) {
            Some(p) => self.parent_of(p),
            None => None,
        }
    }

    /// The left child of the grandparent of node `id`.
    pub open spec fn left_uncle_of(self, id: Id) -> Option<Id> {
        match self.grandparent_of(id) {
            Some(g) => self.left_of(g),
            None => None,
        }
    }

    /// The right child of the grandparent of node `id`.
    pub open spec fn right_uncle_of(self, id: Id) -> Option<Id> {
        match self.grandparent_of(id) {
            Some(g) => self.right_of(g),
            None => None,
        }
    }

    /// Node `id` is the left child of its parent.
    pub open spec fn is_left_child(self, id: Id) -> bool {
        match self.parent_of(id) {
            Some(p) => self.left_of(p) == Some(id),
            None => false,
        }
    }

    /// Node `id` is the right child of its parent.
    pub open spec fn is_right_child(self, id: Id) -> bool {
        match self.parent_of(id) {
            Some(p) => self.right_of(p) == Some(id),
            None => false,
        }
    }

    /// The graph after the payload of `target`, if there is such a node, was
    /// replaced by `value`.
    pub open spec fn written(self, target: Option<Id>, value: V) -> Self {
        match target {
            Some(id) => if self.has(id) {
                self.with_value(id, value)
            } else {
                self
            },
            None => self,
        }
    }

    /// `path` starts at a node and leads down from each node to one of its
    /// children.
    pub open spec fn is_path(self, path: Seq<Id>) -> bool {
        &&& path.len() > 0
        &&& forall|i: int| 0 <= i < path.len() ==> self.has(#[trigger] path[i])
        &&& forall|i: int|
            0 <= i < path.len() - 1 ==> self.nodes[#[trigger] path[i]].left == Some(path[i + 1])
                || self.nodes[path[i]].right == Some(path[i + 1])
    }

    /// `path` leads from the root down to a node that lacks a child.
    pub open spec fn is_root_path_to_absent_child(self, path: Seq<Id>) -> bool {
        &&& self.is_path(path)
        &&& self.root == Some(path[0])
        &&& (self.nodes[path.last()].left is None || self.nodes[path.last()].right is None)
    }

    /// The links and the index range of one node agree with those of its
    /// parent and children.
    pub open spec fn node_fits(self, w: Layout<Id>, id: Id) -> bool {
        let n = self.nodes[id];
        &&& 0 <= (w.lo)(id) <= (w.pos)(id) < (w.hi)(id) <= w.order.len()
        &&& w.order[(w.pos)(id)] == id
        &&& match n.parent {
            None => self.root == Some(id) && (w.lo)(id) == 0 && (w.hi)(id) == w.order.len(),
            Some(p) => self.has(p) && (self.nodes[p].left == Some(id) || self.nodes[p].right
                == Some(id)),
        }
        &&& match n.left {
            None => (w.lo)(id) == (w.pos)(id),
            Some(c) => self.has(c) && self.nodes[c].parent == Some(id) && (w.lo)(c) == (w.lo)(id)
                && (w.hi)(c) == (w.pos)(id),
        }
        &&& match n.right {
            None => (w.hi)(id) == (w.pos)(id) + 1,
            Some(c) => self.has(c) && self.nodes[c].parent == Some(id) && (w.lo)(c) == (w.pos)(
                id,
            ) + 1 && (w.hi)(c) == (w.hi)(id),
        }
    }

    /// `w` lays the whole graph out as a binary search tree.
    pub open spec fn laid_out(self, w: Layout<Id>) -> bool {
        &&& forall|id: Id| self.has(id) ==> #[trigger] self.node_fits(w, id)
        &&& forall|i: int|
            0 <= i < w.order.len() ==> self.has(#[trigger] w.order[i]) && (w.pos)(w.order[i]) == i
        &&& forall|i: int, j: int|
            0 <= i < j < w.order.len() ==> key_lt(
                self.key(#[trigger] w.order[i]),
                self.key(#[trigger] w.order[j]),
            )
        &&& match self.root {
            None => w.order.len() == 0,
            Some(r) => self.has(r) && self.nodes[r].parent is None,
        }
    }

    /// The graph is a binary search tree: parent and child links agree, every
    /// node hangs under the root, and keys ascend from left to right.
    pub open spec fn is_search_tree(self) -> bool {
        exists|w: Layout<Id>| self.laid_out(w)
    }

    /// A layout of the graph, where it is a search tree.
    pub open spec fn layout(self) -> Layout<Id> {
        choose|w: Layout<Id>| self.laid_out(w)
    }

    /// Every node of `before` is still there, with the key that it had.
    pub open spec fn keeps_nodes_of(self, before: Self) -> bool {
        forall|id: Id| #[trigger] before.has(id) ==> self.has(id) && self.key(id) == before.key(id)
    }

    /// The same graph with another payload in node `id`.
    pub open spec fn with_value(self, id: Id, value: V) -> Self {
        TreeModel {
            nodes: self.nodes.insert(id, NodeModel { value, ..self.nodes[id] }),
            root: self.root,
        }
    }

    /// Node `x` has the right child that a left rotation lifts.
    pub open spec fn can_rotate_left(self, x: Id) -> bool {
        self.has(x) && self.nodes[x].right is Some
    }

    /// Node `x` has the left child that a right rotation lifts.
    pub open spec fn can_rotate_right(self, x: Id) -> bool {
        self.has(x) && self.nodes[x].left is Some
    }

    /// The parent of `x` with `y` in the place of `x` among its children.
    pub open spec fn relinked_parent(self, x: Id, y: Id) -> Map<Id, NodeModel<K, V, Id>> {
        match self.nodes[x].parent {
            Some(p) => {
                let np = self.nodes[p];
                if np.left == Some(x) {
                    map![p => NodeModel { left: Some(y), ..np }]
                } else {
                    map![p => NodeModel { right: Some(y), ..np }]
                }
            },
            None => Map::empty(),
        }
    }

    /// The graph after a left rotation about `x`: the right child `y` of `x`
    /// takes the place of `x`, `x` becomes the left child of `y`, and the
    /// former left subtree of `y` becomes the right subtree of `x`.
    pub open spec fn rotated_left(self, x: Id) -> Self {
        let nx = self.nodes[x];
        let y = nx.right.unwrap();
        let ny = self.nodes[y];
        let moved = match ny.left {
            Some(b) => map![b => NodeModel { parent: Some(x), ..self.nodes[b] }],
            None => Map::empty(),
        };
        let pivots = map![
            x => NodeModel { parent: Some(y), right: ny.left, ..nx },
            y => NodeModel { parent: nx.parent, left: Some(x), ..ny },
        ];
        TreeModel {
            nodes: self.nodes.union_prefer_right(moved).union_prefer_right(
                self.relinked_parent(x, y),
            ).union_prefer_right(pivots),
            root: if nx.parent is None {
                Some(y)
            } else {
                self.root
            },
        }
    }

    /// The mirror image of `rotated_left`: the left child `y` of `x` takes the
    /// place of `x`, `x` becomes the right child of `y`, and the former right
    /// subtree of `y` becomes the left subtree of `x`.
    pub open spec fn rotated_right(self, x: Id) -> Self {
        let nx = self.nodes[x];
        let y = nx.left.unwrap();
        let ny = self.nodes[y];
        let moved = match ny.right {
            Some(b) => map![b => NodeModel { parent: Some(x), ..self.nodes[b] }],
            None => Map::empty(),
        };
        let pivots = map![
            x => NodeModel { parent: Some(y), left: ny.right, ..nx },
            y => NodeModel { parent: nx.parent, right: Some(x), ..ny },
        ];
        TreeModel {
            nodes: self.nodes.union_prefer_right(moved).union_prefer_right(
                self.relinked_parent(x, y),
            ).union_prefer_right(pivots),
            root: if nx.parent is None {
                Some(y)
            } else {
                self.root
            },
        }
    }

    /// The slot is empty.
    pub open spec fn slot_free(self, slot: Slot<Id>) -> bool {
        match slot {
            Slot::Root => self.root is None,
            Slot::LeftOf(p) => self.has(p) && self.nodes[p].left is None,
            Slot::RightOf(p) => self.has(p) && self.nodes[p].right is None,
        }
    }

    /// `key` belongs in the slot: it lies on the right side of the slot's
    /// parent, and no stored key lies between the two.
    pub open spec fn slot_takes(self, slot: Slot<Id>, key: K) -> bool {
        match slot {
            Slot::Root => true,
            Slot::LeftOf(p) => key_lt(key, self.key(p)) && forall|id: Id| #[trigger]
                self.has(id) ==> id == p || key_lt(self.key(id), key) || key_lt(
                    self.key(p),
                    self.key(id),
                ),
            Slot::RightOf(p) => key_lt(self.key(p), key) && forall|id: Id| #[trigger]
                self.has(id) ==> id == p || key_lt(self.key(id), self.key(p)) || key_lt(
                    key,
                    self.key(id),
                ),
        }
    }

    /// The graph with a new leaf `r` linked into an empty slot.
    pub open spec fn with_leaf(self, slot: Slot<Id>, r: Id, key: K, value: V) -> Self {
        match slot {
            Slot::Root => TreeModel {
                nodes: self.nodes.insert(
                    r,
                    NodeModel { key, value, parent: None, left: None, right: None },
                ),
                root: Some(r),
            },
            Slot::LeftOf(p) => TreeModel {
                nodes: self.nodes.insert(p, NodeModel { left: Some(r), ..self.nodes[p] }).insert(
                    r,
                    NodeModel { key, value, parent: Some(p), left: None, right: None },
                ),
                root: self.root,
            },
            Slot::RightOf(p) => TreeModel {
                nodes: self.nodes.insert(p, NodeModel { right: Some(r), ..self.nodes[p] }).insert(
                    r,
                    NodeModel { key, value, parent: Some(p), left: None, right: None },
                ),
                root: self.root,
            },
        }
    }
}

impl<Id> Layout<Id> {
    /// The layout after a new leaf `r` went into `slot`.
    pub open spec fn with_leaf(self, slot: Slot<Id>, r: Id) -> Self {
        match slot {
            Slot::Root => self.opened(r, 0, false),
            Slot::LeftOf(p) => self.opened(r, (self.pos)(p), false),
            Slot::RightOf(p) => self.opened(r, (self.pos)(p) + 1, true),
        }
    }

    /// The layout after a rotation about `x` that lifts its child `y`:
    /// `y` takes over the range of `x`, and `x` keeps the part on its own
    /// side of `y`.
    pub open spec fn lifted(self, x: Id, y: Id) -> Self {
        let (lo_x, hi_x) = if (self.pos)(x) < (self.pos)(y) {
            ((self.lo)(x), (self.pos)(y))
        } else {
            ((self.pos)(y) + 1, (self.hi)(x))
        };
        let (lo_y, hi_y) = ((self.lo)(x), (self.hi)(x));
        Layout {
            order: self.order,
            pos: self.pos,
            lo: |id: Id|
                if id == x {
                    lo_x
                } else if id == y {
                    lo_y
                } else {
                    (self.lo)(id)
                },
            hi: |id: Id|
                if id == x {
                    hi_x
                } else if id == y {
                    hi_y
                } else {
                    (self.hi)(id)
                },
        }
    }

    /// The layout with a new node `r` at index `i`. Ranges that end at `i`
    /// grow over the new index when `grow_end` holds (the new node is the
    /// last of those subtrees); ranges that start at `i` keep their start
    /// otherwise (the new node is their first).
    pub open spec fn opened(self, r: Id, i: int, grow_end: bool) -> Self {
        Layout {
            order: Seq::new(
                self.order.len() + 1,
                |j: int|
                    if j < i {
                        self.order[j]
                    } else if j == i {
                        r
                    } else {
                        self.order[j - 1]
                    },
            ),
            pos: |id: Id|
                if id == r {
                    i
                } else if (self.pos)(id) < i {
                    (self.pos)(id)
                } else {
                    (self.pos)(id) + 1
                },
            lo: |id: Id|
                if id == r {
                    i
                } else if (self.lo)(id) < i || ((self.lo)(id) == i && !grow_end) {
                    (self.lo)(id)
                } else {
                    (self.lo)(id) + 1
                },
            hi: |id: Id|
                if id == r {
                    i + 1
                } else if (self.hi)(id) < i || ((self.hi)(id) == i && !grow_end) {
                    (self.hi)(id)
                } else {
                    (self.hi)(id) + 1
                },
        }
    }
}

/// Two distinct nodes of a search tree hold distinct keys.
pub proof fn lemma_keys_distinct<K: Ord, V, Id>(
    m: TreeModel<K, V, Id>,
    w: Layout<Id>,
    a: Id,
    b: Id,
)
    requires
        total_order::<K>(),
        m.laid_out(w),
        m.has(a),
        m.has(b),
        a != b,
    ensures
        m.key(a) != m.key(b),
        (w.pos)(a) != (w.pos)(b),
        (w.pos)(a) < (w.pos)(b) <==> key_lt(m.key(a), m.key(b)),
{
    assert(m.node_fits(w, a));
    assert(m.node_fits(w, b));
    let i = (w.pos)(a);
    let j = (w.pos)(b);
    assert(w.order[i] == a && w.order[j] == b);
    if i < j {
        assert(key_lt(m.key(w.order[i]), m.key(w.order[j])));
        lemma_lt_asymmetric(m.key(a), m.key(b));
    } else {
        assert(key_lt(m.key(w.order[j]), m.key(w.order[i])));
        lemma_lt_asymmetric(m.key(b), m.key(a));
    }
}

/// Writing a payload leaves the tree's layout as it is.
pub proof fn lemma_with_value<K: Ord, V, Id>(
    m: TreeModel<K, V, Id>,
    w: Layout<Id>,
    id: Id,
    value: V,
)
    requires
        m.laid_out(w),
        m.has(id),
    ensures
        m.with_value(id, value).laid_out(w),
{
    let m2 = m.with_value(id, value);
    assert forall|a: Id| m2.has(a) implies #[trigger] m2.node_fits(w, a) by {
        assert(m.node_fits(w, a));
    }
    assert forall|i: int| 0 <= i < w.order.len() implies m2.has(#[trigger] w.order[i]) && (w.pos)(
        w.order[i],
    ) == i by {}
    assert forall|i: int, j: int| 0 <= i < j < w.order.len() implies key_lt(
        m2.key(#[trigger] w.order[i]),
        m2.key(#[trigger] w.order[j]),
    ) by {
        assert(key_lt(m.key(w.order[i]), m.key(w.order[j])));
    }
}

/// A left rotation keeps the graph a search tree, over the same order of
/// the nodes, and keeps every node's key and payload.
pub proof fn lemma_rotated_left<K: Ord, V, Id>(m: TreeModel<K, V, Id>, w: Layout<Id>, x: Id)
    requires
        m.laid_out(w),
        m.can_rotate_left(x),
    ensures
        m.rotated_left(x).laid_out(w.lifted(x, m.nodes[x].right.unwrap())),
        m.rotated_left(x).nodes.dom() == m.nodes.dom(),
        forall|id: Id| #[trigger]
            m.has(id) ==> m.rotated_left(x).nodes[id].key == m.nodes[id].key && m.rotated_left(
                x,
            ).nodes[id].value == m.nodes[id].value,
{
    let y = m.nodes[x].right.unwrap();
    let m2 = m.rotated_left(x);
    let w2 = w.lifted(x, y);
    assert(m.node_fits(w, x));
    assert(m.node_fits(w, y));
    if let Some(b) = m.nodes[y].left {
        assert(m.node_fits(w, b));
    }
    if let Some(p) = m.nodes[x].parent {
        assert(m.node_fits(w, p));
    }
    assert(m2.nodes.dom() =~= m.nodes.dom());
    assert forall|id: Id| m2.has(id) implies #[trigger] m2.node_fits(w2, id) by {
        assert(m.node_fits(w, id));
        if let Some(c) = m.nodes[id].left {
            assert(m.node_fits(w, c));
        }
        if let Some(c) = m.nodes[id].right {
            assert(m.node_fits(w, c));
        }
    }
    assert forall|i: int| 0 <= i < w2.order.len() implies m2.has(#[trigger] w2.order[i]) && (
    w2.pos)(w2.order[i]) == i by {
        assert(m.has(w.order[i]));
    }
    assert forall|i: int, j: int| 0 <= i < j < w2.order.len() implies key_lt(
        m2.key(#[trigger] w2.order[i]),
        m2.key(#[trigger] w2.order[j]),
    ) by {
        assert(m.has(w.order[i]) && m.has(w.order[j]));
        assert(key_lt(m.key(w.order[i]), m.key(w.order[j])));
    }
}

/// A right rotation keeps the graph a search tree, over the same order of
/// the nodes, and keeps every node's key and payload.
pub proof fn lemma_rotated_right<K: Ord, V, Id>(m: TreeModel<K, V, Id>, w: Layout<Id>, x: Id)
    requires
        m.laid_out(w),
        m.can_rotate_right(x),
    ensures
        m.rotated_right(x).laid_out(w.lifted(x, m.nodes[x].left.unwrap())),
        m.rotated_right(x).nodes.dom() == m.nodes.dom(),
        forall|id: Id| #[trigger]
            m.has(id) ==> m.rotated_right(x).nodes[id].key == m.nodes[id].key && m.rotated_right(
                x,
            ).nodes[id].value == m.nodes[id].value,
{
    let y = m.nodes[x].left.unwrap();
    let m2 = m.rotated_right(x);
    let w2 = w.lifted(x, y);
    assert(m.node_fits(w, x));
    assert(m.node_fits(w, y));
    if let Some(b) = m.nodes[y].right {
        assert(m.node_fits(w, b));
    }
    if let Some(p) = m.nodes[x].parent {
        assert(m.node_fits(w, p));
    }
    assert(m2.nodes.dom() =~= m.nodes.dom());
    assert forall|id: Id| m2.has(id) implies #[trigger] m2.node_fits(w2, id) by {
        assert(m.node_fits(w, id));
        if let Some(c) = m.nodes[id].left {
            assert(m.node_fits(w, c));
        }
        if let Some(c) = m.nodes[id].right {
            assert(m.node_fits(w, c));
        }
    }
    assert forall|i: int| 0 <= i < w2.order.len() implies m2.has(#[trigger] w2.order[i]) && (
    w2.pos)(w2.order[i]) == i by {
        assert(m.has(w.order[i]));
    }
    assert forall|i: int, j: int| 0 <= i < j < w2.order.len() implies key_lt(
        m2.key(#[trigger] w2.order[i]),
        m2.key(#[trigger] w2.order[j]),
    ) by {
        assert(m.has(w.order[i]) && m.has(w.order[j]));
        assert(key_lt(m.key(w.order[i]), m.key(w.order[j])));
    }
}

/// Linking a new leaf into the empty slot where its key belongs keeps the
/// graph a search tree.
pub proof fn lemma_with_leaf<K: Ord, V, Id>(
    m: TreeModel<K, V, Id>,
    w: Layout<Id>,
    slot: Slot<Id>,
    r: Id,
    key: K,
    value: V,
)
    requires
        total_order::<K>(),
        m.laid_out(w),
        !m.has(r),
        m.slot_free(slot),
        m.slot_takes(slot, key),
    ensures
        m.with_leaf(slot, r, key, value).laid_out(w.with_leaf(slot, r)),
{
    let m2 = m.with_leaf(slot, r, key, value);
    let w2 = w.with_leaf(slot, r);
    let i = (w2.pos)(r);
    match slot {
        Slot::Root => {},
        Slot::LeftOf(p) => {
            assert(m.node_fits(w, p));
        },
        Slot::RightOf(p) => {
            assert(m.node_fits(w, p));
        },
    }
    assert(0 <= i <= w.order.len());
    // the stored keys below index i are below the new key, the others above
    assert forall|j: int| 0 <= j < w.order.len() implies if j < i {
        key_lt(m.key(#[trigger] w.order[j]), key)
    } else {
        key_lt(key, m.key(w.order[j]))
    } by {
        let id = w.order[j];
        assert(m.has(id));
        match slot {
            Slot::Root => {},
            Slot::LeftOf(p) => {
                let ip = (w.pos)(p);
                assert(w.order[ip] == p);
                if j < ip {
                    assert(key_lt(m.key(w.order[j]), m.key(w.order[ip])));
                    lemma_lt_asymmetric(m.key(id), m.key(p));
                } else if j > ip {
                    assert(key_lt(m.key(w.order[ip]), m.key(w.order[j])));
                    lemma_lt_transitive(key, m.key(p), m.key(id));
                }
            },
            Slot::RightOf(p) => {
                let ip = (w.pos)(p);
                assert(w.order[ip] == p);
                if j < ip {
                    assert(key_lt(m.key(w.order[j]), m.key(w.order[ip])));
                    lemma_lt_transitive(m.key(id), m.key(p), key);
                } else if j > ip {
                    assert(key_lt(m.key(w.order[ip]), m.key(w.order[j])));
                    lemma_lt_asymmetric(m.key(p), m.key(id));
                }
            },
        }
    }
    assert forall|id: Id| m2.has(id) implies #[trigger] m2.node_fits(w2, id) by {
        if id != r {
            assert(m.node_fits(w, id));
            if let Some(c) = m.nodes[id].left {
                assert(m.node_fits(w, c));
            }
            if let Some(c) = m.nodes[id].right {
                assert(m.node_fits(w, c));
            }
            if let Some(q) = m.nodes[id].parent {
                assert(m.node_fits(w, q));
            }
        }
    }
    assert forall|j: int| 0 <= j < w2.order.len() implies m2.has(#[trigger] w2.order[j]) && (
    w2.pos)(w2.order[j]) == j by {
        if j < i {
            assert(m.has(w.order[j]));
        } else if j > i {
            assert(m.has(w.order[j - 1]));
        }
    }
    assert forall|a: int, b: int| 0 <= a < b < w2.order.len() implies key_lt(
        m2.key(#[trigger] w2.order[a]),
        m2.key(#[trigger] w2.order[b]),
    ) by {
        let a0 = if a < i { a } else { a - 1 };
        let b0 = if b < i { b } else { b - 1 };
        if a != i {
            assert(m.has(w.order[a0]));
        }
        if b != i {
            assert(m.has(w.order[b0]));
        }
        if a != i && b != i {
            assert(key_lt(m.key(w.order[a0]), m.key(w.order[b0])));
        }
    }
}

/// In a search tree the content maps each node's key to that node's payload.
pub proof fn lemma_content_of_node<K: Ord, V, Id>(m: TreeModel<K, V, Id>, id: Id)
    requires
        total_order::<K>(),
        m.is_search_tree(),
        m.has(id),
    ensures
        m.content().contains_key(m.key(id)),
        m.content()[m.key(id)] == m.nodes[id].value,
        m.node_of(m.key(id)) == id,
{
    let k = m.key(id);
    assert(m.has_key(k));
    let other = m.node_of(k);
    if other != id {
        lemma_keys_distinct(m, m.layout(), id, other);
    }
}

/// A key that belongs in an empty slot is not stored.
pub proof fn lemma_slot_key_absent<K: Ord, V, Id>(m: TreeModel<K, V, Id>, slot: Slot<Id>, key: K)
    requires
        total_order::<K>(),
        m.is_search_tree(),
        m.slot_free(slot),
        m.slot_takes(slot, key),
    ensures
        !m.has_key(key),
{
    if m.has_key(key) {
        let id = m.node_of(key);
        let w = m.layout();
        assert(m.node_fits(w, id));
        match slot {
            Slot::Root => {},
            Slot::LeftOf(p) => {
                lemma_lt_asymmetric(key, m.key(p));
                crate::order::lemma_lt_irreflexive(key);
            },
            Slot::RightOf(p) => {
                lemma_lt_asymmetric(m.key(p), key);
                crate::order::lemma_lt_irreflexive(key);
            },
        }
    }
}

/// Two graphs with the same nodes, keys and payloads have the same content.
pub proof fn lemma_content_same<K: Ord, V, Id>(m: TreeModel<K, V, Id>, m2: TreeModel<K, V, Id>)
    requires
        total_order::<K>(),
        m.is_search_tree(),
        m2.is_search_tree(),
        m2.nodes.dom() == m.nodes.dom(),
        forall|id: Id| #[trigger]
            m.has(id) ==> m2.nodes[id].key == m.nodes[id].key && m2.nodes[id].value
                == m.nodes[id].value,
    ensures
        m2.content() == m.content(),
{
    assert forall|k: K| #[trigger] m.content().contains_key(k) implies m2.content().contains_key(k)
        && m2.content()[k] == m.content()[k] by {
        let id = m.node_of(k);
        assert(m2.has(id));
        lemma_content_of_node(m, id);
        lemma_content_of_node(m2, id);
    }
    assert forall|k: K| #[trigger] m2.content().contains_key(k) implies m.content().contains_key(
        k,
    ) by {
        let id = m2.node_of(k);
        assert(m.has(id));
        lemma_content_of_node(m, id);
    }
    assert(m2.content().dom() =~= m.content().dom());
    assert(m2.content() =~= m.content());
}

/// Writing a payload into a node writes it under the node's key.
pub proof fn lemma_content_with_value<K: Ord, V, Id>(m: TreeModel<K, V, Id>, id: Id, value: V)
    requires
        total_order::<K>(),
        m.is_search_tree(),
        m.has(id),
    ensures
        m.with_value(id, value).is_search_tree(),
        m.with_value(id, value).content() == m.content().insert(m.key(id), value),
{
    let m2 = m.with_value(id, value);
    lemma_with_value(m, m.layout(), id, value);
    assert(m2.laid_out(m.layout()));
    let c = m.content().insert(m.key(id), value);
    assert forall|k: K| #[trigger] c.contains_key(k) implies m2.content().contains_key(k)
        && m2.content()[k] == c[k] by {
        let a = if k == m.key(id) {
            id
        } else {
            m.node_of(k)
        };
        assert(m2.has(a));
        lemma_content_of_node(m, a);
        lemma_content_of_node(m2, a);
    }
    assert forall|k: K| #[trigger] m2.content().contains_key(k) implies c.contains_key(k) by {
        let a = m2.node_of(k);
        assert(m.has(a));
        lemma_content_of_node(m, a);
    }
    assert(m2.content().dom() =~= c.dom());
    assert(m2.content() =~= c);
}

/// Linking a new leaf adds its key and payload to the content.
pub proof fn lemma_content_with_leaf<K: Ord, V, Id>(
    m: TreeModel<K, V, Id>,
    slot: Slot<Id>,
    r: Id,
    key: K,
    value: V,
)
    requires
        total_order::<K>(),
        m.is_search_tree(),
        !m.has(r),
        m.slot_free(slot),
        m.slot_takes(slot, key),
    ensures
        m.with_leaf(slot, r, key, value).is_search_tree(),
        m.with_leaf(slot, r, key, value).content() == m.content().insert(key, value),
{
    let m2 = m.with_leaf(slot, r, key, value);
    lemma_with_leaf(m, m.layout(), slot, r, key, value);
    assert(m2.laid_out(m.layout().with_leaf(slot, r)));
    lemma_slot_key_absent(m, slot, key);
    let c = m.content().insert(key, value);
    assert forall|k: K| #[trigger] c.contains_key(k) implies m2.content().contains_key(k)
        && m2.content()[k] == c[k] by {
        let a = if k == key {
            r
        } else {
            m.node_of(k)
        };
        assert(m2.has(a));
        assert(m2.key(a) == k);
        if k != key {
            lemma_content_of_node(m, a);
        }
        lemma_content_of_node(m2, a);
    }
    assert forall|k: K| #[trigger] m2.content().contains_key(k) implies c.contains_key(k) by {
        let a = m2.node_of(k);
        if a != r {
            assert(m.has(a));
            lemma_content_of_node(m, a);
        }
    }
    assert(m2.content().dom() =~= c.dom());
    assert(m2.content() =~= c);
}

/// Every node of a search tree hangs under the root: a path leads from the
/// root down to it.
pub proof fn lemma_path_from_root<K: Ord, V, Id>(m: TreeModel<K, V, Id>, w: Layout<Id>, id: Id) -> (path:
    Seq<Id>)
    requires
        m.laid_out(w),
        m.has(id),
    ensures
        m.is_path(path),
        m.root == Some(path.first()),
        path.last() == id,
    decreases w.order.len() - ((w.hi)(id) - (w.lo)(id)),
{
    assert(m.node_fits(w, id));
    match m.nodes[id].parent {
        None => seq![id],
        Some(p) => {
            assert(m.node_fits(w, p));
            let above = lemma_path_from_root(m, w, p);
            let path = above.push(id);
            assert forall|i: int| 0 <= i < path.len() - 1 implies m.nodes[#[trigger] path[i]].left
                == Some(path[i + 1]) || m.nodes[path[i]].right == Some(path[i + 1]) by {
                if i < above.len() - 1 {
                    assert(path[i] == above[i]);
                    assert(path[i + 1] == above[i + 1]);
                }
            }
            path
        },
    }
}

/// A search tree has as many nodes as its layout has indices.
pub proof fn lemma_node_count<K: Ord, V, Id>(m: TreeModel<K, V, Id>, w: Layout<Id>)
    requires
        m.laid_out(w),
    ensures
        m.nodes.dom().finite(),
        m.nodes.dom().len() == w.order.len(),
{
    assert forall|i: int, j: int| 0 <= i < w.order.len() && 0 <= j < w.order.len() && i
        != j implies w.order[i] != w.order[j] by {
        assert(m.has(w.order[i]) && (w.pos)(w.order[i]) == i);
        assert(m.has(w.order[j]) && (w.pos)(w.order[j]) == j);
    }
    assert(w.order.no_duplicates());
    assert forall|id: Id| m.nodes.dom().contains(id) implies w.order.to_set().contains(id) by {
        assert(m.has(id));
        assert(m.node_fits(w, id));
        assert(w.order[(w.pos)(id)] == id);
    }
    assert forall|id: Id| w.order.to_set().contains(id) implies m.nodes.dom().contains(id) by {
        let i = choose|i: int| 0 <= i < w.order.len() && w.order[i] == id;
        assert(m.has(w.order[i]));
    }
    assert(w.order.to_set() =~= m.nodes.dom());
    w.order.unique_seq_to_set();
    vstd::seq_lib::seq_to_set_is_finite(w.order);
}

/// A search tree holds as many keys as its layout has indices.
pub proof fn lemma_key_count<K: Ord, V, Id>(m: TreeModel<K, V, Id>, w: Layout<Id>)
    requires
        total_order::<K>(),
        m.laid_out(w),
    ensures
        m.content().dom().finite(),
        m.content().dom().len() == w.order.len(),
{
    let keys = Seq::new(w.order.len(), |i: int| m.key(w.order[i]));
    assert forall|i: int, j: int| 0 <= i < keys.len() && 0 <= j < keys.len() && i
        != j implies keys[i] != keys[j] by {
        assert(m.has(w.order[i]) && (w.pos)(w.order[i]) == i);
        assert(m.has(w.order[j]) && (w.pos)(w.order[j]) == j);
        lemma_keys_distinct(m, w, w.order[i], w.order[j]);
    }
    assert(keys.no_duplicates());
    assert forall|k: K| m.content().dom().contains(k) implies keys.to_set().contains(k) by {
        let id = m.node_of(k);
        assert(m.node_fits(w, id));
        assert(keys[(w.pos)(id)] == k);
    }
    assert forall|k: K| keys.to_set().contains(k) implies m.content().dom().contains(k) by {
        let i = choose|i: int| 0 <= i < keys.len() && keys[i] == k;
        assert(m.has(w.order[i]));
        assert(m.has_key(k));
    }
    assert(keys.to_set() =~= m.content().dom());
    keys.unique_seq_to_set();
    vstd::seq_lib::seq_to_set_is_finite(keys);
}

/// The rest of a path of more than one node is a path.
pub proof fn lemma_rest_of_path<K: Ord, V, Id>(m: TreeModel<K, V, Id>, path: Seq<Id>)
    requires
        m.is_path(path),
        path.len() > 1,
    ensures
        m.is_path(path.drop_first()),
        path.drop_first().first() == path[1],
        path.drop_first().last() == path.last(),
        m.nodes[path[0]].left == Some(path[1]) || m.nodes[path[0]].right == Some(path[1]),
{
    let rest = path.drop_first();
    assert forall|i: int| 0 <= i < rest.len() implies m.has(#[trigger] rest[i]) by {
        assert(rest[i] == path[i + 1]);
    }
    assert forall|i: int| 0 <= i < rest.len() - 1 implies m.nodes[#[trigger] rest[i]].left == Some(
        rest[i + 1],
    ) || m.nodes[rest[i]].right == Some(rest[i + 1]) by {
        assert(rest[i] == path[i + 1]);
        assert(rest[i + 1] == path[i + 2]);
    }
}

/// Every node on a path lies in the index range of the path's first node.
pub proof fn lemma_path_stays_in_range<K: Ord, V, Id>(
    m: TreeModel<K, V, Id>,
    w: Layout<Id>,
    path: Seq<Id>,
    i: int,
)
    requires
        m.laid_out(w),
        m.is_path(path),
        0 <= i < path.len(),
    ensures
        (w.lo)(path[0]) <= (w.lo)(path[i]),
        (w.hi)(path[i]) <= (w.hi)(path[0]),
        m.node_fits(w, path[i]),
    decreases i,
{
    assert(m.node_fits(w, path[i]));
    if i > 0 {
        lemma_path_stays_in_range(m, w, path, i - 1);
        assert(m.node_fits(w, path[i - 1]));
    }
}

/// Binary-search-tree ordering on the left: every key in the left subtree of
/// a node is less than the node's key. The subtree is given by a path that
/// starts at the node's left child.
pub proof fn lemma_left_subtree_keys_are_less<K: Ord, V, Id>(
    m: TreeModel<K, V, Id>,
    n: Id,
    path: Seq<Id>,
)
    requires
        total_order::<K>(),
        m.is_search_tree(),
        m.has(n),
        m.is_path(path),
        m.nodes[n].left == Some(path[0]),
    ensures
        key_lt(m.key(path.last()), m.key(n)),
{
    let w = m.layout();
    let d = path.last();
    lemma_path_stays_in_range(m, w, path, path.len() - 1);
    assert(m.node_fits(w, n));
    assert(m.node_fits(w, d));
    assert(key_lt(m.key(w.order[(w.pos)(d)]), m.key(w.order[(w.pos)(n)])));
}

/// Binary-search-tree ordering on the right: every key in the right subtree
/// of a node is greater than the node's key. The subtree is given by a path
/// that starts at the node's right child.
pub proof fn lemma_right_subtree_keys_are_greater<K: Ord, V, Id>(
    m: TreeModel<K, V, Id>,
    n: Id,
    path: Seq<Id>,
)
    requires
        total_order::<K>(),
        m.is_search_tree(),
        m.has(n),
        m.is_path(path),
        m.nodes[n].right == Some(path[0]),
    ensures
        key_lt(m.key(n), m.key(path.last())),
{
    let w = m.layout();
    let d = path.last();
    lemma_path_stays_in_range(m, w, path, path.len() - 1);
    assert(m.node_fits(w, n));
    assert(m.node_fits(w, d));
    assert(key_lt(m.key(w.order[(w.pos)(n)]), m.key(w.order[(w.pos)(d)])));
}

} // verus!
