use crate::order::key_lt;
use crate::order::total_order;
use crate::trees::model::lemma_content_of_node;
use crate::trees::model::lemma_content_with_value;
use crate::trees::model::lemma_node_count;
use crate::trees::model::lemma_rest_of_path;
use crate::trees::model::lemma_rotated_left;
use crate::trees::model::lemma_rotated_right;
use crate::trees::model::lemma_with_value;
use crate::trees::model::Layout;
use crate::trees::model::Slot;
use crate::trees::model::TreeModel;
use crate::trees::traits::NodeIdentifiableTree;
use crate::trees::traits::ParentifiedTree;
use crate::trees::traits::RotatableTree;
use crate::trees::traits::Tree;
use core::marker::PhantomData;
use vstd::arithmetic::power2::lemma2_to64;
use vstd::arithmetic::power2::lemma_pow2_strictly_increases;
use vstd::arithmetic::power2::lemma_pow2_unfold;
use vstd::arithmetic::power2::pow2;
use vstd::prelude::*;

verus! {

/// The colour flag of a red node.
pub const RED: bool = true;

/// The colour flag of a black node.
pub const BLACK: bool = false;

/// What a red-black tree keeps in a node of its store: the caller's value
/// and the node's colour.
pub struct Data<Value> {
    value: Value,
    color: bool,
}

impl<Value> Data<Value> {
    /// The caller's value.
    pub closed spec fn plain(self) -> Value {
        self.value
    }

    /// The node is red.
    pub closed spec fn red(self) -> bool {
        self.color == RED
    }

    /// Another value under the same colour.
    pub closed spec fn revalued(self, value: Value) -> Self {
        Data { value, color: self.color }
    }

    /// The same value under another colour.
    pub closed spec fn painted(self, red: bool) -> Self {
        Data { value: self.value, color: red }
    }

    /// The payload of `value` under the given colour.
    pub closed spec fn made(value: Value, red: bool) -> Self {
        Data { value, color: red }
    }

    /// A payload with another value keeps its colour.
    pub broadcast proof fn lemma_revalued(self, value: Value)
        ensures
            #![trigger self.revalued(value)]
            self.revalued(value).red() == self.red(),
            self.revalued(value).plain() == value,
    {
    }

    /// A payload under another colour keeps its value.
    pub broadcast proof fn lemma_painted(self, red: bool)
        ensures
            #![trigger self.painted(red)]
            self.painted(red).red() == red,
            self.painted(red).plain() == self.plain(),
    {
    }

    /// A payload holds the value and the colour that it was made of.
    pub broadcast proof fn lemma_made(value: Value, red: bool)
        ensures
            #![trigger Self::made(value, red)]
            Self::made(value, red).red() == red,
            Self::made(value, red).plain() == value,
    {
    }

    /// A payload is its value and its colour, and nothing else.
    pub proof fn lemma_same(self, other: Self)
        requires
            self.plain() == other.plain(),
            self.red() == other.red(),
        ensures
            self == other,
    {
    }

    /// The caller's value.
    pub fn value(&self) -> (v: &Value)
        ensures
            *v == self.plain(),
    {
        &self.value
    }

    /// Whether the node is red.
    pub fn is_red(&self) -> (r: bool)
        ensures
            r == self.red(),
    {
        self.color == RED
    }
}

/// The graph with node `id` painted red or black.
pub open spec fn paint<K: Ord, V, Id>(m: TreeModel<K, Data<V>, Id>, id: Id, red: bool) -> TreeModel<
    K,
    Data<V>,
    Id,
> {
    m.with_value(id, m.nodes[id].value.painted(red))
}

/// Node `id` is red.
pub open spec fn red<K: Ord, V, Id>(m: TreeModel<K, Data<V>, Id>, id: Id) -> bool {
    m.nodes[id].value.red()
}

/// The number of black nodes on the way down from a child link.
spec fn black_below<Id>(bh: spec_fn(Id) -> nat, child: Option<Id>) -> nat {
    match child {
        Some(c) => bh(c),
        None => 0,
    }
}

/// The black heights below the two children of `id` agree, and `bh` counts
/// `id` itself where it is black.
spec fn node_balanced<K: Ord, V, Id>(
    m: TreeModel<K, Data<V>, Id>,
    bh: spec_fn(Id) -> nat,
    id: Id,
) -> bool {
    let n = m.nodes[id];
    &&& black_below(bh, n.left) == black_below(bh, n.right)
    &&& bh(id) == black_below(bh, n.left) + if red(m, id) {
        0nat
    } else {
        1nat
    }
}

/// `bh` gives every node the number of black nodes on each way from it down
/// to an absent child.
spec fn balanced<K: Ord, V, Id>(
    m: TreeModel<K, Data<V>, Id>,
    bh: spec_fn(Id) -> nat,
) -> bool {
    forall|id: Id| m.has(id) ==> #[trigger] node_balanced(m, bh, id)
}

/// A red node `id` has a black parent.
spec fn red_under_black<K: Ord, V, Id>(m: TreeModel<K, Data<V>, Id>, id: Id) -> bool {
    red(m, id) ==> match m.nodes[id].parent {
        Some(p) => !red(m, p),
        None => true,
    }
}

/// No red node but `z` has a red parent.
spec fn reds_apart_but<K: Ord, V, Id>(
    m: TreeModel<K, Data<V>, Id>,
    z: Option<Id>,
) -> bool {
    forall|id: Id| m.has(id) && Some(id) != z ==> #[trigger] red_under_black(m, id)
}

/// The root, where there is one, is black.
spec fn root_black<K: Ord, V, Id>(m: TreeModel<K, Data<V>, Id>) -> bool {
    match m.root {
        Some(r) => !red(m, r),
        None => true,
    }
}

/// The red-black invariants: the root is black, no red node has a red
/// parent, and every way from the root down to an absent child passes the
/// same number of black nodes.
spec fn is_red_black<K: Ord, V, Id>(m: TreeModel<K, Data<V>, Id>) -> bool {
    &&& root_black(m)
    &&& reds_apart_but(m, None)
    &&& exists|bh: spec_fn(Id) -> nat| balanced(m, bh)
}

/// The number of black nodes on a path.
pub open spec fn black_count<K: Ord, V, Id>(m: TreeModel<K, Data<V>, Id>, path: Seq<Id>) -> nat
    decreases path.len(),
{
    if path.len() == 0 {
        0
    } else {
        black_count(m, path.drop_first()) + if m.nodes[path[0]].value.red() {
            0nat
        } else {
            1nat
        }
    }
}

/// A path from any node down to a node that lacks a child passes as many
/// black nodes as `bh` says of its first node.
proof fn lemma_black_count<K: Ord, V, Id>(
    m: TreeModel<K, Data<V>, Id>,
    bh: spec_fn(Id) -> nat,
    path: Seq<Id>,
)
    requires
        balanced(m, bh),
        m.is_path(path),
        m.nodes[path.last()].left is None || m.nodes[path.last()].right is None,
    ensures
        black_count(m, path) == bh(path[0]),
    decreases path.len(),
{
    assert(node_balanced(m, bh, path[0]));
    let rest = path.drop_first();
    if path.len() == 1 {
        assert(black_count(m, rest) == 0);
    } else {
        lemma_rest_of_path(m, path);
        lemma_black_count(m, bh, rest);
    }
}

/// A subtree holds at least two to the power of its black height, less
/// one, nodes.
proof fn lemma_subtree_size<K: Ord, V, Id>(
    m: TreeModel<K, Data<V>, Id>,
    w: Layout<Id>,
    bh: spec_fn(Id) -> nat,
    id: Id,
)
    requires
        m.laid_out(w),
        balanced(m, bh),
        m.has(id),
    ensures
        pow2(bh(id)) <= (w.hi)(id) - (w.lo)(id) + 1,
    decreases (w.hi)(id) - (w.lo)(id),
{
    assert(m.node_fits(w, id));
    assert(node_balanced(m, bh, id));
    let below = black_below(bh, m.nodes[id].left);
    lemma2_to64();
    match m.nodes[id].left {
        Some(l) => {
            assert(m.node_fits(w, l));
            lemma_subtree_size(m, w, bh, l);
        },
        None => {},
    }
    match m.nodes[id].right {
        Some(r) => {
            assert(m.node_fits(w, r));
            lemma_subtree_size(m, w, bh, r);
        },
        None => {},
    }
    lemma_pow2_unfold(below + 1);
}

/// Where no red node has a red parent, at least every other node of a path
/// is black.
proof fn lemma_path_length<K: Ord, V, Id>(
    m: TreeModel<K, Data<V>, Id>,
    w: Layout<Id>,
    path: Seq<Id>,
)
    requires
        m.laid_out(w),
        reds_apart_but(m, None),
        m.is_path(path),
    ensures
        path.len() <= 2 * black_count(m, path) + if red(m, path[0]) {
            1int
        } else {
            0int
        },
    decreases path.len(),
{
    let rest = path.drop_first();
    if path.len() == 1 {
        assert(black_count(m, rest) == 0);
    } else {
        lemma_rest_of_path(m, path);
        lemma_path_length(m, w, rest);
        assert(m.node_fits(w, path[0]));
        assert(red_under_black(m, path[1]));
    }
}

/// The state of a tree while an insertion is repaired: all invariants hold
/// but that the red node `z` may be the root or have a red parent.
spec fn fixing<K: Ord, V, Id>(
    m: TreeModel<K, Data<V>, Id>,
    w: Layout<Id>,
    bh: spec_fn(Id) -> nat,
    z: Id,
) -> bool {
    &&& m.laid_out(w)
    &&& m.has(z)
    &&& red(m, z)
    &&& reds_apart_but(m, Some(z))
    &&& balanced(m, bh)
    &&& (m.root == Some(z) || root_black(m))
}

/// How far below the root the parent of `z` lies, counted from above in
/// nodes outside its subtree: it shrinks as `z` moves up.
spec fn climb<K: Ord, V, Id>(m: TreeModel<K, Data<V>, Id>, w: Layout<Id>, z: Id) -> int {
    match m.nodes[z].parent {
        Some(p) => w.order.len() + 1 - ((w.hi)(p) - (w.lo)(p)),
        None => 0,
    }
}

/// 1 where `z`, its parent and its grandparent form a triangle, else 0.
spec fn zigzag<K: Ord, V, Id>(m: TreeModel<K, Data<V>, Id>, z: Id) -> int {
    match m.nodes[z].parent {
        Some(p) => match m.nodes[p].parent {
            Some(g) => if (m.nodes[g].left == Some(p) && m.nodes[p].right == Some(z)) || (
            m.nodes[g].right == Some(p) && m.nodes[p].left == Some(z)) {
                1
            } else {
                0
            },
            None => 0,
        },
        None => 0,
    }
}

/// The repair of an insertion has nothing left to do at `z`: it is the root,
/// or its parent is black.
pub open spec fn settled<K: Ord, V, Id>(m: TreeModel<K, Data<V>, Id>, z: Id) -> bool {
    match m.nodes[z].parent {
        Some(p) => !red(m, p),
        None => true,
    }
}

/// One round of the repair at the red node `z` under a red parent `p` with
/// the grandparent `g`, and the node at which the next round goes on:
/// - with a red uncle, `p` and the uncle turn black and `g` red, and the
///   repair goes on at `g`;
/// - else, where `z` is an inner grandchild (a triangle), `p` is rotated
///   outwards, and the repair goes on at `p`;
/// - else (a line), `p` turns black, `g` red, and `g` is rotated away from
///   `p`; the repair stays at `z`.
/// A graph that is settled at `z` stays as it is.
pub open spec fn repair_step<K: Ord, V, Id>(m: TreeModel<K, Data<V>, Id>, z: Id) -> (
    TreeModel<K, Data<V>, Id>,
    Id,
) {
    if settled(m, z) || m.nodes[m.nodes[z].parent.unwrap()].parent is None {
        (m, z)
    } else {
        let p = m.nodes[z].parent.unwrap();
        let g = m.nodes[p].parent.unwrap();
        if m.nodes[g].left == Some(p) {
            let uncle = m.nodes[g].right;
            if uncle is Some && red(m, uncle.unwrap()) {
                (recolored(m, p, uncle.unwrap(), g), g)
            } else if m.nodes[p].right == Some(z) {
                (m.rotated_left(p), p)
            } else {
                (straightened_left(m, p, g), z)
            }
        } else {
            let uncle = m.nodes[g].left;
            if uncle is Some && red(m, uncle.unwrap()) {
                (recolored(m, p, uncle.unwrap(), g), g)
            } else if m.nodes[p].left == Some(z) {
                (m.rotated_right(p), p)
            } else {
                (straightened_right(m, p, g), z)
            }
        }
    }
}

/// The graph after `rounds` rounds of the repair that starts at `z`, and the
/// node at which the repair stands then.
pub open spec fn repaired<K: Ord, V, Id>(m: TreeModel<K, Data<V>, Id>, z: Id, rounds: nat) -> (
    TreeModel<K, Data<V>, Id>,
    Id,
)
    decreases rounds,
{
    if rounds == 0 {
        (m, z)
    } else {
        let before = repaired(m, z, (rounds - 1) as nat);
        repair_step(before.0, before.1)
    }
}

/// The graph with its root, if it has one, painted black.
pub open spec fn blackened<K: Ord, V, Id>(m: TreeModel<K, Data<V>, Id>) -> TreeModel<
    K,
    Data<V>,
    Id,
> {
    match m.root {
        Some(r) => paint(m, r, BLACK),
        None => m,
    }
}

/// The repair at `z` comes to rest after `rounds` rounds.
pub open spec fn rests_after<K: Ord, V, Id>(
    m: TreeModel<K, Data<V>, Id>,
    z: Id,
    rounds: nat,
) -> bool {
    settled(repaired(m, z, rounds).0, repaired(m, z, rounds).1)
}

/// The graph after the whole repair of an insertion of the red node `z`:
/// the rounds of `repair_step` until the repair rests, and then the root
/// painted black.
pub open spec fn fixed_up<K: Ord, V, Id>(m: TreeModel<K, Data<V>, Id>, z: Id) -> TreeModel<
    K,
    Data<V>,
    Id,
> {
    blackened(repaired(m, z, choose|rounds: nat| rests_after(m, z, rounds)).0)
}

/// A repair at rest stays at rest, whatever rounds follow.
pub proof fn lemma_rest_is_final<K: Ord, V, Id>(
    m: TreeModel<K, Data<V>, Id>,
    z: Id,
    rounds: nat,
    more: nat,
)
    requires
        rests_after(m, z, rounds),
    ensures
        repaired(m, z, rounds + more) == repaired(m, z, rounds),
    decreases more,
{
    if more > 0 {
        lemma_rest_is_final(m, z, rounds, (more - 1) as nat);
        assert(repaired(m, z, rounds + more) == repair_step(
            repaired(m, z, (rounds + more - 1) as nat).0,
            repaired(m, z, (rounds + more - 1) as nat).1,
        ));
    }
}

/// The whole repair is what any number of rounds gives after which the
/// repair rests.
pub proof fn lemma_fixed_up<K: Ord, V, Id>(m: TreeModel<K, Data<V>, Id>, z: Id, rounds: nat)
    requires
        rests_after(m, z, rounds),
    ensures
        fixed_up(m, z) == blackened(repaired(m, z, rounds).0),
{
    let chosen = choose|rounds: nat| rests_after(m, z, rounds);
    if chosen <= rounds {
        lemma_rest_is_final(m, z, chosen, (rounds - chosen) as nat);
    } else {
        lemma_rest_is_final(m, z, rounds, (chosen - rounds) as nat);
    }
}

/// Two graphs hold the same keys and plain values in the same nodes.
spec fn same_entries<K: Ord, V, Id>(
    m: TreeModel<K, Data<V>, Id>,
    m2: TreeModel<K, Data<V>, Id>,
) -> bool {
    &&& m2.nodes.dom() == m.nodes.dom()
    &&& forall|id: Id| #[trigger]
        m.has(id) ==> m2.nodes[id].key == m.nodes[id].key && m2.nodes[id].value.plain()
            == m.nodes[id].value.plain()
}

proof fn lemma_same_entries_chain<K: Ord, V, Id>(
    a: TreeModel<K, Data<V>, Id>,
    b: TreeModel<K, Data<V>, Id>,
    c: TreeModel<K, Data<V>, Id>,
)
    requires
        same_entries(a, b),
        same_entries(b, c),
    ensures
        same_entries(a, c),
{
    assert forall|id: Id| #[trigger] a.has(id) implies c.nodes[id].key == a.nodes[id].key
        && c.nodes[id].value.plain() == a.nodes[id].value.plain() by {
        assert(b.has(id));
    }
}

proof fn lemma_paint_same_entries<K: Ord, V, Id>(m: TreeModel<K, Data<V>, Id>, id: Id, red: bool)
    requires
        m.has(id),
    ensures
        same_entries(m, paint(m, id, red)),
{
    assert(paint(m, id, red).nodes.dom() =~= m.nodes.dom());
}

/// The graph after the red parent and the red uncle of `z` were painted
/// black and its grandparent red.
pub open spec fn recolored<K: Ord, V, Id>(m: TreeModel<K, Data<V>, Id>, p: Id, u: Id, g: Id) -> TreeModel<
    K,
    Data<V>,
    Id,
> {
    paint(paint(paint(m, p, BLACK), u, BLACK), g, RED)
}

/// With a red uncle, recolouring moves the one possible fault from `z` up to
/// its grandparent.
proof fn lemma_recolor<K: Ord, V, Id>(
    m: TreeModel<K, Data<V>, Id>,
    w: Layout<Id>,
    bh: spec_fn(Id) -> nat,
    z: Id,
    p: Id,
    u: Id,
    g: Id,
) -> (bh2: spec_fn(Id) -> nat)
    requires
        fixing(m, w, bh, z),
        m.has(p),
        m.has(g),
        m.has(u),
        m.nodes[z].parent == Some(p),
        red(m, p),
        m.nodes[p].parent == Some(g),
        (m.nodes[g].left == Some(p) && m.nodes[g].right == Some(u)) || (m.nodes[g].right == Some(p)
            && m.nodes[g].left == Some(u)),
        red(m, u),
    ensures
        fixing(recolored(m, p, u, g), w, bh2, g),
        same_entries(m, recolored(m, p, u, g)),
        climb(recolored(m, p, u, g), w, g) < climb(m, w, z),
        0 <= climb(recolored(m, p, u, g), w, g),
{
    let m1 = paint(m, p, BLACK);
    let m2 = paint(m1, u, BLACK);
    let m3 = paint(m2, g, RED);
    assert(m.node_fits(w, z));
    assert(m.node_fits(w, p));
    assert(m.node_fits(w, g));
    assert(m.node_fits(w, u));
    assert(red_under_black(m, p));
    assert(red_under_black(m, u));
    lemma_with_value(m, w, p, m.nodes[p].value.painted(BLACK));
    lemma_with_value(m1, w, u, m1.nodes[u].value.painted(BLACK));
    lemma_with_value(m2, w, g, m2.nodes[g].value.painted(RED));
    let bh2 = |id: Id|
        if id == p || id == u {
            (bh(id) + 1) as nat
        } else {
            bh(id)
        };
    assert(node_balanced(m, bh, p));
    assert(node_balanced(m, bh, u));
    assert(node_balanced(m, bh, g));
    assert forall|id: Id| m3.has(id) implies #[trigger] node_balanced(m3, bh2, id) by {
        assert(node_balanced(m, bh, id));
        assert(m.node_fits(w, id));
        if let Some(c) = m.nodes[id].left {
            assert(m.node_fits(w, c));
        }
        if let Some(c) = m.nodes[id].right {
            assert(m.node_fits(w, c));
        }
    }
    assert forall|id: Id| m3.has(id) && Some(id) != Some(g) implies #[trigger] red_under_black(
        m3,
        id,
    ) by {
        assert(m.node_fits(w, id));
        if id != z {
            assert(red_under_black(m, id));
        }
    }
    if let Some(gp) = m.nodes[g].parent {
        assert(m.node_fits(w, gp));
    }
    assert(m3.nodes.dom() =~= m.nodes.dom());
    bh2
}

/// The graph after the line case on the left: the parent of `z` painted
/// black, its grandparent red, and the grandparent rotated to the right.
pub open spec fn straightened_left<K: Ord, V, Id>(m: TreeModel<K, Data<V>, Id>, p: Id, g: Id) -> TreeModel<
    K,
    Data<V>,
    Id,
> {
    paint(paint(m, p, BLACK), g, RED).rotated_right(g)
}

/// A triangle on the left becomes a line: after the rotation about the parent
/// of `z`, that former parent is the one node that may have a red parent.
proof fn lemma_triangle_left<K: Ord, V, Id>(
    m: TreeModel<K, Data<V>, Id>,
    w: Layout<Id>,
    bh: spec_fn(Id) -> nat,
    z: Id,
    p: Id,
    g: Id,
)
    requires
        fixing(m, w, bh, z),
        m.has(p),
        m.has(g),
        m.nodes[z].parent == Some(p),
        red(m, p),
        m.nodes[p].parent == Some(g),
        m.nodes[g].left == Some(p),
        m.nodes[p].right == Some(z),
    ensures
        fixing(m.rotated_left(p), w.lifted(p, z), bh, p),
        same_entries(m, m.rotated_left(p)),
        climb(m.rotated_left(p), w.lifted(p, z), p) == climb(m, w, z),
        0 <= climb(m, w, z),
        zigzag(m, z) == 1,
        zigzag(m.rotated_left(p), p) == 0,
{
    let m2 = m.rotated_left(p);
    let w2 = w.lifted(p, z);
    assert(m.node_fits(w, z));
    assert(m.node_fits(w, p));
    assert(m.node_fits(w, g));
    lemma_rotated_left(m, w, p);
    assert(red_under_black(m, p));
    assert(node_balanced(m, bh, p));
    assert(node_balanced(m, bh, z));
    assert(node_balanced(m, bh, g));
    if let Some(b) = m.nodes[z].left {
        assert(m.node_fits(w, b));
        assert(red_under_black(m, b));
    }
    if let Some(c) = m.nodes[z].right {
        assert(m.node_fits(w, c));
    }
    if let Some(a) = m.nodes[p].left {
        assert(m.node_fits(w, a));
    }
    if let Some(u) = m.nodes[g].right {
        assert(m.node_fits(w, u));
    }
    assert forall|id: Id| m2.has(id) implies #[trigger] node_balanced(m2, bh, id) by {
        assert(node_balanced(m, bh, id));
        assert(m.node_fits(w, id));
    }
    assert forall|id: Id| m2.has(id) && Some(id) != Some(p) implies #[trigger] red_under_black(
        m2,
        id,
    ) by {
        assert(m.node_fits(w, id));
        if id != z {
            assert(red_under_black(m, id));
        }
    }
    assert(m2.node_fits(w2, p));
    assert(m2.node_fits(w2, z));
}

/// A line on the left is repaired for good: after the recolouring and the
/// rotation about the grandparent no red node has a red parent.
proof fn lemma_line_left<K: Ord, V, Id>(
    m: TreeModel<K, Data<V>, Id>,
    w: Layout<Id>,
    bh: spec_fn(Id) -> nat,
    z: Id,
    p: Id,
    g: Id,
) -> (bh2: spec_fn(Id) -> nat)
    requires
        fixing(m, w, bh, z),
        m.has(p),
        m.has(g),
        m.nodes[z].parent == Some(p),
        red(m, p),
        m.nodes[p].parent == Some(g),
        m.nodes[g].left == Some(p),
        m.nodes[p].left == Some(z),
        m.nodes[g].right matches Some(u) ==> !red(m, u),
    ensures
        fixing(straightened_left(m, p, g), w.lifted(g, p), bh2, z),
        same_entries(m, straightened_left(m, p, g)),
        climb(straightened_left(m, p, g), w.lifted(g, p), z) < climb(m, w, z),
        0 <= climb(straightened_left(m, p, g), w.lifted(g, p), z),
{
    let m1 = paint(m, p, BLACK);
    let m2 = paint(m1, g, RED);
    let m3 = m2.rotated_right(g);
    let w3 = w.lifted(g, p);
    assert(m.node_fits(w, z));
    assert(m.node_fits(w, p));
    assert(m.node_fits(w, g));
    assert(red_under_black(m, p));
    lemma_with_value(m, w, p, m.nodes[p].value.painted(BLACK));
    lemma_with_value(m1, w, g, m1.nodes[g].value.painted(RED));
    lemma_rotated_right(m2, w, g);
    assert(node_balanced(m, bh, p));
    assert(node_balanced(m, bh, z));
    assert(node_balanced(m, bh, g));
    if let Some(s) = m.nodes[p].right {
        assert(m.node_fits(w, s));
        assert(red_under_black(m, s));
    }
    if let Some(u) = m.nodes[g].right {
        assert(m.node_fits(w, u));
    }
    if let Some(gp) = m.nodes[g].parent {
        assert(m.node_fits(w, gp));
        assert(node_balanced(m, bh, gp));
    }
    let bh2 = |id: Id|
        if id == p {
            (bh(id) + 1) as nat
        } else if id == g {
            (bh(id) - 1) as nat
        } else {
            bh(id)
        };
    assert forall|id: Id| m3.has(id) implies #[trigger] node_balanced(m3, bh2, id) by {
        assert(node_balanced(m, bh, id));
        assert(m.node_fits(w, id));
    }
    assert forall|id: Id| m3.has(id) && Some(id) != Some(z) implies #[trigger] red_under_black(
        m3,
        id,
    ) by {
        assert(m.node_fits(w, id));
        assert(red_under_black(m, id));
    }
    assert(m3.node_fits(w3, p));
    assert(m3.node_fits(w3, z));
    assert(m3.nodes.dom() =~= m.nodes.dom());
    bh2
}

/// The graph after the line case on the right: the parent of `z` painted
/// black, its grandparent red, and the grandparent rotated to the left.
pub open spec fn straightened_right<K: Ord, V, Id>(m: TreeModel<K, Data<V>, Id>, p: Id, g: Id) -> TreeModel<
    K,
    Data<V>,
    Id,
> {
    paint(paint(m, p, BLACK), g, RED).rotated_left(g)
}

/// A triangle on the right becomes a line: after the rotation about the parent
/// of `z`, that former parent is the one node that may have a red parent.
proof fn lemma_triangle_right<K: Ord, V, Id>(
    m: TreeModel<K, Data<V>, Id>,
    w: Layout<Id>,
    bh: spec_fn(Id) -> nat,
    z: Id,
    p: Id,
    g: Id,
)
    requires
        fixing(m, w, bh, z),
        m.has(p),
        m.has(g),
        m.nodes[z].parent == Some(p),
        red(m, p),
        m.nodes[p].parent == Some(g),
        m.nodes[g].right == Some(p),
        m.nodes[p].left == Some(z),
    ensures
        fixing(m.rotated_right(p), w.lifted(p, z), bh, p),
        same_entries(m, m.rotated_right(p)),
        climb(m.rotated_right(p), w.lifted(p, z), p) == climb(m, w, z),
        0 <= climb(m, w, z),
        zigzag(m, z) == 1,
        zigzag(m.rotated_right(p), p) == 0,
{
    let m2 = m.rotated_right(p);
    let w2 = w.lifted(p, z);
    assert(m.node_fits(w, z));
    assert(m.node_fits(w, p));
    assert(m.node_fits(w, g));
    lemma_rotated_right(m, w, p);
    assert(red_under_black(m, p));
    assert(node_balanced(m, bh, p));
    assert(node_balanced(m, bh, z));
    assert(node_balanced(m, bh, g));
    if let Some(b) = m.nodes[z].right {
        assert(m.node_fits(w, b));
        assert(red_under_black(m, b));
    }
    if let Some(c) = m.nodes[z].left {
        assert(m.node_fits(w, c));
    }
    if let Some(a) = m.nodes[p].right {
        assert(m.node_fits(w, a));
    }
    if let Some(u) = m.nodes[g].left {
        assert(m.node_fits(w, u));
    }
    assert forall|id: Id| m2.has(id) implies #[trigger] node_balanced(m2, bh, id) by {
        assert(node_balanced(m, bh, id));
        assert(m.node_fits(w, id));
    }
    assert forall|id: Id| m2.has(id) && Some(id) != Some(p) implies #[trigger] red_under_black(
        m2,
        id,
    ) by {
        assert(m.node_fits(w, id));
        if id != z {
            assert(red_under_black(m, id));
        }
    }
    assert(m2.node_fits(w2, p));
    assert(m2.node_fits(w2, z));
}

/// A line on the right is repaired for good: after the recolouring and the
/// rotation about the grandparent no red node has a red parent.
proof fn lemma_line_right<K: Ord, V, Id>(
    m: TreeModel<K, Data<V>, Id>,
    w: Layout<Id>,
    bh: spec_fn(Id) -> nat,
    z: Id,
    p: Id,
    g: Id,
) -> (bh2: spec_fn(Id) -> nat)
    requires
        fixing(m, w, bh, z),
        m.has(p),
        m.has(g),
        m.nodes[z].parent == Some(p),
        red(m, p),
        m.nodes[p].parent == Some(g),
        m.nodes[g].right == Some(p),
        m.nodes[p].right == Some(z),
        m.nodes[g].left matches Some(u) ==> !red(m, u),
    ensures
        fixing(straightened_right(m, p, g), w.lifted(g, p), bh2, z),
        same_entries(m, straightened_right(m, p, g)),
        climb(straightened_right(m, p, g), w.lifted(g, p), z) < climb(m, w, z),
        0 <= climb(straightened_right(m, p, g), w.lifted(g, p), z),
{
    let m1 = paint(m, p, BLACK);
    let m2 = paint(m1, g, RED);
    let m3 = m2.rotated_left(g);
    let w3 = w.lifted(g, p);
    assert(m.node_fits(w, z));
    assert(m.node_fits(w, p));
    assert(m.node_fits(w, g));
    assert(red_under_black(m, p));
    lemma_with_value(m, w, p, m.nodes[p].value.painted(BLACK));
    lemma_with_value(m1, w, g, m1.nodes[g].value.painted(RED));
    lemma_rotated_left(m2, w, g);
    assert(node_balanced(m, bh, p));
    assert(node_balanced(m, bh, z));
    assert(node_balanced(m, bh, g));
    if let Some(s) = m.nodes[p].left {
        assert(m.node_fits(w, s));
        assert(red_under_black(m, s));
    }
    if let Some(u) = m.nodes[g].left {
        assert(m.node_fits(w, u));
    }
    if let Some(gp) = m.nodes[g].parent {
        assert(m.node_fits(w, gp));
        assert(node_balanced(m, bh, gp));
    }
    let bh2 = |id: Id|
        if id == p {
            (bh(id) + 1) as nat
        } else if id == g {
            (bh(id) - 1) as nat
        } else {
            bh(id)
        };
    assert forall|id: Id| m3.has(id) implies #[trigger] node_balanced(m3, bh2, id) by {
        assert(node_balanced(m, bh, id));
        assert(m.node_fits(w, id));
    }
    assert forall|id: Id| m3.has(id) && Some(id) != Some(z) implies #[trigger] red_under_black(
        m3,
        id,
    ) by {
        assert(m.node_fits(w, id));
        assert(red_under_black(m, id));
    }
    assert(m3.node_fits(w3, p));
    assert(m3.node_fits(w3, z));
    assert(m3.nodes.dom() =~= m.nodes.dom());
    bh2
}

/// The plain values of a store's content, without the colours.
spec fn plain_of<K, V>(c: Map<K, Data<V>>) -> Map<K, V> {
    c.map_values(|d: Data<V>| d.plain())
}

proof fn lemma_plain_insert<K, V>(c: Map<K, Data<V>>, k: K, d: Data<V>)
    ensures
        plain_of(c.insert(k, d)) == plain_of(c).insert(k, d.plain()),
        c.contains_key(k) && c[k].plain() == d.plain() ==> plain_of(c.insert(k, d)) == plain_of(c),
{
    assert(plain_of(c.insert(k, d)) =~= plain_of(c).insert(k, d.plain()));
    if c.contains_key(k) && c[k].plain() == d.plain() {
        assert(plain_of(c.insert(k, d)) =~= plain_of(c));
    }
}

/// A payload written over one of the same colour keeps the invariants.
proof fn lemma_revalued<K: Ord, V, Id>(m: TreeModel<K, Data<V>, Id>, id: Id, d: Data<V>)
    requires
        is_red_black(m),
        m.has(id),
        d.red() == m.nodes[id].value.red(),
    ensures
        is_red_black(m.with_value(id, d)),
{
    let m2 = m.with_value(id, d);
    let bh = choose|bh: spec_fn(Id) -> nat| balanced(m, bh);
    assert forall|a: Id| m2.has(a) implies #[trigger] node_balanced(m2, bh, a) by {
        assert(node_balanced(m, bh, a));
    }
    assert forall|a: Id| m2.has(a) implies #[trigger] red_under_black(m2, a) by {
        assert(red_under_black(m, a));
    }
    assert(balanced(m2, bh));
}

/// A new red leaf can break the invariants only at itself.
proof fn lemma_fresh_leaf<K: Ord, V, Id>(
    m: TreeModel<K, Data<V>, Id>,
    slot: Slot<Id>,
    z: Id,
    key: K,
    d: Data<V>,
    w2: Layout<Id>,
) -> (bh2: spec_fn(Id) -> nat)
    requires
        is_red_black(m),
        m.is_search_tree(),
        !m.has(z),
        m.slot_free(slot),
        d.red(),
        m.with_leaf(slot, z, key, d).laid_out(w2),
    ensures
        fixing(m.with_leaf(slot, z, key, d), w2, bh2, z),
{
    let m2 = m.with_leaf(slot, z, key, d);
    let w = m.layout();
    let bh = choose|bh: spec_fn(Id) -> nat| balanced(m, bh);
    let bh2 = |id: Id|
        if id == z {
            0nat
        } else {
            bh(id)
        };
    assert forall|a: Id| m2.has(a) implies #[trigger] node_balanced(m2, bh2, a) by {
        if a != z {
            assert(node_balanced(m, bh, a));
            assert(m.node_fits(w, a));
        }
    }
    assert forall|a: Id| m2.has(a) && Some(a) != Some(z) implies #[trigger] red_under_black(
        m2,
        a,
    ) by {
        assert(red_under_black(m, a));
        assert(m.node_fits(w, a));
    }
    if let Some(r) = m.root {
        assert(m.node_fits(w, r));
    }
    bh2
}

/// Painting the root black mends the last fault that a repair can leave.
proof fn lemma_blackened<K: Ord, V, Id>(
    m: TreeModel<K, Data<V>, Id>,
    bh: spec_fn(Id) -> nat,
    d: Data<V>,
)
    requires
        m.is_search_tree(),
        reds_apart_but(m, m.root),
        balanced(m, bh),
        m.root matches Some(r) && m.has(r) && !d.red(),
    ensures
        is_red_black(m.with_value(m.root.unwrap(), d)),
{
    let r = m.root.unwrap();
    let m2 = m.with_value(r, d);
    let w = m.layout();
    assert(m.node_fits(w, r));
    let bh2 = |id: Id|
        if id == r && red(m, r) {
            (bh(id) + 1) as nat
        } else {
            bh(id)
        };
    assert forall|a: Id| m2.has(a) implies #[trigger] node_balanced(m2, bh2, a) by {
        assert(node_balanced(m, bh, a));
        assert(m.node_fits(w, a));
        if let Some(c) = m.nodes[a].left {
            assert(m.node_fits(w, c));
        }
        if let Some(c) = m.nodes[a].right {
            assert(m.node_fits(w, c));
        }
    }
    assert forall|a: Id| m2.has(a) implies #[trigger] red_under_black(m2, a) by {
        if a != r {
            assert(red_under_black(m, a));
        }
    }
    assert(balanced(m2, bh2));
}

/// A self-balancing ordered map: a red-black colouring laid over any store
/// of nodes that can navigate and rotate.
pub struct RedBlackTree<Key, Value, ImplTree, NodeId> where
    Key: Ord,
    NodeId: Copy,
    ImplTree: Default + Tree<Key, Data<Value>> + NodeIdentifiableTree<
        Key,
        Data<Value>,
        NodeId,
    > + ParentifiedTree<Key, Data<Value>, NodeId> + RotatableTree<Key, Data<Value>, NodeId>,
 {
    bst: ImplTree,
    _phantom_key: PhantomData<Key>,
    _phantom_value: PhantomData<Value>,
    _phantom_node_id: PhantomData<NodeId>,
}

/// Every store that `ImplTree::default` makes is empty, and well formed
/// where the keys are totally ordered.
pub open spec fn default_store_is_empty<Key: Ord, Value, ImplTree, NodeId>() -> bool where
    ImplTree: Default + NodeIdentifiableTree<Key, Value, NodeId>,
 {
    forall|store: ImplTree| #[trigger]
        call_ensures(ImplTree::default, (), store) ==> (total_order::<Key>() ==> store.wf())
            && store.model() == TreeModel::<Key, Value, NodeId>::empty()
}

impl<Key, Value, ImplTree, NodeId> Default for RedBlackTree<Key, Value, ImplTree, NodeId> where
    Key: Ord,
    NodeId: Copy,
    ImplTree: Default + Tree<Key, Data<Value>> + NodeIdentifiableTree<
        Key,
        Data<Value>,
        NodeId,
    > + ParentifiedTree<Key, Data<Value>, NodeId> + RotatableTree<Key, Data<Value>, NodeId>,
 {
    fn default() -> (tree: Self)
        ensures
            default_store_is_empty::<Key, Data<Value>, ImplTree, NodeId>() ==> tree.model()
                == TreeModel::<Key, Data<Value>, NodeId>::empty(),
            default_store_is_empty::<Key, Data<Value>, ImplTree, NodeId>() && total_order::<Key>()
                ==> tree.wf() && tree.content() == Map::<Key, Value>::empty(),
    {
        let tree = Self {
            bst: Default::default(),
            _phantom_key: PhantomData,
            _phantom_value: PhantomData,
            _phantom_node_id: PhantomData,
        };
        proof {
            if default_store_is_empty::<Key, Data<Value>, ImplTree, NodeId>() && total_order::<
                Key,
            >() {
                let m = tree.bst.model();
                tree.bst.lemma_model();
                let bh = |id: NodeId| 0nat;
                assert(balanced(m, bh));
                assert(m.content() =~= Map::empty());
                assert(plain_of(m.content()) =~= Map::empty());
            }
        }
        tree
    }
}

impl<Key, Value, ImplTree, NodeId> RedBlackTree<Key, Value, ImplTree, NodeId> where
    Key: Ord,
    NodeId: Copy,
    ImplTree: Default + Tree<Key, Data<Value>> + NodeIdentifiableTree<
        Key,
        Data<Value>,
        NodeId,
    > + ParentifiedTree<Key, Data<Value>, NodeId> + RotatableTree<Key, Data<Value>, NodeId>,
 {
    /// The store that holds the nodes.
    pub closed spec fn store_view(&self) -> ImplTree {
        self.bst
    }

    /// The nodes, their colours and their links.
    pub closed spec fn model(&self) -> TreeModel<Key, Data<Value>, NodeId> {
        self.bst.model()
    }

    /// A well-formed tree is a binary search tree over totally ordered keys.
    pub proof fn lemma_is_search_tree(&self)
        requires
            self.wf(),
        ensures
            self.model().is_search_tree(),
            total_order::<Key>(),
    {
        self.bst.lemma_model();
        self.bst.lemma_key_order();
    }

    /// Binary-search-tree ordering on the left: every key in the left subtree
    /// of a node is less than the node's key. The subtree is given by a path
    /// that starts at the node's left child.
    pub proof fn lemma_left_subtree_keys_are_less(&self, n: NodeId, path: Seq<NodeId>)
        requires
            self.wf(),
            self.model().has(n),
            self.model().is_path(path),
            self.model().nodes[n].left == Some(path[0]),
        ensures
            key_lt(self.model().key(path.last()), self.model().key(n)),
    {
        self.lemma_is_search_tree();
        crate::trees::model::lemma_left_subtree_keys_are_less(self.model(), n, path);
    }

    /// Binary-search-tree ordering on the right: every key in the right
    /// subtree of a node is greater than the node's key. The subtree is given
    /// by a path that starts at the node's right child.
    pub proof fn lemma_right_subtree_keys_are_greater(&self, n: NodeId, path: Seq<NodeId>)
        requires
            self.wf(),
            self.model().has(n),
            self.model().is_path(path),
            self.model().nodes[n].right == Some(path[0]),
        ensures
            key_lt(self.model().key(n), self.model().key(path.last())),
    {
        self.lemma_is_search_tree();
        crate::trees::model::lemma_right_subtree_keys_are_greater(self.model(), n, path);
    }

    /// What the tree holds is what its nodes hold: the keys of the nodes,
    /// each with the plain value of its node.
    pub proof fn lemma_content(&self)
        requires
            self.wf(),
        ensures
            self.model().is_search_tree(),
            forall|k: Key| #[trigger] self.content().contains_key(k) <==> self.model().has_key(k),
            forall|k: Key| #[trigger]
                self.content().contains_key(k) ==> self.model().has(self.model().node_of(k))
                    && self.model().key(self.model().node_of(k)) == k && self.content()[k]
                    == self.model().nodes[self.model().node_of(k)].value.plain(),
            self.model().root is None <==> self.content() == Map::<Key, Value>::empty(),
    {
        self.bst.lemma_model();
        let m = self.bst.model();
        let w = m.layout();
        if m.root is None {
            assert forall|k: Key| !self.content().contains_key(k) by {
                if m.has_key(k) {
                    assert(m.node_fits(w, m.node_of(k)));
                }
            }
            assert(self.content() =~= Map::<Key, Value>::empty());
        } else {
            let r = m.root.unwrap();
            assert(m.has_key(m.key(r)));
            assert(self.content().contains_key(m.key(r)));
        }
    }

    /// The tree has one node for each key that it holds.
    pub proof fn lemma_one_node_per_key(&self)
        requires
            self.wf(),
        ensures
            self.model().nodes.dom().finite(),
            self.content().dom().finite(),
            self.model().nodes.dom().len() == self.content().dom().len(),
    {
        self.bst.lemma_model();
        self.bst.lemma_key_order();
        let m = self.bst.model();
        let w = m.layout();
        lemma_node_count(m, w);
        crate::trees::model::lemma_key_count(m, w);
        assert(self.content().dom() =~= m.content().dom());
    }

    /// The root of a well-formed tree is black.
    pub proof fn lemma_root_is_black(&self)
        requires
            self.wf(),
            self.model().root is Some,
        ensures
            self.model().has(self.model().root.unwrap()),
            !self.model().nodes[self.model().root.unwrap()].value.red(),
    {
        self.bst.lemma_model();
        let m = self.bst.model();
        let w = m.layout();
        assert(m.laid_out(w));
    }

    /// In a well-formed tree a red node has a parent, and that parent is
    /// black.
    pub proof fn lemma_red_node_has_black_parent(&self, id: NodeId)
        requires
            self.wf(),
            self.model().has(id),
            self.model().nodes[id].value.red(),
        ensures
            self.model().nodes[id].parent is Some,
            self.model().has(self.model().nodes[id].parent.unwrap()),
            !self.model().nodes[self.model().nodes[id].parent.unwrap()].value.red(),
    {
        self.bst.lemma_model();
        let m = self.bst.model();
        let w = m.layout();
        assert(m.node_fits(w, id));
        assert(red_under_black(m, id));
    }

    /// In a well-formed tree any two paths from the root down to a node that
    /// lacks a child pass the same number of black nodes.
    pub proof fn lemma_black_height_is_uniform(&self, a: Seq<NodeId>, b: Seq<NodeId>)
        requires
            self.wf(),
            self.model().is_root_path_to_absent_child(a),
            self.model().is_root_path_to_absent_child(b),
        ensures
            black_count(self.model(), a) == black_count(self.model(), b),
    {
        let m = self.bst.model();
        let bh = choose|bh: spec_fn(NodeId) -> nat| balanced(m, bh);
        lemma_black_count(m, bh, a);
        lemma_black_count(m, bh, b);
    }

    /// The height of a well-formed tree is logarithmic in the number of its
    /// nodes: a path of `h` nodes from the root down to a node that lacks a
    /// child needs at least two to the power of `h / 2`, rounded up, less
    /// one, nodes in the tree. So `h` is at most twice the binary logarithm
    /// of the number of nodes plus one.
    pub proof fn lemma_height_is_logarithmic(&self, path: Seq<NodeId>)
        requires
            self.wf(),
            self.model().is_root_path_to_absent_child(path),
        ensures
            self.model().nodes.dom().finite(),
            pow2(((path.len() + 1) / 2) as nat) <= self.model().nodes.dom().len() + 1,
    {
        self.bst.lemma_model();
        let m = self.bst.model();
        let w = m.layout();
        let bh = choose|bh: spec_fn(NodeId) -> nat| balanced(m, bh);
        let root = path[0];
        lemma_node_count(m, w);
        lemma_black_count(m, bh, path);
        lemma_path_length(m, w, path);
        lemma_subtree_size(m, w, bh, root);
        assert(m.node_fits(w, root));
        let half = ((path.len() + 1) / 2) as nat;
        if half < bh(root) {
            lemma_pow2_strictly_increases(half, bh(root));
        }
    }

    /// The height is logarithmic in the number of keys that the tree holds:
    /// a path of `h` nodes from the root down to a node that lacks a child
    /// needs at least two to the power of `h / 2`, rounded up, less one,
    /// keys in the tree.
    pub proof fn lemma_height_is_logarithmic_in_keys(&self, path: Seq<NodeId>)
        requires
            self.wf(),
            self.model().is_root_path_to_absent_child(path),
        ensures
            self.content().dom().finite(),
            pow2(((path.len() + 1) / 2) as nat) <= self.content().dom().len() + 1,
    {
        self.lemma_height_is_logarithmic(path);
        self.lemma_one_node_per_key();
    }

    /// Read access to the store, for walking the tree.
    pub fn store(&self) -> (store: &ImplTree)
        requires
            self.wf(),
        ensures
            *store == self.store_view(),
            store.wf(),
            store.model() == self.model(),
    {
        &self.bst
    }

    fn is_red_node(&self, node_id: Option<NodeId>) -> (answer: bool)
        requires
            self.bst.wf(),
        ensures
            answer == match node_id {
                Some(id) => self.bst.model().has(id) && red(self.bst.model(), id),
                None => false,
            },
    {
        match node_id {
            Some(id) => match self.bst.get_by_id(id) {
                Some(data) => data.color == RED,
                None => false,
            },
            None => false,
        }
    }

    fn paint_node(&mut self, node_id: NodeId, red: bool)
        requires
            old(self).bst.wf(),
            total_order::<Key>(),
            old(self).bst.model().has(node_id),
        ensures
            final(self).bst.wf(),
            final(self).bst.model() == paint(old(self).bst.model(), node_id, red),
            plain_of(final(self).bst.content()) == plain_of(old(self).bst.content()),
    {
        let ghost m = self.bst.model();
        proof {
            self.bst.lemma_model();
            lemma_content_of_node(m, node_id);
        }
        match self.bst.get_by_id_mut(node_id) {
            Some(data) => {
                data.color = red;
            },
            None => {},
        }
        proof {
            self.bst.lemma_model();
            let d = m.nodes[node_id].value.painted(red);
            lemma_content_with_value(m, node_id, d);
            lemma_plain_insert(m.content(), m.key(node_id), d);
        }
    }

    /// Restores the invariants above a newly inserted red node, but for the
    /// colour of the root.
    fn fix_after_insert(
        &mut self,
        inserted: NodeId,
        Ghost(w0): Ghost<Layout<NodeId>>,
        Ghost(bh0): Ghost<spec_fn(NodeId) -> nat>,
    ) -> (rounds: Ghost<nat>)
        requires
            old(self).bst.wf(),
            total_order::<Key>(),
            fixing(old(self).bst.model(), w0, bh0, inserted),
        ensures
            final(self).bst.wf(),
            rests_after(old(self).bst.model(), inserted, rounds@),
            final(self).bst.model() == repaired(old(self).bst.model(), inserted, rounds@).0,
            reds_apart_but(final(self).bst.model(), final(self).bst.model().root),
            exists|bh: spec_fn(NodeId) -> nat| balanced(final(self).bst.model(), bh),
            plain_of(final(self).bst.content()) == plain_of(old(self).bst.content()),
            same_entries(old(self).bst.model(), final(self).bst.model()),
    {
        let mut z = inserted;
        let ghost mut w = w0;
        let ghost mut bh = bh0;
        let ghost mut rounds: nat = 0;
        loop
            invariant
                self.bst.wf(),
                total_order::<Key>(),
                fixing(self.bst.model(), w, bh, z),
                plain_of(self.bst.content()) == plain_of(old(self).bst.content()),
                same_entries(old(self).bst.model(), self.bst.model()),
                repaired(old(self).bst.model(), inserted, rounds) == (self.bst.model(), z),
            ensures
                reds_apart_but(self.bst.model(), self.bst.model().root),
                balanced(self.bst.model(), bh),
                settled(self.bst.model(), z),
            decreases climb(self.bst.model(), w, z), zigzag(self.bst.model(), z),
        {
            let ghost m = self.bst.model();
            proof {
                assert(m.node_fits(w, z));
            }
            let ghost m_start = old(self).bst.model();
            let ghost z_before = z;
            let p = match self.bst.get_parent_id(z) {
                Some(p) => p,
                None => {
                    break ;
                },
            };
            proof {
                assert(m.node_fits(w, p));
            }
            if !self.is_red_node(Some(p)) {
                proof {
                    assert forall|id: NodeId|
                        m.has(id) && Some(id) != m.root implies #[trigger] red_under_black(
                        m,
                        id,
                    ) by {
                        if id != z {
                            assert(red_under_black(m, id));
                        }
                    }
                }
                break ;
            }
            proof {
                assert(red_under_black(m, p));
            }
            let g = match self.bst.get_parent_id(p) {
                Some(g) => g,
                None => {
                    proof {
                        assert(false);
                    }
                    break ;
                },
            };
            proof {
                assert(m.node_fits(w, g));
            }
            if self.bst.is_left_son(p) {
                let uncle = self.bst.get_right_son_id(g);
                if self.is_red_node(uncle) {
                    let u = uncle.unwrap();
                    proof {
                        bh = lemma_recolor(m, w, bh, z, p, u, g);
                    }
                    self.paint_node(p, BLACK);
                    self.paint_node(u, BLACK);
                    self.paint_node(g, RED);
                    z = g;
                    proof {
                        lemma_same_entries_chain(m_start, m, self.bst.model());
                    }
                } else if self.bst.is_right_son(z) {
                    proof {
                        lemma_triangle_left(m, w, bh, z, p, g);
                        w = w.lifted(p, z);
                    }
                    z = p;
                    self.bst.left_rotate(z);
                    proof {
                        lemma_same_entries_chain(m_start, m, self.bst.model());
                    }
                } else {
                    proof {
                        bh = lemma_line_left(m, w, bh, z, p, g);
                        w = w.lifted(g, p);
                    }
                    self.paint_node(p, BLACK);
                    self.paint_node(g, RED);
                    self.bst.right_rotate(g);
                    proof {
                        lemma_same_entries_chain(m_start, m, self.bst.model());
                    }
                }
            } else {
                let uncle = self.bst.get_left_son_id(g);
                if self.is_red_node(uncle) {
                    let u = uncle.unwrap();
                    proof {
                        bh = lemma_recolor(m, w, bh, z, p, u, g);
                    }
                    self.paint_node(p, BLACK);
                    self.paint_node(u, BLACK);
                    self.paint_node(g, RED);
                    z = g;
                    proof {
                        lemma_same_entries_chain(m_start, m, self.bst.model());
                    }
                } else if self.bst.is_left_son(z) {
                    proof {
                        lemma_triangle_right(m, w, bh, z, p, g);
                        w = w.lifted(p, z);
                    }
                    z = p;
                    self.bst.right_rotate(z);
                    proof {
                        lemma_same_entries_chain(m_start, m, self.bst.model());
                    }
                } else {
                    proof {
                        bh = lemma_line_right(m, w, bh, z, p, g);
                        w = w.lifted(g, p);
                    }
                    self.paint_node(p, BLACK);
                    self.paint_node(g, RED);
                    self.bst.left_rotate(g);
                    proof {
                        lemma_same_entries_chain(m_start, m, self.bst.model());
                    }
                }
            }
            proof {
                assert(repair_step(m, z_before) == (self.bst.model(), z));
                rounds = rounds + 1;
            }
        }
        Ghost(rounds)
    }

    /// Paints the root black.
    fn blacken_root(&mut self)
        requires
            old(self).bst.wf(),
            total_order::<Key>(),
            reds_apart_but(old(self).bst.model(), old(self).bst.model().root),
            exists|bh: spec_fn(NodeId) -> nat| balanced(old(self).bst.model(), bh),
        ensures
            final(self).wf(),
            plain_of(final(self).bst.content()) == plain_of(old(self).bst.content()),
            same_entries(old(self).bst.model(), final(self).bst.model()),
            final(self).bst.model() == blackened(old(self).bst.model()),
            is_red_black(old(self).bst.model()) ==> final(self).bst.model() == old(self).bst.model(),
    {
        let ghost m = self.bst.model();
        let ghost bh = choose|bh: spec_fn(NodeId) -> nat| balanced(m, bh);
        proof {
            self.bst.lemma_model();
            if let Some(r) = m.root {
                assert(m.node_fits(m.layout(), r));
                lemma_content_of_node(m, r);
            }
        }
        match self.bst.get_root_mut() {
            Some(root) => {
                root.color = BLACK;
            },
            None => {},
        }
        proof {
            self.bst.lemma_model();
            match m.root {
                Some(r) => {
                    let d = m.nodes[r].value.painted(BLACK);
                    lemma_content_with_value(m, r, d);
                    lemma_plain_insert(m.content(), m.key(r), d);
                    lemma_blackened(m, bh, d);
                    lemma_paint_same_entries(m, r, BLACK);
                    if is_red_black(m) {
                        assert(m.with_value(r, d).nodes =~= m.nodes);
                    }
                },
                None => {
                    assert(balanced(m, bh));
                },
            }
        }
    }
}

impl<Key, Value, ImplTree, NodeId> Tree<Key, Value> for RedBlackTree<
    Key,
    Value,
    ImplTree,
    NodeId,
> where
    Key: Ord,
    NodeId: Copy,
    ImplTree: Default + Tree<Key, Data<Value>> + NodeIdentifiableTree<
        Key,
        Data<Value>,
        NodeId,
    > + ParentifiedTree<Key, Data<Value>, NodeId> + RotatableTree<Key, Data<Value>, NodeId>,
 {
    /// The store is well formed and the red-black invariants hold.
    closed spec fn wf(&self) -> bool {
        &&& self.bst.wf()
        &&& is_red_black(self.bst.model())
    }

    proof fn lemma_key_order(&self) {
        self.bst.lemma_key_order();
    }

    closed spec fn content(&self) -> Map<Key, Value> {
        plain_of(self.bst.content())
    }

    open spec fn has_room(&self) -> bool {
        self.store_view().has_room()
    }

    /// Stores `val` under `key`. A key already there keeps its node, and the
    /// tree its links and colours, so that only the value changes. A new key
    /// becomes a red leaf in the empty position where a search for it ends,
    /// and the tree after it is `fixed_up`: the leaf's parent and uncle are
    /// recoloured or its parent and grandparent rotated, round by round up
    /// the tree, until no red node has a red parent, and the root is painted
    /// black.
    fn insert(&mut self, key: Key, val: Value)
        ensures
            final(self).model().keeps_nodes_of(old(self).model()),
            final(self).model().has_key(key),
            final(self).model().root is Some,
            !old(self).content().contains_key(key) ==> exists|id: NodeId, slot: Slot<NodeId>|
                {
                    &&& !old(self).model().has(id)
                    &&& old(self).model().slot_free(slot)
                    &&& old(self).model().slot_takes(slot, key)
                    &&& final(self).model() == #[trigger] fixed_up(
                        old(self).model().with_leaf(slot, id, key, Data::made(val, RED)),
                        id,
                    )
                },
            old(self).content().contains_key(key) ==> old(self).model().has(
                old(self).model().node_of(key),
            ) && final(self).model().nodes.dom() == old(self).model().nodes.dom(),
            old(self).content().contains_key(key) ==> final(self).model() == old(self).model().with_value(
                old(self).model().node_of(key),
                old(self).model().nodes[old(self).model().node_of(key)].value.revalued(val),
            ),
    {
        let ghost m = self.bst.model();
        proof {
            self.bst.lemma_model();
            self.bst.lemma_key_order();
        }
        let ghost mut chosen_slot = Slot::<NodeId>::Root;
        let ghost mut new_id: NodeId = arbitrary();
        let known_color = match self.bst.get(&key) {
            Some(data) => Some(data.color),
            None => None,
        };
        match known_color {
            Some(color) => {
                proof {
                    lemma_content_of_node(m, m.node_of(key));
                }
                let data = Data { value: val, color };
                let _ = self.bst.insert_and_get_id(key, data);
                proof {
                    self.bst.lemma_model();
                    lemma_revalued(m, m.node_of(key), data);
                    lemma_plain_insert(m.content(), key, data);
                    assert(self.bst.model().keeps_nodes_of(m));
                    assert(self.bst.model().nodes.dom() =~= m.nodes.dom());
                    assert(self.bst.model().key(m.node_of(key)) == key);
                }
            },
            None => {
                let data = Data { value: val, color: RED };
                let inserted = self.bst.insert_and_get_id(key, data);
                let ghost m2 = self.bst.model();
                let ghost w2 = m2.layout();
                let ghost mut bh2: spec_fn(NodeId) -> nat;
                proof {
                    self.bst.lemma_model();
                    let slot = choose|slot: Slot<NodeId>|
                        {
                            &&& m.slot_free(slot)
                            &&& m.slot_takes(slot, key)
                            &&& m2 == #[trigger] m.with_leaf(slot, inserted, key, data)
                        };
                    bh2 = lemma_fresh_leaf(m, slot, inserted, key, data, w2);
                    lemma_plain_insert(m.content(), key, data);
                    assert(m2.keeps_nodes_of(m));
                }
                let Ghost(rounds) = self.fix_after_insert(inserted, Ghost(w2), Ghost(bh2));
                proof {
                    lemma_fixed_up(m2, inserted, rounds);
                    chosen_slot = choose|slot: Slot<NodeId>|
                        {
                            &&& m.slot_free(slot)
                            &&& m.slot_takes(slot, key)
                            &&& m2 == #[trigger] m.with_leaf(slot, inserted, key, data)
                        };
                    new_id = inserted;
                    assert(m2 == m.with_leaf(chosen_slot, inserted, key, Data::made(val, RED)));
                    assert(m2.key(inserted) == key);
                    let m3 = self.bst.model();
                    assert(m3.has(inserted) && m3.key(inserted) == key);
                    assert forall|id: NodeId| #[trigger] m.has(id) implies m3.has(id) && m3.key(id)
                        == m.key(id) by {
                        assert(m2.has(id) && m2.key(id) == m.key(id));
                    }
                }
            },
        }
        let ghost m3 = self.bst.model();
        self.blacken_root();
        proof {
            let m4 = self.bst.model();
            assert(m3.keeps_nodes_of(m));
            assert forall|id: NodeId| #[trigger] m.has(id) implies m4.has(id) && m4.key(id) == m.key(
                id,
            ) by {
                assert(m3.has(id) && m3.key(id) == m.key(id));
            }
            assert(m4.has_key(key)) by {
                let holder = choose|id: NodeId| m3.has(id) && #[trigger] m3.key(id) == key;
                assert(m4.has(holder) && m4.key(holder) == key);
            }
            assert(m4.root is Some) by {
                self.bst.lemma_model();
                let holder = choose|id: NodeId| m4.has(id) && #[trigger] m4.key(id) == key;
                assert(m4.node_fits(m4.layout(), holder));
            }
            if !old(self).content().contains_key(key) {
                assert(!m.has(new_id));
                assert(m.slot_free(chosen_slot) && m.slot_takes(chosen_slot, key));
                assert(m4 == fixed_up(
                    m.with_leaf(chosen_slot, new_id, key, Data::made(val, RED)),
                    new_id,
                ));
            }
        }
    }

    fn get(&self, key: &Key) -> (found: Option<&Value>) {
        match self.bst.get(key) {
            Some(data) => Some(&data.value),
            None => None,
        }
    }
}

} // verus!
