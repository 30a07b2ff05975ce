use crate::graph::Graph;
use crate::graph::Vertex;
use crate::graph::Weight;
use crate::graph::NO_EDGE_WEIGHT;
use crate::graph::NO_LOOP_WEIGHT;
use vstd::prelude::*;

verus! {

/// Why there is no shortest path to return: no way leads from the one vertex
/// to the other, or the graph lacks the vertices listed.
#[derive(Debug, PartialEq, Eq)]
pub enum Error {
    NoShortestPath,
    InvalidVertices(Vec<Vertex>),
}

/// The weight that stands for "no way", as a number.
pub open spec fn unreachable() -> int {
    NO_EDGE_WEIGHT as int
}

/// `walk` is a way through the graph: a sequence of vertices of which each
/// has an edge to the next, or is the next.
pub open spec fn is_walk<const V: usize>(graph: &Graph<V>, walk: Seq<Vertex>) -> bool {
    &&& walk.len() > 0
    &&& forall|i: int| 0 <= i < walk.len() ==> #[trigger] walk[i] < V
    &&& forall|i: int|
        0 <= i < walk.len() - 1 ==> graph.weight(#[trigger] walk[i] as int, walk[i + 1] as int)
            != NO_EDGE_WEIGHT
}

/// The sum of the weights of the edges along `walk`.
pub open spec fn walk_weight<const V: usize>(graph: &Graph<V>, walk: Seq<Vertex>) -> int
    decreases walk.len(),
{
    if walk.len() <= 1 {
        0
    } else {
        walk_weight(graph, walk.drop_last()) + graph.weight(
            walk[walk.len() - 2] as int,
            walk[walk.len() - 1] as int,
        )
    }
}

/// `walk` is a way through the graph from `from` to `to`.
pub open spec fn is_walk_between<const V: usize>(
    graph: &Graph<V>,
    walk: Seq<Vertex>,
    from: Vertex,
    to: Vertex,
) -> bool {
    is_walk(graph, walk) && walk.first() == from && walk.last() == to
}

/// Those of the two vertices that the graph does not have.
pub open spec fn invalid_among(v1: Vertex, v2: Vertex, count: usize) -> Seq<Vertex> {
    (if v1 < count {
        Seq::<Vertex>::empty()
    } else {
        seq![v1]
    }) + (if v2 < count {
        Seq::<Vertex>::empty()
    } else {
        seq![v2]
    })
}

/// Going from `i` to `j` by way of `k` is shorter than the way known so far.
spec fn improves(d: spec_fn(int, int) -> int, k: int, i: int, j: int) -> bool {
    d(i, k) < unreachable() && d(k, j) < unreachable() && d(i, k) + d(k, j) < d(i, j)
}

/// The distances after the ways by `k` were tried.
spec fn relaxed_d(d: spec_fn(int, int) -> int, k: int) -> spec_fn(int, int) -> int {
    |i: int, j: int|
        if improves(d, k, i, j) {
            d(i, k) + d(k, j)
        } else {
            d(i, j)
        }
}

/// The first steps after the ways by `k` were tried.
spec fn relaxed_n(
    d: spec_fn(int, int) -> int,
    n: spec_fn(int, int) -> Option<Vertex>,
    k: int,
) -> spec_fn(int, int) -> Option<Vertex> {
    |i: int, j: int|
        if improves(d, k, i, j) {
            n(i, k)
        } else {
            n(i, j)
        }
}

/// The numbers of steps after the ways by `k` were tried.
spec fn relaxed_h(d: spec_fn(int, int) -> int, h: spec_fn(int, int) -> nat, k: int) -> spec_fn(
    int,
    int,
) -> nat {
    |i: int, j: int|
        if improves(d, k, i, j) {
            h(i, k) + h(k, j)
        } else {
            h(i, j)
        }
}

/// The known way from `i` to `j` is no longer than the known ways by `m`.
spec fn tri(d: spec_fn(int, int) -> int, i: int, m: int, j: int) -> bool {
    d(i, j) <= d(i, m) + d(m, j)
}

/// What holds of one pair of vertices throughout: the distance is no more
/// than the weight of the edge, a vertex is at distance 0 from itself, and
/// without a way there is no first step.
spec fn cell_ok(
    w: spec_fn(int, int) -> int,
    d: spec_fn(int, int) -> int,
    n: spec_fn(int, int) -> Option<Vertex>,
    h: spec_fn(int, int) -> nat,
    i: int,
    j: int,
) -> bool {
    &&& 0 <= w(i, j) <= unreachable()
    &&& 0 <= d(i, j) <= w(i, j)
    &&& (i == j ==> w(i, j) == 0 && n(i, j) == Some(i as usize) && h(i, j) == 0)
    &&& (i != j && d(i, j) >= unreachable() ==> n(i, j) is None)
}

/// Where there is a way from `i` to `j`, its first step `x` is an edge, the
/// rest is the known way from `x` to `j`, and that rest has one step less.
spec fn hop_ok(
    w: spec_fn(int, int) -> int,
    d: spec_fn(int, int) -> int,
    n: spec_fn(int, int) -> Option<Vertex>,
    h: spec_fn(int, int) -> nat,
    k: int,
    v: int,
    i: int,
    j: int,
) -> bool {
    i != j && d(i, j) < unreachable() ==> {
        &&& n(i, j) is Some
        &&& 0 <= n(i, j).unwrap() < v
        &&& n(i, j).unwrap() != i
        &&& (n(i, j).unwrap() == j || n(i, j).unwrap() < k)
        &&& w(i, n(i, j).unwrap() as int) < unreachable()
        &&& d(i, j) == w(i, n(i, j).unwrap() as int) + d(n(i, j).unwrap() as int, j)
        &&& h(i, j) == h(n(i, j).unwrap() as int, j) + 1
    }
}

/// The state of the tables after the ways by the vertices below `k` were
/// tried.
spec fn fw_inv(
    w: spec_fn(int, int) -> int,
    d: spec_fn(int, int) -> int,
    n: spec_fn(int, int) -> Option<Vertex>,
    h: spec_fn(int, int) -> nat,
    k: int,
    v: int,
) -> bool {
    &&& 0 <= k <= v
    &&& forall|i: int, j: int| 0 <= i < v && 0 <= j < v ==> #[trigger] cell_ok(w, d, n, h, i, j)
    &&& forall|i: int, j: int| 0 <= i < v && 0 <= j < v ==> #[trigger] hop_ok(w, d, n, h, k, v, i, j)
    &&& forall|i: int, m: int, j: int|
        0 <= i < v && 0 <= j < v && 0 <= m < k ==> #[trigger] tri(d, i, m, j)
}

/// Trying the ways by `k` keeps the tables in order.
proof fn lemma_relax(
    w: spec_fn(int, int) -> int,
    d: spec_fn(int, int) -> int,
    n: spec_fn(int, int) -> Option<Vertex>,
    h: spec_fn(int, int) -> nat,
    k: int,
    v: int,
)
    requires
        fw_inv(w, d, n, h, k, v),
        k < v,
    ensures
        fw_inv(w, relaxed_d(d, k), relaxed_n(d, n, k), relaxed_h(d, h, k), k + 1, v),
{
    let d2 = relaxed_d(d, k);
    let n2 = relaxed_n(d, n, k);
    let h2 = relaxed_h(d, h, k);
    assert(cell_ok(w, d, n, h, k, k));
    assert forall|i: int, j: int| 0 <= i < v && 0 <= j < v implies #[trigger] cell_ok(
        w,
        d2,
        n2,
        h2,
        i,
        j,
    ) by {
        assert(cell_ok(w, d, n, h, i, j));
        assert(cell_ok(w, d, n, h, i, k));
        assert(cell_ok(w, d, n, h, k, j));
    }
    assert forall|i: int, j: int| 0 <= i < v && 0 <= j < v implies #[trigger] hop_ok(
        w,
        d2,
        n2,
        h2,
        k + 1,
        v,
        i,
        j,
    ) by {
        assert(cell_ok(w, d, n, h, i, j));
        assert(cell_ok(w, d, n, h, i, k));
        assert(cell_ok(w, d, n, h, k, j));
        assert(hop_ok(w, d, n, h, k, v, i, j));
        assert(hop_ok(w, d, n, h, k, v, i, k));
        if i != j && d2(i, j) < unreachable() {
            let x = n2(i, j).unwrap() as int;
            assert(cell_ok(w, d, n, h, i, x));
            assert(cell_ok(w, d, n, h, x, j));
            assert(cell_ok(w, d, n, h, x, k));
            if x < k {
                assert(tri(d, i, x, j));
                assert(tri(d, i, x, k));
            }
        }
    }
    assert forall|i: int, m: int, j: int|
        0 <= i < v && 0 <= j < v && 0 <= m < k + 1 implies #[trigger] tri(d2, i, m, j) by {
        assert(cell_ok(w, d, n, h, i, j));
        assert(cell_ok(w, d, n, h, i, m));
        assert(cell_ok(w, d, n, h, m, j));
        assert(cell_ok(w, d, n, h, i, k));
        assert(cell_ok(w, d, n, h, k, j));
        assert(cell_ok(w, d, n, h, k, m));
        assert(cell_ok(w, d, n, h, m, k));
        if m < k {
            assert(tri(d, i, m, j));
            assert(tri(d, k, m, j));
            assert(tri(d, i, m, k));
        }
    }
}

/// Tables that agree on every pair of vertices are in order together.
proof fn lemma_same_tables(
    w: spec_fn(int, int) -> int,
    d: spec_fn(int, int) -> int,
    n: spec_fn(int, int) -> Option<Vertex>,
    h: spec_fn(int, int) -> nat,
    d2: spec_fn(int, int) -> int,
    n2: spec_fn(int, int) -> Option<Vertex>,
    k: int,
    v: int,
)
    requires
        fw_inv(w, d, n, h, k, v),
        forall|i: int, j: int| 0 <= i < v && 0 <= j < v ==> #[trigger] d2(i, j) == d(i, j),
        forall|i: int, j: int| 0 <= i < v && 0 <= j < v ==> #[trigger] n2(i, j) == n(i, j),
    ensures
        fw_inv(w, d2, n2, h, k, v),
{
    assert forall|i: int, j: int| 0 <= i < v && 0 <= j < v implies #[trigger] cell_ok(
        w,
        d2,
        n2,
        h,
        i,
        j,
    ) by {
        assert(cell_ok(w, d, n, h, i, j));
    }
    assert forall|i: int, j: int| 0 <= i < v && 0 <= j < v implies #[trigger] hop_ok(
        w,
        d2,
        n2,
        h,
        k,
        v,
        i,
        j,
    ) by {
        assert(hop_ok(w, d, n, h, k, v, i, j));
    }
    assert forall|i: int, m: int, j: int|
        0 <= i < v && 0 <= j < v && 0 <= m < k implies #[trigger] tri(d2, i, m, j) by {
        assert(tri(d, i, m, j));
    }
}

/// The weights of the graph's edges, as numbers.
spec fn w_of<const V: usize>(graph: &Graph<V>) -> spec_fn(int, int) -> int {
    |i: int, j: int| graph.weight(i, j) as int
}

/// The distances that a table holds, as numbers.
spec fn d_of<const V: usize>(dist: [[Weight; V]; V]) -> spec_fn(int, int) -> int {
    |i: int, j: int| dist@[i]@[j] as int
}

/// The first steps that a table holds.
spec fn n_of<const V: usize>(next: [[Option<Vertex>; V]; V]) -> spec_fn(int, int) -> Option<
    Vertex,
> {
    |i: int, j: int| next@[i]@[j]
}

/// The numbers of steps before any way by a third vertex was tried.
spec fn direct_hops() -> spec_fn(int, int) -> nat {
    |i: int, j: int|
        if i == j {
            0nat
        } else {
            1nat
        }
}

/// No way through the graph is shorter than the distance in the finished
/// tables.
proof fn lemma_walk_bound<const V: usize>(
    graph: &Graph<V>,
    d: spec_fn(int, int) -> int,
    n: spec_fn(int, int) -> Option<Vertex>,
    h: spec_fn(int, int) -> nat,
    walk: Seq<Vertex>,
)
    requires
        fw_inv(w_of(graph), d, n, h, V as int, V as int),
        is_walk(graph, walk),
    ensures
        d(walk.first() as int, walk.last() as int) <= walk_weight(graph, walk),
    decreases walk.len(),
{
    let w = w_of(graph);
    let a = walk.first() as int;
    let b = walk.last() as int;
    assert(walk[0] < V && walk[walk.len() - 1] < V);
    if walk.len() == 1 {
        assert(cell_ok(w, d, n, h, a, a));
    } else {
        let init = walk.drop_last();
        let c = init.last() as int;
        assert(walk[walk.len() - 2] < V);
        assert(is_walk(graph, init)) by {
            assert forall|i: int| 0 <= i < init.len() implies #[trigger] init[i] < V by {
                assert(init[i] == walk[i]);
            }
            assert forall|i: int| 0 <= i < init.len() - 1 implies graph.weight(
                #[trigger] init[i] as int,
                init[i + 1] as int,
            ) != NO_EDGE_WEIGHT by {
                assert(init[i] == walk[i]);
                assert(init[i + 1] == walk[i + 1]);
            }
        }
        lemma_walk_bound(graph, d, n, h, init);
        assert(cell_ok(w, d, n, h, c, b));
        assert(tri(d, a, c, b));
    }
}

/// The tables before any way by a third vertex was tried: the distance
/// between two vertices is the weight of their edge, and the first step on
/// the way is the edge itself.
fn initial_tables<const V: usize>(graph: &Graph<V>) -> (tables: (
    [[Weight; V]; V],
    [[Option<Vertex>; V]; V],
))
    requires
        graph.wf(),
    ensures
        fw_inv(w_of(graph), d_of(tables.0), n_of(tables.1), direct_hops(), 0, V as int),
{
    let adj_matrix = graph.adjacency_matrix();
    let mut dist = [[NO_EDGE_WEIGHT;V];V];
    let mut next = [[Option::<Vertex>::None;V];V];
    let mut v1: usize = 0;
    while v1 < V
        invariant
            v1 <= V,
            forall|a: int, b: int|
                0 <= a < V && 0 <= b < V ==> #[trigger] adj_matrix@[a]@[b] == graph.weight(a, b),
            forall|a: int, b: int|
                0 <= a < V && 0 <= b < V ==> #[trigger] dist@[a]@[b] == if a < v1 {
                    graph.weight(a, b)
                } else {
                    NO_EDGE_WEIGHT
                },
            forall|a: int, b: int|
                0 <= a < V && 0 <= b < V ==> #[trigger] next@[a]@[b] == if a < v1 && a == b {
                    Some(a as usize)
                } else if a < v1 && graph.weight(a, b) != NO_EDGE_WEIGHT {
                    Some(b as usize)
                } else {
                    None
                },
        decreases V - v1,
    {
        let mut v2: usize = 0;
        while v2 < V
            invariant
                v1 < V,
                v2 <= V,
                forall|a: int, b: int|
                    0 <= a < V && 0 <= b < V ==> #[trigger] adj_matrix@[a]@[b] == graph.weight(
                        a,
                        b,
                    ),
                forall|a: int, b: int|
                    0 <= a < V && 0 <= b < V ==> #[trigger] dist@[a]@[b] == if a < v1 || (a == v1
                        && (b < v2 || (b == a && v2 > 0))) {
                        graph.weight(a, b)
                    } else {
                        NO_EDGE_WEIGHT
                    },
                forall|a: int, b: int|
                    0 <= a < V && 0 <= b < V ==> #[trigger] next@[a]@[b] == if (a < v1 || (a == v1
                        && v2 > 0)) && a == b {
                        Some(a as usize)
                    } else if (a < v1 || (a == v1 && b < v2)) && graph.weight(a, b)
                        != NO_EDGE_WEIGHT {
                        Some(b as usize)
                    } else {
                        None
                    },
            decreases V - v2,
        {
            if adj_matrix[v1][v2] != NO_EDGE_WEIGHT {
                dist[v1][v2] = adj_matrix[v1][v2];
                next[v1][v2] = Some(v2);
            }
            dist[v1][v1] = NO_LOOP_WEIGHT;
            next[v1][v1] = Some(v1);
            v2 += 1;
        }
        v1 += 1;
    }
    proof {
        let w = w_of(graph);
        let d = d_of(dist);
        let n = n_of(next);
        let h = direct_hops();
        assert forall|i: int, j: int| 0 <= i < V && 0 <= j < V implies #[trigger] cell_ok(
            w,
            d,
            n,
            h,
            i,
            j,
        ) by {
            assert(dist@[i]@[j] == graph.weight(i, j));
        }
        assert forall|i: int, j: int| 0 <= i < V && 0 <= j < V implies #[trigger] hop_ok(
            w,
            d,
            n,
            h,
            0,
            V as int,
            i,
            j,
        ) by {
            assert(dist@[i]@[j] == graph.weight(i, j));
            assert(dist@[j]@[j] == graph.weight(j, j));
            assert(next@[i]@[j] == n(i, j));
        }
    }
    (dist, next)
}

/// Tries, for every pair of vertices, the way by `k`, and keeps it where it
/// is shorter than the way known so far.
fn relax_through<const V: usize>(
    k: usize,
    dist: &mut [[Weight; V]; V],
    next: &mut [[Option<Vertex>; V]; V],
    Ghost(w): Ghost<spec_fn(int, int) -> int>,
    Ghost(h): Ghost<spec_fn(int, int) -> nat>,
)
    requires
        k < V,
        fw_inv(w, d_of(*old(dist)), n_of(*old(next)), h, k as int, V as int),
    ensures
        fw_inv(
            w,
            d_of(*final(dist)),
            n_of(*final(next)),
            relaxed_h(d_of(*old(dist)), h, k as int),
            k + 1,
            V as int,
        ),
{
    let ghost d0 = d_of(*dist);
    let ghost n0 = n_of(*next);
    let ghost d1 = relaxed_d(d0, k as int);
    let ghost n1 = relaxed_n(d0, n0, k as int);
    proof {
        assert(cell_ok(w, d0, n0, h, k as int, k as int));
    }
    let mut i: usize = 0;
    while i < V
        invariant
            i <= V,
            k < V,
            fw_inv(w, d0, n0, h, k as int, V as int),
            d1 == relaxed_d(d0, k as int),
            n1 == relaxed_n(d0, n0, k as int),
            forall|a: int, b: int|
                0 <= a < V && 0 <= b < V ==> #[trigger] dist@[a]@[b] == if a < i {
                    d1(a, b)
                } else {
                    d0(a, b)
                },
            forall|a: int, b: int|
                0 <= a < V && 0 <= b < V ==> #[trigger] next@[a]@[b] == if a < i {
                    n1(a, b)
                } else {
                    n0(a, b)
                },
        decreases V - i,
    {
        let mut j: usize = 0;
        while j < V
            invariant
                i < V,
                j <= V,
                k < V,
                fw_inv(w, d0, n0, h, k as int, V as int),
                d1 == relaxed_d(d0, k as int),
                n1 == relaxed_n(d0, n0, k as int),
                forall|a: int, b: int|
                    0 <= a < V && 0 <= b < V ==> #[trigger] dist@[a]@[b] == if a < i || (a == i
                        && b < j) {
                        d1(a, b)
                    } else {
                        d0(a, b)
                    },
                forall|a: int, b: int|
                    0 <= a < V && 0 <= b < V ==> #[trigger] next@[a]@[b] == if a < i || (a == i
                        && b < j) {
                        n1(a, b)
                    } else {
                        n0(a, b)
                    },
            decreases V - j,
        {
            proof {
                assert(cell_ok(w, d0, n0, h, k as int, k as int));
                assert(cell_ok(w, d0, n0, h, i as int, k as int));
                assert(cell_ok(w, d0, n0, h, k as int, j as int));
                assert(cell_ok(w, d0, n0, h, i as int, j as int));
                assert(dist@[i as int]@[k as int] == d0(i as int, k as int));
                assert(dist@[k as int]@[j as int] == d0(k as int, j as int));
                assert(dist@[i as int]@[j as int] == d0(i as int, j as int));
                assert(next@[i as int]@[k as int] == n0(i as int, k as int));
            }
            let to_k = dist[i][k];
            let from_k = dist[k][j];
            if to_k != NO_EDGE_WEIGHT && from_k != NO_EDGE_WEIGHT && dist[i][j] as u64 > to_k as u64
                + from_k as u64 {
                dist[i][j] = (to_k as u64 + from_k as u64) as Weight;
                next[i][j] = next[i][k];
            }
            j += 1;
        }
        i += 1;
    }
    proof {
        lemma_relax(w, d0, n0, h, k as int, V as int);
        lemma_same_tables(
            w,
            d1,
            n1,
            relaxed_h(d0, h, k as int),
            d_of(*dist),
            n_of(*next),
            k + 1,
            V as int,
        );
    }
}

/// The way between two vertices of the graph that weighs the least, by the
/// algorithm of Floyd and Warshall. The way passes no vertex twice, so each
/// of its steps is an edge, and from a vertex to itself it is that vertex
/// alone. A way that weighs `NO_EDGE_WEIGHT` or more counts as no way.
pub fn floyd_shortest_path<const V: usize>(graph: &Graph<V>, v1: Vertex, v2: Vertex) -> (result:
    Result<Vec<Vertex>, Error>)
    requires
        graph.wf(),
    ensures
        match result {
            Ok(path) => {
                &&& v1 < V && v2 < V
                &&& is_walk_between(graph, path@, v1, v2)
                &&& walk_weight(graph, path@) < unreachable()
                &&& path@.no_duplicates()
                &&& v1 == v2 ==> path@ == seq![v1]
                &&& forall|other: Seq<Vertex>| #[trigger]
                    is_walk_between(graph, other, v1, v2) ==> walk_weight(graph, path@)
                        <= walk_weight(graph, other)
            },
            Err(Error::InvalidVertices(invalid)) => {
                &&& !(v1 < V && v2 < V)
                &&& invalid@ == invalid_among(v1, v2, V)
            },
            Err(Error::NoShortestPath) => {
                &&& v1 < V && v2 < V
                &&& forall|other: Seq<Vertex>| #[trigger]
                    is_walk_between(graph, other, v1, v2) ==> walk_weight(graph, other)
                        >= unreachable()
            },
        },
{
    let mut invalid_vertices: Vec<Vertex> = Vec::new();
    if !Graph::<V>::is_valid_vertex(v1) {
        invalid_vertices.push(v1);
    }
    if !Graph::<V>::is_valid_vertex(v2) {
        invalid_vertices.push(v2);
    }
    if !invalid_vertices.is_empty() {
        proof {
            assert(invalid_vertices@ =~= invalid_among(v1, v2, V));
        }
        return Err(Error::InvalidVertices(invalid_vertices));
    }
    let ghost w = w_of(graph);
    let (mut dist, mut next) = initial_tables(graph);
    let ghost mut h = direct_hops();
    let mut k: usize = 0;
    while k < V
        invariant
            k <= V,
            w == w_of(graph),
            fw_inv(w, d_of(dist), n_of(next), h, k as int, V as int),
        decreases V - k,
    {
        let ghost d0 = d_of(dist);
        relax_through(k, &mut dist, &mut next, Ghost(w), Ghost(h));
        proof {
            h = relaxed_h(d0, h, k as int);
        }
        k += 1;
    }
    let ghost d = d_of(dist);
    let ghost n = n_of(next);
    proof {
        assert(cell_ok(w, d, n, h, v1 as int, v2 as int));
        assert(hop_ok(w, d, n, h, V as int, V as int, v1 as int, v2 as int));
        assert forall|other: Seq<Vertex>| #[trigger]
            is_walk_between(graph, other, v1, v2) implies d(v1 as int, v2 as int) <= walk_weight(
            graph,
            other,
        ) by {
            lemma_walk_bound(graph, d, n, h, other);
        }
    }
    if next[v1][v2].is_none() {
        return Err(Error::NoShortestPath);
    }
    let mut shortest_path: Vec<Vertex> = Vec::new();
    shortest_path.push(v1);
    let mut current_v = v1;
    proof {
        assert(shortest_path@ =~= seq![v1]);
        assert(walk_weight(graph, shortest_path@) == 0);
        if v1 != v2 {
            assert(d(v1 as int, v2 as int) < unreachable());
        }
    }
    while current_v != v2
        invariant
            current_v < V,
            v1 < V,
            v2 < V,
            w == w_of(graph),
            d == d_of(dist),
            n == n_of(next),
            fw_inv(w, d, n, h, V as int, V as int),
            is_walk_between(graph, shortest_path@, v1, current_v),
            d(current_v as int, v2 as int) < unreachable(),
            walk_weight(graph, shortest_path@) + d(current_v as int, v2 as int) == d(
                v1 as int,
                v2 as int,
            ),
            forall|i: int|
                0 <= i < shortest_path@.len() - 1 ==> h(
                    #[trigger] shortest_path@[i] as int,
                    v2 as int,
                ) > h(current_v as int, v2 as int),
            shortest_path@.no_duplicates(),
            v1 == v2 ==> shortest_path@ == seq![v1],
        decreases h(current_v as int, v2 as int),
    {
        proof {
            assert(hop_ok(w, d, n, h, V as int, V as int, current_v as int, v2 as int));
            assert(cell_ok(w, d, n, h, current_v as int, v2 as int));
        }
        let ghost before = shortest_path@;
        match next[current_v][v2] {
            Some(next_v) => {
                proof {
                    assert(cell_ok(w, d, n, h, next_v as int, v2 as int));
                    assert(cell_ok(w, d, n, h, current_v as int, next_v as int));
                }
                shortest_path.push(next_v);
                proof {
                    assert(shortest_path@.drop_last() =~= before);
                    assert(is_walk(graph, shortest_path@)) by {
                        assert forall|i: int| 0 <= i < shortest_path@.len() - 1 implies h(
                            #[trigger] shortest_path@[i] as int,
                            v2 as int,
                        ) > h(next_v as int, v2 as int) by {
                            if i < before.len() - 1 {
                                assert(before[i] == shortest_path@[i]);
                            }
                        }
                        assert forall|i: int, j: int|
                            0 <= i < shortest_path@.len() && 0 <= j < shortest_path@.len() && i
                                != j implies shortest_path@[i] != shortest_path@[j] by {
                            if i < before.len() && j < before.len() {
                                assert(before[i] == shortest_path@[i]);
                                assert(before[j] == shortest_path@[j]);
                            }
                        }
                        assert forall|i: int| 0 <= i < shortest_path@.len() - 1 implies graph.weight(
                            #[trigger] shortest_path@[i] as int,
                            shortest_path@[i + 1] as int,
                        ) != NO_EDGE_WEIGHT by {
                            if i < before.len() - 1 {
                                assert(before[i] == shortest_path@[i]);
                                assert(before[i + 1] == shortest_path@[i + 1]);
                            }
                        }
                    }
                }
                current_v = next_v;
            },
            None => {
                return Err(Error::NoShortestPath);
            },
        }
    }
    proof {
        assert(cell_ok(w, d, n, h, v2 as int, v2 as int));
    }
    Ok(shortest_path)
}

} // verus!
