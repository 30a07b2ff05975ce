use vstd::prelude::*;

verus! {

/// A vertex of a graph: its number.
pub type Vertex = usize;

/// The weight of an edge.
pub type Weight = u32;

/// The weight of the way from a vertex to itself.
pub const NO_LOOP_WEIGHT: Weight = 0;

/// The weight that stands for a missing edge.
pub const NO_EDGE_WEIGHT: Weight = Weight::MAX;

/// An undirected edge between two vertices, with its weight.
pub struct Edge(pub Vertex, pub Vertex, pub Weight);

/// Why an edge could not be added.
#[derive(Debug)]
pub enum Error {
    InvalidVertices,
}

/// An undirected weighted graph on the vertices `0..V`, as adjacency lists.
pub struct Graph<const V: usize> {
    lists: [Vec<(Vertex, Weight)>; V],
}

/// The weight of the last entry of `list` that names `to`.
pub open spec fn last_weight(list: Seq<(Vertex, Weight)>, to: Vertex) -> Option<Weight>
    decreases list.len(),
{
    if list.len() == 0 {
        None
    } else if list.last().0 == to {
        Some(list.last().1)
    } else {
        last_weight(list.drop_last(), to)
    }
}

/// std's `core::array::from_fn`, called with a function that makes an empty
/// list for every index: the result holds `V` empty lists.
#[verifier::external_body]
fn empty_lists<const V: usize>() -> (lists: [Vec<(Vertex, Weight)>; V])
    ensures
        forall|i: int| 0 <= i < V ==> (#[trigger] lists@[i])@.len() == 0,
{
    core::array::from_fn(|_i: usize| Vec::new())
}

impl<const V: usize> Default for Graph<V> {
    fn default() -> (graph: Self)
        ensures
            graph.wf(),
            graph.adjacency().len() == V,
            forall|v: int| 0 <= v < V ==> #[trigger] graph.adjacency()[v] == Seq::<
                (Vertex, Weight),
            >::empty(),
    {
        let graph = Self { lists: empty_lists::<V>() };
        proof {
            assert forall|v: int| 0 <= v < V implies #[trigger] graph.adjacency()[v] == Seq::<
                (Vertex, Weight),
            >::empty() by {
                assert(graph.lists@[v]@ =~= Seq::empty());
            }
        }
        graph
    }
}

impl<const V: usize> Graph<V> {
    /// The adjacency list of every vertex: the neighbours in the order in
    /// which the edges were added, each with the weight of its edge.
    pub closed spec fn adjacency(&self) -> Seq<Seq<(Vertex, Weight)>> {
        Seq::new(V as nat, |v: int| self.lists@[v]@)
    }

    /// Every list names vertices of the graph only, and the lists of two
    /// vertices agree on the edge that was added last between them.
    pub closed spec fn wf(&self) -> bool {
        &&& forall|v: int, k: int|
            0 <= v < V && 0 <= k < self.adjacency()[v].len() ==> (
            #[trigger] self.adjacency()[v][k]).0 < V
        &&& forall|a: int, b: int|
            0 <= a < V && 0 <= b < V ==> #[trigger] last_weight(self.adjacency()[a], b as usize)
                == last_weight(self.adjacency()[b], a as usize)
    }

    /// There is one adjacency list for each vertex.
    pub proof fn lemma_adjacency_len(&self)
        ensures
            self.adjacency().len() == V,
    {
    }

    /// The graph is undirected: the weight between two vertices is the same
    /// in both directions.
    pub proof fn lemma_weight_symmetric(&self, a: int, b: int)
        requires
            self.wf(),
            0 <= a < V,
            0 <= b < V,
        ensures
            self.weight(a, b) == self.weight(b, a),
    {
        assert(last_weight(self.adjacency()[a], b as usize) == last_weight(
            self.adjacency()[b],
            a as usize,
        ));
    }

    /// The weight of the edge that was added last between `a` and `b`;
    /// `NO_EDGE_WEIGHT` without such an edge, `NO_LOOP_WEIGHT` from a vertex
    /// to itself.
    pub open spec fn weight(&self, a: int, b: int) -> Weight {
        if a == b {
            NO_LOOP_WEIGHT
        } else {
            match last_weight(self.adjacency()[a], b as usize) {
                Some(w) => w,
                None => NO_EDGE_WEIGHT,
            }
        }
    }

    /// Adds an edge between two vertices of the graph, to the list of each.
    pub fn add_edge(&mut self, edge: Edge) -> (result: Result<(), Error>)
        requires
            old(self).wf(),
        ensures
            final(self).wf(),
            final(self).adjacency().len() == V,
            result is Ok <==> edge.0 < V && edge.1 < V,
            result is Err ==> final(self).adjacency() == old(self).adjacency(),
            result is Ok ==> final(self).adjacency() == old(self).adjacency().update(
                edge.0 as int,
                old(self).adjacency()[edge.0 as int].push((edge.1, edge.2)),
            ).update(
                edge.1 as int,
                old(self).adjacency().update(
                    edge.0 as int,
                    old(self).adjacency()[edge.0 as int].push((edge.1, edge.2)),
                )[edge.1 as int].push((edge.0, edge.2)),
            ),
    {
        let v1 = edge.0;
        let v2 = edge.1;
        let weight = edge.2;
        let v1_is_valid = Self::is_valid_vertex(v1);
        let v2_is_valid = Self::is_valid_vertex(v2);
        if !v1_is_valid || !v2_is_valid {
            return Err(Error::InvalidVertices);
        }
        let ghost before = self.adjacency();
        self.lists[v1].push((v2, weight));
        let ghost middle = self.adjacency();
        self.lists[v2].push((v1, weight));
        proof {
            let after = self.adjacency();
            assert(middle =~= before.update(v1 as int, before[v1 as int].push((v2, weight))));
            assert(after =~= middle.update(v2 as int, middle[v2 as int].push((v1, weight))));
            assert forall|a: int, b: int| 0 <= a < V && 0 <= b < V implies #[trigger] last_weight(
                after[a],
                b as usize,
            ) == last_weight(after[b], a as usize) by {
                assert(last_weight(before[a], b as usize) == last_weight(before[b], a as usize));
                lemma_last_weight_push(before[v1 as int], (v2, weight), b as usize);
                lemma_last_weight_push(middle[v2 as int], (v1, weight), a as usize);
                lemma_last_weight_push(before[v1 as int], (v2, weight), a as usize);
                lemma_last_weight_push(middle[v2 as int], (v1, weight), b as usize);
            }
        }
        Ok(())
    }

    /// The weight that the matrix holds between `a` and `b` while the lists
    /// are read: the rows below `row` are done, and of `row` the first
    /// `done` entries.
    spec fn weight_so_far(&self, row: int, done: int, a: int, b: int) -> Weight {
        let low = if a < b {
            a
        } else {
            b
        };
        let other = if a == row {
            b
        } else {
            a
        };
        if (a == row || b == row) && last_weight(
            self.adjacency()[row].take(done),
            other as usize,
        ) is Some {
            last_weight(self.adjacency()[row].take(done), other as usize).unwrap()
        } else if low < row {
            self.weight(a, b)
        } else {
            NO_EDGE_WEIGHT
        }
    }

    /// The matrix of the weights between all pairs of vertices.
    pub fn adjacency_matrix(&self) -> (matrix: [[Weight; V]; V])
        requires
            self.wf(),
        ensures
            forall|a: int, b: int|
                0 <= a < V && 0 <= b < V ==> #[trigger] matrix@[a]@[b] == self.weight(a, b),
            forall|a: int, b: int|
                0 <= a < V && 0 <= b < V ==> #[trigger] matrix@[a]@[b] == matrix@[b]@[a],
    {
        let mut matrix = [[NO_EDGE_WEIGHT;V];V];
        let mut v1: usize = 0;
        while v1 < V
            invariant
                v1 <= V,
                self.wf(),
                forall|a: int, b: int|
                    0 <= a < V && 0 <= b < V && a != b ==> #[trigger] matrix@[a]@[b]
                        == self.weight_so_far(v1 as int, 0, a, b),
            decreases V - v1,
        {
            let v1_adj = &self.lists[v1];
            let mut k: usize = 0;
            while k < v1_adj.len()
                invariant
                    v1 < V,
                    k <= v1_adj@.len(),
                    v1_adj@ == self.adjacency()[v1 as int],
                    self.wf(),
                    forall|a: int, b: int|
                        0 <= a < V && 0 <= b < V && a != b ==> #[trigger] matrix@[a]@[b]
                            == self.weight_so_far(v1 as int, k as int, a, b),
                decreases v1_adj@.len() - k,
            {
                let (v2, weight) = v1_adj[k];
                proof {
                    assert(self.adjacency()[v1 as int][k as int].0 < V);
                    assert(v1_adj@.take(k + 1).drop_last() =~= v1_adj@.take(k as int));
                }
                matrix[v1][v2] = weight;
                matrix[v2][v1] = weight;
                k += 1;
            }
            proof {
                assert(v1_adj@.take(v1_adj@.len() as int) =~= v1_adj@);
                assert(self.adjacency()[v1 + 1].take(0) =~= Seq::empty()) by {
                    if v1 + 1 < V {
                    }
                }
                assert forall|a: int, b: int| 0 <= a < V && 0 <= b < V && a != b implies (
                #[trigger] matrix@[a]@[b]) == self.weight_so_far(v1 + 1, 0, a, b) by {
                    assert(matrix@[a]@[b] == self.weight_so_far(
                        v1 as int,
                        v1_adj@.len() as int,
                        a,
                        b,
                    ));
                    assert(last_weight(self.adjacency()[a], b as usize) == last_weight(
                        self.adjacency()[b],
                        a as usize,
                    ));
                }
            }
            v1 += 1;
        }
        let mut v: usize = 0;
        while v < V
            invariant
                v <= V,
                forall|a: int, b: int|
                    0 <= a < V && 0 <= b < V && a != b ==> #[trigger] matrix@[a]@[b] == self.weight(
                        a,
                        b,
                    ),
                forall|a: int| 0 <= a < v ==> #[trigger] matrix@[a]@[a] == NO_LOOP_WEIGHT,
            decreases V - v,
        {
            matrix[v][v] = NO_LOOP_WEIGHT;
            v += 1;
        }
        proof {
            assert forall|a: int, b: int| 0 <= a < V && 0 <= b < V implies #[trigger] matrix@[a]@[b]
                == matrix@[b]@[a] by {
                self.lemma_weight_symmetric(a, b);
                assert(matrix@[b]@[a] == self.weight(b, a));
            }
        }
        matrix
    }

    /// The adjacency list of a vertex of the graph.
    pub fn adj(&self, v: usize) -> (list: &[(Vertex, Weight)])
        requires
            v < V,
        ensures
            list@ == self.adjacency()[v as int],
    {
        self.lists[v].as_slice()
    }

    /// Whether the graph has the vertex `v`.
    pub fn is_valid_vertex(v: usize) -> (valid: bool)
        ensures
            valid == (v < V),
    {
        v < V
    }
}

/// What `last_weight` gives after one more entry.
pub proof fn lemma_last_weight_push(list: Seq<(Vertex, Weight)>, entry: (Vertex, Weight), to: Vertex)
    ensures
        last_weight(list.push(entry), to) == if entry.0 == to {
            Some(entry.1)
        } else {
            last_weight(list, to)
        },
{
    assert(list.push(entry).drop_last() =~= list);
}

} // verus!
