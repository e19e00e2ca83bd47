//! The adjacency view: which pairs of vertices are edges.

use std::collections::HashMap;
use vstd::prelude::*;
use crate::graph::{Edge, WeightedGraph};

verus! {

/// `list` holds the neighbours of `u` in increasing order.
pub open spec fn is_neighbor_list(g: &WeightedGraph, u: int, list: Seq<usize>) -> bool {
    &&& forall|i: int| 0 <= i < list.len() ==> g.adjacent(u, #[trigger] list[i] as int)
    &&& forall|v: int| #[trigger] g.adjacent(u, v) ==> list.contains(v as usize)
    &&& forall|i: int, j: int| 0 <= i < j < list.len() ==> list[i] < list[j]
}

/// `list` holds the edges that end in `v`, by increasing first vertex.
pub open spec fn is_incident_list(g: &WeightedGraph, v: int, list: Seq<Edge>) -> bool {
    &&& forall|i: int|
        0 <= i < list.len() ==> (#[trigger] list[i]).1 == v && g.adjacent(list[i].0 as int, v)
    &&& forall|u: int| #[trigger] g.adjacent(u, v) ==> list.contains((u as usize, v as usize))
    &&& forall|i: int, j: int| 0 <= i < j < list.len() ==> list[i].0 < list[j].0
}

/// Some edge ends in `v`.
pub open spec fn has_incident_edge(g: &WeightedGraph, v: int) -> bool {
    exists|u: int| g.adjacent(u, v)
}

/// `a` comes before `b` in row-major order.
pub open spec fn edge_before(a: Edge, b: Edge) -> bool {
    a.0 < b.0 || (a.0 == b.0 && a.1 < b.1)
}

/// `list` holds every edge of the graph once, both directions of an undirected
/// edge counted, in row-major order.
pub open spec fn is_edge_list(g: &WeightedGraph, list: Seq<Edge>) -> bool {
    &&& forall|i: int|
        0 <= i < list.len() ==> g.adjacent((#[trigger] list[i]).0 as int, list[i].1 as int)
    &&& forall|u: int, v: int| #[trigger]
        g.adjacent(u, v) ==> list.contains((u as usize, v as usize))
    &&& forall|i: int, j: int| 0 <= i < j < list.len() ==> edge_before(list[i], list[j])
}

/// Increasing sequences with the same members agree up to the end of the
/// first.
proof fn lemma_increasing_agree(a: Seq<usize>, b: Seq<usize>, k: int)
    requires
        forall|i: int, j: int| 0 <= i < j < a.len() ==> a[i] < a[j],
        forall|i: int, j: int| 0 <= i < j < b.len() ==> b[i] < b[j],
        forall|x: usize| a.contains(x) <==> b.contains(x),
        0 <= k <= a.len(),
        forall|i: int| 0 <= i < k ==> i < b.len() && a[i] == b[i],
    ensures
        a.len() <= b.len(),
        forall|i: int| 0 <= i < a.len() ==> a[i] == b[i],
    decreases a.len() - k,
{
    if k < a.len() {
        assert(a.contains(a[k]));
        let j = choose|j: int| 0 <= j < b.len() && b[j] == a[k];
        if j < k {
            assert(a[j] == b[j]);
        } else if j > k {
            assert(b.contains(b[k]));
            let i = choose|i: int| 0 <= i < a.len() && a[i] == b[k];
            if i < k {
                assert(a[i] == b[i]);
            }
        }
        assert(a[k] == b[k]);
        lemma_increasing_agree(a, b, k + 1);
    } else if k > 0 {
        assert(a[k - 1] == b[k - 1]);
    }
}

/// A vertex has one neighbour list.
pub proof fn lemma_neighbor_list_unique(g: &WeightedGraph, u: int, a: Seq<usize>, b: Seq<usize>)
    requires
        is_neighbor_list(g, u, a),
        is_neighbor_list(g, u, b),
    ensures
        a == b,
{
    assert forall|x: usize| a.contains(x) <==> b.contains(x) by {
        if a.contains(x) {
            let i = choose|i: int| 0 <= i < a.len() && a[i] == x;
            assert(g.adjacent(u, a[i] as int));
        }
        if b.contains(x) {
            let i = choose|i: int| 0 <= i < b.len() && b[i] == x;
            assert(g.adjacent(u, b[i] as int));
        }
    }
    lemma_increasing_agree(a, b, 0);
    lemma_increasing_agree(b, a, 0);
    assert(a =~= b);
}

/// A vertex has one list of incident edges.
pub proof fn lemma_incident_list_unique(g: &WeightedGraph, v: usize, a: Seq<Edge>, b: Seq<Edge>)
    requires
        is_incident_list(g, v as int, a),
        is_incident_list(g, v as int, b),
    ensures
        a == b,
{
    let firsts_a = Seq::new(a.len(), |i: int| a[i].0);
    let firsts_b = Seq::new(b.len(), |i: int| b[i].0);
    assert forall|x: usize| firsts_a.contains(x) <==> firsts_b.contains(x) by {
        if firsts_a.contains(x) {
            let i = choose|i: int| 0 <= i < firsts_a.len() && firsts_a[i] == x;
            assert(a[i].1 == v && g.adjacent(a[i].0 as int, v as int));
            assert(b.contains((x, v)));
            let j = choose|j: int| 0 <= j < b.len() && b[j] == (x, v);
            assert(firsts_b[j] == x);
        }
        if firsts_b.contains(x) {
            let i = choose|i: int| 0 <= i < firsts_b.len() && firsts_b[i] == x;
            assert(b[i].1 == v && g.adjacent(b[i].0 as int, v as int));
            assert(a.contains((x, v)));
            let j = choose|j: int| 0 <= j < a.len() && a[j] == (x, v);
            assert(firsts_a[j] == x);
        }
    }
    lemma_increasing_agree(firsts_a, firsts_b, 0);
    lemma_increasing_agree(firsts_b, firsts_a, 0);
    assert forall|i: int| 0 <= i < a.len() implies a[i] == b[i] by {
        assert(firsts_a[i] == firsts_b[i]);
        assert(a[i].1 == v);
        assert(b[i].1 == v);
    }
    assert(firsts_a.len() == firsts_b.len());
    assert(a =~= b);
}

/// Edge lists of one graph agree up to the end of the first.
proof fn lemma_edge_lists_agree(g: &WeightedGraph, a: Seq<Edge>, b: Seq<Edge>, k: int)
    requires
        is_edge_list(g, a),
        is_edge_list(g, b),
        0 <= k <= a.len(),
        forall|i: int| 0 <= i < k ==> i < b.len() && a[i] == b[i],
    ensures
        a.len() <= b.len(),
        forall|i: int| 0 <= i < a.len() ==> a[i] == b[i],
    decreases a.len() - k,
{
    if k < a.len() {
        assert(g.adjacent(a[k].0 as int, a[k].1 as int));
        assert(b.contains((a[k].0, a[k].1)));
        let j = choose|j: int| 0 <= j < b.len() && b[j] == a[k];
        if j < k {
            assert(a[j] == b[j]);
            assert(edge_before(a[j], a[k]));
        } else if j > k {
            assert(g.adjacent(b[k].0 as int, b[k].1 as int));
            assert(a.contains((b[k].0, b[k].1)));
            let i = choose|i: int| 0 <= i < a.len() && a[i] == b[k];
            assert(edge_before(b[k], b[j]));
            if i < k {
                assert(a[i] == b[i]);
                assert(edge_before(b[i], b[k]));
            } else if i > k {
                assert(edge_before(a[k], a[i]));
            }
        }
        assert(a[k] == b[k]);
        lemma_edge_lists_agree(g, a, b, k + 1);
    } else if k > 0 {
        assert(a[k - 1] == b[k - 1]);
    }
}

/// A graph has one edge list.
pub proof fn lemma_edge_list_unique(g: &WeightedGraph, a: Seq<Edge>, b: Seq<Edge>)
    requires
        is_edge_list(g, a),
        is_edge_list(g, b),
    ensures
        a == b,
{
    lemma_edge_lists_agree(g, a, b, 0);
    lemma_edge_lists_agree(g, b, a, 0);
    assert(a =~= b);
}

/// A graph has one index of incident edges.
pub proof fn lemma_incident_edges_unique(
    g: &WeightedGraph,
    a: Map<usize, Vec<Edge>>,
    b: Map<usize, Vec<Edge>>,
)
    requires
        forall|v: usize| #[trigger] a.contains_key(v) <==> has_incident_edge(g, v as int),
        forall|v: usize| #[trigger] a.contains_key(v) ==> is_incident_list(g, v as int, a[v]@),
        forall|v: usize| #[trigger] b.contains_key(v) <==> has_incident_edge(g, v as int),
        forall|v: usize| #[trigger] b.contains_key(v) ==> is_incident_list(g, v as int, b[v]@),
    ensures
        forall|v: usize| a.contains_key(v) == b.contains_key(v),
        forall|v: usize| #[trigger] a.contains_key(v) ==> a[v]@ == b[v]@,
{
    assert forall|v: usize| #[trigger] a.contains_key(v) implies a[v]@ == b[v]@ by {
        assert(b.contains_key(v));
        lemma_incident_list_unique(g, v, a[v]@, b[v]@);
    }
}

impl WeightedGraph {
    /// Whether adjacency is the same in both directions.
    pub fn is_undirected_graph(&self) -> (r: bool)
        ensures
            r == self.is_undirected(),
    {
        let order: usize = self.num_vertices();
        let mut u: usize = 0;
        while u < order
            invariant
                order == self.order(),
                0 <= u <= order,
                forall|x: int, y: int|
                    0 <= x < u && 0 <= y < order ==> self.adjacent(x, y) == self.adjacent(y, x),
            decreases order - u,
        {
            let mut v: usize = 0;
            while v < order
                invariant
                    order == self.order(),
                    0 <= u < order,
                    0 <= v <= order,
                    forall|x: int, y: int|
                        0 <= x < u && 0 <= y < order ==> self.adjacent(x, y) == self.adjacent(
                            y,
                            x,
                        ),
                    forall|y: int|
                        0 <= y < v ==> self.adjacent(u as int, y) == self.adjacent(y, u as int),
                decreases order - v,
            {
                if self.has_edge(u, v) != self.has_edge(v, u) {
                    return false;
                }
                v += 1;
            }
            u += 1;
        }
        true
    }

    /// The matrix that holds 1 where the weight matrix holds an edge and 0
    /// elsewhere.
    pub fn get_adjacency_matrix(&self) -> (matrix: Vec<Vec<i32>>)
        ensures
            matrix@.len() == self.order(),
            forall|u: int| 0 <= u < self.order() ==> (#[trigger] matrix@[u])@.len() == self.order(),
            forall|u: int, v: int|
                0 <= u < self.order() && 0 <= v < self.order() ==> #[trigger] matrix@[u]@[v] == (
                if self.adjacent(u, v) {
                    1i32
                } else {
                    0i32
                }),
    {
        let order: usize = self.num_vertices();
        let mut matrix: Vec<Vec<i32>> = Vec::new();
        let mut u: usize = 0;
        while u < order
            invariant
                order == self.order(),
                0 <= u <= order,
                matrix@.len() == u,
                forall|i: int| 0 <= i < u ==> (#[trigger] matrix@[i])@.len() == order,
                forall|i: int, j: int|
                    0 <= i < u && 0 <= j < order ==> #[trigger] matrix@[i]@[j] == (
                    if self.adjacent(i, j) {
                        1i32
                    } else {
                        0i32
                    }),
            decreases order - u,
        {
            let mut row: Vec<i32> = Vec::new();
            let mut v: usize = 0;
            while v < order
                invariant
                    order == self.order(),
                    0 <= u < order,
                    0 <= v <= order,
                    row@.len() == v,
                    forall|j: int|
                        0 <= j < v ==> #[trigger] row@[j] == (if self.adjacent(u as int, j) {
                            1i32
                        } else {
                            0i32
                        }),
                decreases order - v,
            {
                let entry: i32 = if self.has_edge(u, v) {
                    1
                } else {
                    0
                };
                row.push(entry);
                v += 1;
            }
            matrix.push(row);
            u += 1;
        }
        matrix
    }

    /// For every vertex, its neighbours in increasing order.
    pub fn get_adjacency_list(&self) -> (lists: Vec<Vec<usize>>)
        ensures
            lists@.len() == self.order(),
            forall|u: int|
                0 <= u < self.order() ==> is_neighbor_list(self, u, (#[trigger] lists@[u])@),
    {
        let order: usize = self.num_vertices();
        let mut lists: Vec<Vec<usize>> = Vec::new();
        let mut u: usize = 0;
        while u < order
            invariant
                order == self.order(),
                0 <= u <= order,
                lists@.len() == u,
                forall|i: int| 0 <= i < u ==> is_neighbor_list(self, i, (#[trigger] lists@[i])@),
            decreases order - u,
        {
            let mut list: Vec<usize> = Vec::new();
            let mut v: usize = 0;
            while v < order
                invariant
                    order == self.order(),
                    0 <= u < order,
                    0 <= v <= order,
                    forall|i: int|
                        0 <= i < list@.len() ==> #[trigger] list@[i] < v && self.adjacent(
                            u as int,
                            list@[i] as int,
                        ),
                    forall|x: int|
                        0 <= x < v && #[trigger] self.adjacent(u as int, x) ==> list@.contains(
                            x as usize,
                        ),
                    forall|i: int, j: int| 0 <= i < j < list@.len() ==> list@[i] < list@[j],
                decreases order - v,
            {
                if self.has_edge(u, v) {
                    let ghost before = list@;
                    list.push(v);
                    proof {
                        assert(list@[before.len() as int] == v);
                        assert forall|x: int|
                            0 <= x < v + 1 && #[trigger] self.adjacent(
                                u as int,
                                x,
                            ) implies list@.contains(x as usize) by {
                            if x < v {
                                let i = choose|i: int| 0 <= i < before.len() && before[i] == x;
                                assert(list@[i] == x);
                            }
                        }
                    }
                }
                v += 1;
            }
            lists.push(list);
            u += 1;
        }
        lists
    }

    /// The edges of the graph in row-major order.
    pub fn get_edges(&self) -> (edges: Vec<Edge>)
        ensures
            is_edge_list(self, edges@),
    {
        let order: usize = self.num_vertices();
        let mut edges: Vec<Edge> = Vec::new();
        let mut u: usize = 0;
        while u < order
            invariant
                order == self.order(),
                0 <= u <= order,
                forall|i: int|
                    0 <= i < edges@.len() ==> (#[trigger] edges@[i]).0 < u && self.adjacent(
                        edges@[i].0 as int,
                        edges@[i].1 as int,
                    ),
                forall|x: int, y: int|
                    0 <= x < u && #[trigger] self.adjacent(x, y) ==> edges@.contains(
                        (x as usize, y as usize),
                    ),
                forall|i: int, j: int|
                    0 <= i < j < edges@.len() ==> edge_before(edges@[i], edges@[j]),
            decreases order - u,
        {
            let mut v: usize = 0;
            while v < order
                invariant
                    order == self.order(),
                    0 <= u < order,
                    0 <= v <= order,
                    forall|i: int|
                        0 <= i < edges@.len() ==> edge_before(#[trigger] edges@[i], (u, v))
                            && self.adjacent(edges@[i].0 as int, edges@[i].1 as int),
                    forall|x: int, y: int|
                        (0 <= x < u || (x == u && 0 <= y < v)) && #[trigger] self.adjacent(x, y)
                            ==> edges@.contains((x as usize, y as usize)),
                    forall|i: int, j: int|
                        0 <= i < j < edges@.len() ==> edge_before(edges@[i], edges@[j]),
                decreases order - v,
            {
                if self.has_edge(u, v) {
                    let ghost before = edges@;
                    edges.push((u, v));
                    proof {
                        assert(edges@[before.len() as int] == (u, v));
                        assert forall|x: int, y: int|
                            (0 <= x < u || (x == u && 0 <= y < v + 1)) && #[trigger] self.adjacent(
                                x,
                                y,
                            ) implies edges@.contains((x as usize, y as usize)) by {
                            if !(x == u && y == v) {
                                let i = choose|i: int|
                                    0 <= i < before.len() && before[i] == (x as usize, y as usize);
                                assert(edges@[i] == (x as usize, y as usize));
                            }
                        }
                    }
                }
                v += 1;
            }
            u += 1;
        }
        edges
    }

    /// For every vertex in which an edge ends, those edges, by increasing
    /// first vertex. A vertex in which no edge ends has no entry.
    pub fn get_incident_edges(&self) -> (incident: HashMap<usize, Vec<Edge>>)
        ensures
            forall|v: usize| #[trigger]
                incident@.contains_key(v) <==> has_incident_edge(self, v as int),
            forall|v: usize| #[trigger]
                incident@.contains_key(v) ==> is_incident_list(self, v as int, incident@[v]@),
    {
        broadcast use vstd::std_specs::hash::group_hash_axioms;

        let order: usize = self.num_vertices();
        let mut incident: HashMap<usize, Vec<Edge>> = HashMap::new();
        let mut v: usize = 0;
        while v < order
            invariant
                order == self.order(),
                0 <= v <= order,
                forall|w: usize| #[trigger]
                    incident@.contains_key(w) <==> w < v && has_incident_edge(self, w as int),
                forall|w: usize| #[trigger]
                    incident@.contains_key(w) ==> is_incident_list(self, w as int, incident@[w]@),
            decreases order - v,
        {
            let mut list: Vec<Edge> = Vec::new();
            let mut u: usize = 0;
            while u < order
                invariant
                    order == self.order(),
                    0 <= v < order,
                    0 <= u <= order,
                    forall|i: int|
                        0 <= i < list@.len() ==> (#[trigger] list@[i]).1 == v && list@[i].0 < u
                            && self.adjacent(list@[i].0 as int, v as int),
                    forall|x: int|
                        0 <= x < u && #[trigger] self.adjacent(x, v as int) ==> list@.contains(
                            (x as usize, v),
                        ),
                    forall|i: int, j: int| 0 <= i < j < list@.len() ==> list@[i].0 < list@[j].0,
                decreases order - u,
            {
                if self.has_edge(u, v) {
                    let ghost before = list@;
                    list.push((u, v));
                    proof {
                        assert(list@[before.len() as int] == (u, v));
                        assert forall|x: int|
                            0 <= x < u + 1 && #[trigger] self.adjacent(
                                x,
                                v as int,
                            ) implies list@.contains((x as usize, v)) by {
                            if x < u {
                                let i = choose|i: int|
                                    0 <= i < before.len() && before[i] == (x as usize, v);
                                assert(list@[i] == (x as usize, v));
                            }
                        }
                    }
                }
                u += 1;
            }
            if list.len() > 0 {
                proof {
                    assert(self.adjacent(list@[0].0 as int, v as int));
                }
                incident.insert(v, list);
            } else {
                proof {
                    if has_incident_edge(self, v as int) {
                        let x = choose|x: int| self.adjacent(x, v as int);
                        assert(list@.contains((x as usize, v)));
                    }
                }
            }
            v += 1;
        }
        incident
    }
}

} // verus!
