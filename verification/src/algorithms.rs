//! Enumeration of the simple cycles of a fixed length.
//!
//! The search grows a path from each root in turn, trying the vertices in
//! increasing order, so it meets the tours in lexicographic order. A path is
//! only ever continued with vertices larger than its root, and a closed path
//! is kept only when its second vertex is less than its last: of the `2n`
//! tours of a cycle exactly the canonical one is recorded.

use std::collections::HashMap;
use vstd::prelude::*;
use crate::cycle::{
    cycles_view, differ_first_at, edge_tour, is_canonical, is_canonical_cycle, is_cycle_listing,
    is_face, is_simple_cycle, lemma_canonical_start_is_low, lemma_cycle_fits_graph,
    lemma_edge_tour_of_tour_edges, lex_less, next_index, tour_edges,
};
use crate::graph::{Edge, WeightedGraph};

verus! {

/// `path` can be the beginning of a canonical tour on `n` vertices.
spec fn is_partial_tour(g: &WeightedGraph, n: int, path: Seq<usize>) -> bool {
    &&& 1 <= path.len() <= n
    &&& path[0] < g.order()
    &&& forall|i: int, j: int| 0 <= i < j < path.len() ==> path[i] != path[j]
    &&& forall|i: int| 0 < i < path.len() ==> path[0] < #[trigger] path[i]
    &&& forall|i: int|
        0 <= i < path.len() - 1 ==> g.adjacent(#[trigger] path[i] as int, path[i + 1] as int)
}

/// The marked vertices are those that may not continue `path`: the vertices
/// below its root, and its own.
spec fn marks_match(g: &WeightedGraph, marked: Seq<bool>, path: Seq<usize>) -> bool {
    &&& marked.len() == g.order()
    &&& forall|v: int|
        0 <= v < marked.len() ==> (#[trigger] marked[v] <==> (v < path[0] || path.contains(
            v as usize,
        )))
}

/// `tour` begins with `prefix` and, where it goes on, goes on with a vertex
/// below `bound`.
spec fn extends(tour: Seq<usize>, prefix: Seq<usize>, bound: int) -> bool {
    &&& prefix.len() <= tour.len()
    &&& forall|i: int| 0 <= i < prefix.len() ==> prefix[i] == tour[i]
    &&& prefix.len() < tour.len() ==> tour[prefix.len() as int] < bound
}

/// `cycle` stands at one of the positions from `lo` up to `hi`.
spec fn is_listed(cycles: Seq<Seq<Edge>>, lo: int, hi: int, cycle: Seq<Edge>) -> bool {
    exists|k: int| lo <= k < hi && cycles[k] == cycle
}

/// From `lo` up to `hi`, `cycles` holds in increasing order exactly the
/// cycles on `n` vertices whose canonical tour extends `prefix` below `bound`.
#[verifier::opaque]
spec fn lists_extensions(
    g: &WeightedGraph,
    n: int,
    cycles: Seq<Seq<Edge>>,
    lo: int,
    hi: int,
    prefix: Seq<usize>,
    bound: int,
) -> bool {
    &&& 0 <= lo <= hi <= cycles.len()
    &&& forall|k: int|
        lo <= k < hi ==> is_face(g, n, #[trigger] cycles[k]) && extends(
            edge_tour(cycles[k]),
            prefix,
            bound,
        )
    &&& forall|tour: Seq<usize>| #[trigger]
        is_canonical_cycle(g, n, tour) && extends(tour, prefix, bound) ==> is_listed(
            cycles,
            lo,
            hi,
            tour_edges(tour),
        )
    &&& forall|j: int, k: int|
        lo <= j < k < hi ==> lex_less(
            edge_tour(#[trigger] cycles[j]),
            edge_tour(#[trigger] cycles[k]),
        )
}

/// The vertices of a simple cycle are vertices of the graph.
proof fn lemma_cycle_in_range(g: &WeightedGraph, tour: Seq<usize>, i: int)
    requires
        is_simple_cycle(g, tour),
        0 <= i < tour.len(),
    ensures
        tour[i] < g.order(),
{
    assert(g.adjacent(tour[i] as int, tour[next_index(i, tour.len() as int)] as int));
}

/// A listing for the extensions of a path below `v`, followed by a listing
/// for the extensions of the path with `v`, is a listing for the extensions
/// below `v + 1`.
proof fn lemma_listing_grows(
    g: &WeightedGraph,
    n: int,
    before: Seq<Seq<Edge>>,
    after: Seq<Seq<Edge>>,
    lo: int,
    path: Seq<usize>,
    v: usize,
)
    requires
        path.len() < n,
        lists_extensions(g, n, before, lo, before.len() as int, path, v as int),
        before.len() <= after.len(),
        after.subrange(0, before.len() as int) == before,
        lists_extensions(
            g,
            n,
            after,
            before.len() as int,
            after.len() as int,
            path.push(v),
            g.order() as int,
        ),
    ensures
        lists_extensions(g, n, after, lo, after.len() as int, path, v + 1),
{
    reveal(lists_extensions);
    let mid = before.len() as int;
    let hi = after.len() as int;
    let depth = path.len() as int;
    let longer = path.push(v);
    assert forall|k: int| 0 <= k < mid implies after[k] == before[k] by {
        assert(after.subrange(0, mid)[k] == after[k]);
    }
    assert forall|k: int| lo <= k < hi implies is_face(g, n, #[trigger] after[k]) && extends(
        edge_tour(after[k]),
        path,
        v + 1,
    ) by {
        let tour = edge_tour(after[k]);
        if k < mid {
            assert(is_face(g, n, before[k]));
            assert(extends(edge_tour(before[k]), path, v as int));
        } else {
            assert(extends(tour, longer, g.order() as int));
            assert forall|i: int| 0 <= i < depth implies path[i] == tour[i] by {
                assert(longer[i] == path[i]);
            }
            assert(longer[depth] == v);
        }
    }
    assert forall|tour: Seq<usize>| #[trigger]
        is_canonical_cycle(g, n, tour) && extends(tour, path, v + 1) implies is_listed(
        after,
        lo,
        hi,
        tour_edges(tour),
    ) by {
        if tour[depth] < v {
            assert(extends(tour, path, v as int));
            let k = choose|k: int| lo <= k < mid && before[k] == tour_edges(tour);
            assert(after[k] == tour_edges(tour));
        } else {
            assert forall|i: int| 0 <= i < longer.len() implies longer[i] == tour[i] by {
                if i < depth {
                    assert(longer[i] == path[i]);
                }
            }
            if depth + 1 < n {
                lemma_cycle_in_range(g, tour, depth + 1);
            }
            assert(extends(tour, longer, g.order() as int));
            let k = choose|k: int| mid <= k < hi && after[k] == tour_edges(tour);
            assert(lo <= k < hi);
        }
    }
    assert forall|j: int, k: int| lo <= j < k < hi implies lex_less(
        edge_tour(#[trigger] after[j]),
        edge_tour(#[trigger] after[k]),
    ) by {
        if k < mid {
            assert(lex_less(edge_tour(before[j]), edge_tour(before[k])));
        } else if j >= mid {
        } else {
            let a = edge_tour(after[j]);
            let b = edge_tour(after[k]);
            assert(is_face(g, n, before[j]));
            assert(extends(edge_tour(before[j]), path, v as int));
            assert(is_face(g, n, after[k]));
            assert(extends(b, longer, g.order() as int));
            assert(longer[depth] == v);
            assert forall|i: int| 0 <= i < depth implies a[i] == b[i] by {
                assert(longer[i] == path[i]);
            }
            assert(differ_first_at(a, b, depth));
        }
    }
}

/// Where no canonical tour continues `path` with `v`, a listing for the
/// extensions below `v` is one for those below `v + 1`.
proof fn lemma_listing_skips(
    g: &WeightedGraph,
    n: int,
    cycles: Seq<Seq<Edge>>,
    lo: int,
    hi: int,
    path: Seq<usize>,
    v: usize,
)
    requires
        is_partial_tour(g, n, path),
        path.len() < n,
        lists_extensions(g, n, cycles, lo, hi, path, v as int),
        !g.adjacent(path[path.len() - 1] as int, v as int) || v < path[0] || path.contains(v),
    ensures
        lists_extensions(g, n, cycles, lo, hi, path, v + 1),
{
    reveal(lists_extensions);
    let depth = path.len() as int;
    assert forall|tour: Seq<usize>| #[trigger]
        is_canonical_cycle(g, n, tour) && extends(tour, path, v + 1) implies is_listed(
        cycles,
        lo,
        hi,
        tour_edges(tour),
    ) by {
        if tour[depth] == v {
            assert(tour[depth - 1] == path[depth - 1]);
            assert(g.adjacent(
                tour[depth - 1] as int,
                tour[next_index(depth - 1, tour.len() as int)] as int,
            ));
            assert(tour[0] == path[0]);
            assert(tour[0] < tour[depth]);
            if path.contains(v) {
                let i = choose|i: int| 0 <= i < path.len() && path[i] == v;
                assert(tour[i] == path[i]);
                assert(tour[i] != tour[depth]);
            }
            assert(false);
        }
        assert(extends(tour, path, v as int));
    }
}

/// Nothing extends a path below vertex zero.
proof fn lemma_listing_starts_empty(
    g: &WeightedGraph,
    n: int,
    cycles: Seq<Seq<Edge>>,
    path: Seq<usize>,
)
    requires
        path.len() < n,
    ensures
        lists_extensions(g, n, cycles, cycles.len() as int, cycles.len() as int, path, 0),
{
    reveal(lists_extensions);
}

/// A path that is continued with an unmarked neighbour of its last vertex is
/// a path again, and marking that neighbour keeps the marks in step.
proof fn lemma_path_grows(g: &WeightedGraph, n: int, path: Seq<usize>, marked: Seq<bool>, v: usize)
    requires
        is_partial_tour(g, n, path),
        marks_match(g, marked, path),
        path.len() < n,
        g.adjacent(path[path.len() - 1] as int, v as int),
        !marked[v as int],
        marked.len() <= usize::MAX,
    ensures
        is_partial_tour(g, n, path.push(v)),
        marks_match(g, marked.update(v as int, true), path.push(v)),
        !path.contains(v),
{
    let depth = path.len() as int;
    let longer = path.push(v);
    let marks = marked.update(v as int, true);
    assert(!path.contains(v));
    assert(path.contains(path[0]));
    assert forall|i: int, j: int| 0 <= i < j < longer.len() implies longer[i] != longer[j] by {
        if j == depth {
            assert(path[i] == longer[i]);
            assert(path.contains(path[i]));
        }
    }
    assert forall|i: int| 0 < i < longer.len() implies longer[0] < #[trigger] longer[i] by {
        if i < depth {
            assert(path[0] < path[i]);
        }
    }
    assert forall|i: int| 0 <= i < longer.len() - 1 implies g.adjacent(
        #[trigger] longer[i] as int,
        longer[i + 1] as int,
    ) by {
        if i + 1 < depth {
            assert(g.adjacent(path[i] as int, path[i + 1] as int));
        }
    }
    assert forall|w: int| 0 <= w < marks.len() implies (#[trigger] marks[w] <==> (w < longer[0]
        || longer.contains(w as usize))) by {
        if w == v {
            assert(longer[depth] == v);
        } else {
            assert(marks[w] == marked[w]);
            if path.contains(w as usize) {
                let i = choose|i: int| 0 <= i < path.len() && path[i] == w;
                assert(longer[i] == w);
            }
            if longer.contains(w as usize) {
                let i = choose|i: int| 0 <= i < longer.len() && longer[i] == w;
                assert(path[i] == w);
            }
        }
    }
}

/// A path of full length that closes, with its second vertex below its last,
/// is the one canonical tour that begins with it.
proof fn lemma_closed_path_listed(
    g: &WeightedGraph,
    n: int,
    path: Seq<usize>,
    cycles: Seq<Seq<Edge>>,
)
    requires
        3 <= n,
        is_partial_tour(g, n, path),
        path.len() == n,
        g.adjacent(path[n - 1] as int, path[0] as int),
        path[1] < path[n - 1],
        cycles.len() >= 1,
        cycles[cycles.len() - 1] == tour_edges(path),
    ensures
        lists_extensions(
            g,
            n,
            cycles,
            cycles.len() - 1,
            cycles.len() as int,
            path,
            g.order() as int,
        ),
{
    reveal(lists_extensions);
    let lo = cycles.len() - 1;
    lemma_edge_tour_of_tour_edges(path);
    assert(is_simple_cycle(g, path)) by {
        assert forall|i: int| 0 <= i < path.len() implies g.adjacent(
            #[trigger] path[i] as int,
            path[next_index(i, path.len() as int)] as int,
        ) by {
            if i + 1 < path.len() {
                assert(g.adjacent(path[i] as int, path[i + 1] as int));
            }
        }
    }
    assert(is_canonical(path));
    assert(is_face(g, n, cycles[lo]));
    assert forall|other: Seq<usize>| #[trigger]
        is_canonical_cycle(g, n, other) && extends(other, path, g.order() as int) implies is_listed(
        cycles,
        lo,
        lo + 1,
        tour_edges(other),
    ) by {
        assert(other =~= path);
    }
}

/// A path of full length that does not close, or closes the wrong way round,
/// begins no canonical tour.
proof fn lemma_open_path_unlisted(
    g: &WeightedGraph,
    n: int,
    path: Seq<usize>,
    cycles: Seq<Seq<Edge>>,
)
    requires
        3 <= n,
        is_partial_tour(g, n, path),
        path.len() == n,
        !(g.adjacent(path[n - 1] as int, path[0] as int) && path[1] < path[n - 1]),
    ensures
        lists_extensions(
            g,
            n,
            cycles,
            cycles.len() as int,
            cycles.len() as int,
            path,
            g.order() as int,
        ),
{
    reveal(lists_extensions);
    let lo = cycles.len() as int;
    assert forall|other: Seq<usize>| #[trigger]
        is_canonical_cycle(g, n, other) && extends(other, path, g.order() as int) implies is_listed(
        cycles,
        lo,
        lo,
        tour_edges(other),
    ) by {
        assert(other =~= path);
        assert(g.adjacent(
            other[n - 1] as int,
            other[next_index(n - 1, other.len() as int)] as int,
        ));
    }
}

/// Vectors that grow at the end keep the cycles that they held.
proof fn lemma_view_keeps_prefix(before: Seq<Vec<Edge>>, after: Seq<Vec<Edge>>)
    requires
        before.len() <= after.len(),
        after.subrange(0, before.len() as int) == before,
    ensures
        cycles_view(after).subrange(0, before.len() as int) == cycles_view(before),
{
    assert forall|k: int| 0 <= k < before.len() implies after[k] == before[k] by {
        assert(after.subrange(0, before.len() as int)[k] == after[k]);
    }
    assert(cycles_view(after).subrange(0, before.len() as int) =~= cycles_view(before));
}

/// What was appended in two steps was appended.
proof fn lemma_prefix_of_prefix(
    first: Seq<Vec<Edge>>,
    second: Seq<Vec<Edge>>,
    third: Seq<Vec<Edge>>,
)
    requires
        first.len() <= second.len() <= third.len(),
        second.subrange(0, first.len() as int) == first,
        third.subrange(0, second.len() as int) == second,
    ensures
        third.subrange(0, first.len() as int) == first,
{
    assert forall|k: int| 0 <= k < first.len() implies third[k] == first[k] by {
        assert(third.subrange(0, second.len() as int)[k] == third[k]);
        assert(second.subrange(0, first.len() as int)[k] == second[k]);
    }
    assert(third.subrange(0, first.len() as int) =~= first);
}

/// A listing for the extensions of the empty path below the number of roots
/// is a listing of all cycles.
proof fn lemma_listing_complete(g: &WeightedGraph, n: int, cycles: Seq<Seq<Edge>>, roots: int)
    requires
        3 <= n <= g.order(),
        roots == g.order() - (n - 1),
        lists_extensions(g, n, cycles, 0, cycles.len() as int, Seq::<usize>::empty(), roots),
    ensures
        is_cycle_listing(g, n, cycles),
{
    reveal(lists_extensions);
    assert forall|tour: Seq<usize>| #[trigger]
        is_canonical_cycle(g, n, tour) implies cycles.contains(tour_edges(tour)) by {
        lemma_canonical_start_is_low(g, n, tour);
        assert(extends(tour, Seq::<usize>::empty(), roots));
        let k = choose|k: int| 0 <= k < cycles.len() && cycles[k] == tour_edges(tour);
        assert(cycles[k] == tour_edges(tour));
    }
}

/// The edges of the closed walk along `path`.
fn close_tour(path: &Vec<usize>) -> (cycle: Vec<Edge>)
    requires
        path.len() >= 1,
    ensures
        cycle@ == tour_edges(path@),
{
    let len: usize = path.len();
    let mut cycle: Vec<Edge> = Vec::new();
    let mut i: usize = 0;
    while i < len
        invariant
            len == path.len(),
            0 <= i <= len,
            cycle@.len() == i,
            forall|k: int| 0 <= k < i ==> cycle@[k] == tour_edges(path@)[k],
        decreases len - i,
    {
        let next: usize = if i + 1 == len {
            0
        } else {
            i + 1
        };
        cycle.push((path[i], path[next]));
        i += 1;
    }
    assert(cycle@ =~= tour_edges(path@));
    cycle
}

impl WeightedGraph {
    /// Appends to `out`, in increasing order, the cycles on `n` vertices whose
    /// canonical tour begins with `path`. `marked` and `path` are left as they
    /// were found.
    fn dfs(&self, n: usize, marked: &mut Vec<bool>, path: &mut Vec<usize>, out: &mut Vec<Vec<Edge>>)
        requires
            3 <= n,
            is_partial_tour(self, n as int, old(path)@),
            marks_match(self, old(marked)@, old(path)@),
        ensures
            final(marked)@ == old(marked)@,
            final(path)@ == old(path)@,
            old(out)@.len() <= final(out)@.len(),
            final(out)@.subrange(0, old(out)@.len() as int) == old(out)@,
            lists_extensions(
                self,
                n as int,
                cycles_view(final(out)@),
                old(out)@.len() as int,
                final(out)@.len() as int,
                old(path)@,
                self.order() as int,
            ),
        decreases n - old(path)@.len(),
    {
        let depth: usize = path.len();
        let u: usize = path[depth - 1];
        let start: usize = path[0];
        let ghost tour = path@;
        if depth == n {
            if self.has_edge(u, start) && path[1] < path[n - 1] {
                let cycle = close_tour(path);
                out.push(cycle);
                proof {
                    assert(cycles_view(out@)[out@.len() - 1] == tour_edges(tour));
                    lemma_closed_path_listed(self, n as int, tour, cycles_view(out@));
                    assert(out@.subrange(0, old(out)@.len() as int) =~= old(out)@);
                }
            } else {
                proof {
                    lemma_open_path_unlisted(self, n as int, tour, cycles_view(out@));
                    assert(out@.subrange(0, old(out)@.len() as int) =~= old(out)@);
                }
            }
        } else {
            let order: usize = self.num_vertices();
            let mut v: usize = 0;
            proof {
                lemma_listing_starts_empty(self, n as int, cycles_view(out@), tour);
                assert(out@.subrange(0, old(out)@.len() as int) =~= old(out)@);
            }
            while v < order
                invariant
                    3 <= n,
                    depth < n,
                    depth == tour.len(),
                    order == self.order(),
                    0 <= v <= order,
                    path@ == tour,
                    tour == old(path)@,
                    marked@ == old(marked)@,
                    u == tour[depth - 1],
                    is_partial_tour(self, n as int, tour),
                    marks_match(self, marked@, tour),
                    old(out)@.len() <= out@.len(),
                    out@.subrange(0, old(out)@.len() as int) == old(out)@,
                    lists_extensions(
                        self,
                        n as int,
                        cycles_view(out@),
                        old(out)@.len() as int,
                        out@.len() as int,
                        tour,
                        v as int,
                    ),
                decreases order - v,
            {
                let ghost before = out@;
                if self.has_edge(u, v) && !marked[v] {
                    proof {
                        assert(marked@.len() == marked.len());
                        lemma_path_grows(self, n as int, tour, marked@, v);
                    }
                    path.push(v);
                    marked.set(v, true);
                    self.dfs(n, marked, path, out);
                    marked.set(v, false);
                    path.pop();
                    proof {
                        assert(marked@ =~= old(marked)@);
                        assert(path@ =~= tour);
                        lemma_view_keeps_prefix(before, out@);
                        lemma_listing_grows(
                            self,
                            n as int,
                            cycles_view(before),
                            cycles_view(out@),
                            old(out)@.len() as int,
                            tour,
                            v,
                        );
                        lemma_prefix_of_prefix(old(out)@, before, out@);
                    }
                } else {
                    proof {
                        lemma_listing_skips(
                            self,
                            n as int,
                            cycles_view(out@),
                            old(out)@.len() as int,
                            out@.len() as int,
                            tour,
                            v,
                        );
                    }
                }
                v += 1;
            }
        }
    }

    /// The simple cycles on `n` vertices: each once, by the edges of its
    /// canonical tour, in increasing lexicographic order of the tours. There
    /// are none when `n` is less than three or exceeds the number of vertices.
    /// Where adjacency is not the same in both directions, a cycle is listed
    /// if its canonical tour walks along the edges.
    pub fn find_n_cycles(&self, n: usize) -> (cycles: Vec<Vec<Edge>>)
        ensures
            is_cycle_listing(self, n as int, cycles_view(cycles@)),
            n < 3 || self.order() < n ==> cycles@.len() == 0,
    {
        let order: usize = self.num_vertices();
        let mut out: Vec<Vec<Edge>> = Vec::new();
        if n < 3 || order < n {
            proof {
                assert forall|tour: Seq<usize>| #[trigger]
                    is_canonical_cycle(self, n as int, tour) implies cycles_view(out@).contains(
                    tour_edges(tour),
                ) by {
                    lemma_cycle_fits_graph(self, tour);
                }
            }
            return out;
        }
        let mut marked: Vec<bool> = Vec::new();
        let mut w: usize = 0;
        while w < order
            invariant
                0 <= w <= order,
                marked@.len() == w,
                forall|i: int| 0 <= i < w ==> !#[trigger] marked@[i],
            decreases order - w,
        {
            marked.push(false);
            w += 1;
        }
        let mut path: Vec<usize> = Vec::new();
        let roots: usize = order - (n - 1);
        let mut s: usize = 0;
        proof {
            lemma_listing_starts_empty(self, n as int, cycles_view(out@), path@);
        }
        while s < roots
            invariant
                3 <= n <= order,
                order == self.order(),
                roots == order - (n - 1),
                0 <= s <= roots,
                path@ == Seq::<usize>::empty(),
                marked@.len() == order,
                forall|i: int| 0 <= i < order ==> (#[trigger] marked@[i] <==> i < s),
                lists_extensions(
                    self,
                    n as int,
                    cycles_view(out@),
                    0,
                    out@.len() as int,
                    Seq::<usize>::empty(),
                    s as int,
                ),
            decreases roots - s,
        {
            let ghost before = out@;
            path.push(s);
            marked.set(s, true);
            proof {
                let root = path@;
                assert forall|i: int| 0 <= i < marked@.len() implies (#[trigger] marked@[i] <==> (i
                    < root[0] || root.contains(i as usize))) by {
                    if i == s {
                        assert(root[0] == s);
                    }
                }
            }
            self.dfs(n, &mut marked, &mut path, &mut out);
            path.pop();
            proof {
                assert(path@ =~= Seq::<usize>::empty());
                lemma_view_keeps_prefix(before, out@);
                lemma_listing_grows(
                    self,
                    n as int,
                    cycles_view(before),
                    cycles_view(out@),
                    0,
                    Seq::<usize>::empty(),
                    s,
                );
            }
            s += 1;
        }
        proof {
            lemma_listing_complete(self, n as int, cycles_view(out@), roots as int);
        }
        out
    }

    /// The number of simple cycles on `n` vertices.
    pub fn count_n_cycles(&self, n: usize) -> (count: usize)
        ensures
            exists|cycles: Seq<Seq<Edge>>|
                is_cycle_listing(self, n as int, cycles) && cycles.len() == count,
            n < 3 || self.order() < n ==> count == 0,
    {
        let cycles = self.find_n_cycles(n);
        proof {
            assert(cycles_view(cycles@).len() == cycles@.len());
        }
        cycles.len()
    }

    /// The cycles of each of the lengths in `n_cycles`, keyed by length.
    pub fn get_edges_hashmap(&self, n_cycles: Vec<usize>) -> (edges_hashmap: HashMap<
        usize,
        Vec<Vec<Edge>>,
    >)
        ensures
            forall|n: usize| edges_hashmap@.contains_key(n) <==> n_cycles@.contains(n),
            forall|n: usize| #[trigger]
                edges_hashmap@.contains_key(n) ==> is_cycle_listing(
                    self,
                    n as int,
                    cycles_view(edges_hashmap@[n]@),
                ),
    {
        broadcast use vstd::std_specs::hash::group_hash_axioms;

        let mut edges_hashmap: HashMap<usize, Vec<Vec<Edge>>> = HashMap::new();
        let mut i: usize = 0;
        while i < n_cycles.len()
            invariant
                0 <= i <= n_cycles.len(),
                forall|n: usize|
                    edges_hashmap@.contains_key(n) <==> exists|k: int|
                        0 <= k < i && n_cycles@[k] == n,
                forall|n: usize| #[trigger]
                    edges_hashmap@.contains_key(n) ==> is_cycle_listing(
                        self,
                        n as int,
                        cycles_view(edges_hashmap@[n]@),
                    ),
            decreases n_cycles.len() - i,
        {
            let n: usize = n_cycles[i];
            let cycles = self.find_n_cycles(n);
            let ghost before = edges_hashmap@;
            edges_hashmap.insert(n, cycles);
            proof {
                assert forall|m: usize| edges_hashmap@.contains_key(m) implies exists|k: int|
                    0 <= k < i + 1 && n_cycles@[k] == m by {
                    if m == n {
                        assert(n_cycles@[i as int] == m);
                    } else {
                        assert(before.contains_key(m));
                        let k = choose|k: int| 0 <= k < i && n_cycles@[k] == m;
                        assert(0 <= k < i + 1 && n_cycles@[k] == m);
                    }
                }
                assert forall|m: usize|
                    (exists|k: int|
                        0 <= k < i + 1 && n_cycles@[k] == m) implies edges_hashmap@.contains_key(
                    m,
                ) by {
                    let k = choose|k: int| 0 <= k < i + 1 && n_cycles@[k] == m;
                    if k < i {
                        assert(before.contains_key(m));
                    }
                }
            }
            i += 1;
        }
        edges_hashmap
    }
}

} // verus!
