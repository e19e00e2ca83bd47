//! Simple cycles of a graph, as mathematics.
//!
//! A cycle on `n` vertices is written as a *tour*: the sequence of its vertices
//! in the order in which a walk around the cycle meets them. One cycle has `2n`
//! tours, one for each starting vertex and direction. The *canonical* tour
//! starts at the least vertex and walks towards the smaller of its two
//! neighbours. A cycle is stored as the sequence of the edges of its canonical
//! tour.

use vstd::prelude::*;
use crate::graph::{Edge, WeightedGraph};

verus! {

/// The position that follows `i` on a closed walk over `len` positions.
pub open spec fn next_index(i: int, len: int) -> int {
    if i + 1 == len {
        0
    } else {
        i + 1
    }
}

/// `tour` visits at least three vertices, no vertex twice, and every vertex is
/// adjacent to the one that follows it, the last to the first.
pub open spec fn is_simple_cycle(g: &WeightedGraph, tour: Seq<usize>) -> bool {
    &&& tour.len() >= 3
    &&& forall|i: int, j: int| 0 <= i < j < tour.len() ==> tour[i] != tour[j]
    &&& forall|i: int|
        0 <= i < tour.len() ==> g.adjacent(
            #[trigger] tour[i] as int,
            tour[next_index(i, tour.len() as int)] as int,
        )
}

/// `tour` starts at its least vertex, and its second vertex is less than its
/// last.
pub open spec fn is_canonical(tour: Seq<usize>) -> bool {
    &&& tour.len() >= 3
    &&& forall|i: int| 0 < i < tour.len() ==> tour[0] < #[trigger] tour[i]
    &&& tour[1] < tour[tour.len() - 1]
}

/// `tour` is the canonical tour of a simple cycle on `n` vertices.
pub open spec fn is_canonical_cycle(g: &WeightedGraph, n: int, tour: Seq<usize>) -> bool {
    &&& tour.len() == n
    &&& is_simple_cycle(g, tour)
    &&& is_canonical(tour)
}

/// The edges that a walk along `tour` crosses, the closing edge last.
pub open spec fn tour_edges(tour: Seq<usize>) -> Seq<Edge> {
    Seq::new(tour.len(), |i: int| (tour[i], tour[next_index(i, tour.len() as int)]))
}

/// The vertices at which the edges of `cycle` start.
pub open spec fn edge_tour(cycle: Seq<Edge>) -> Seq<usize> {
    Seq::new(cycle.len(), |i: int| cycle[i].0)
}

/// `a` and `b` agree before position `k`, where `a` is smaller.
pub open spec fn differ_first_at(a: Seq<usize>, b: Seq<usize>, k: int) -> bool {
    &&& 0 <= k < a.len()
    &&& k < b.len()
    &&& a[k] < b[k]
    &&& forall|i: int| 0 <= i < k ==> a[i] == b[i]
}

/// `a` comes before `b` in lexicographic order.
pub open spec fn lex_less(a: Seq<usize>, b: Seq<usize>) -> bool {
    exists|k: int| differ_first_at(a, b, k)
}

/// `cycle` is the edge sequence of the canonical tour of a simple cycle on `n`
/// vertices.
pub open spec fn is_face(g: &WeightedGraph, n: int, cycle: Seq<Edge>) -> bool {
    &&& is_canonical_cycle(g, n, edge_tour(cycle))
    &&& cycle == tour_edges(edge_tour(cycle))
}

/// `cycles` holds every simple cycle on `n` vertices exactly once, each by the
/// edges of its canonical tour, in increasing lexicographic order of those
/// tours.
pub open spec fn is_cycle_listing(g: &WeightedGraph, n: int, cycles: Seq<Seq<Edge>>) -> bool {
    &&& forall|k: int| 0 <= k < cycles.len() ==> is_face(g, n, #[trigger] cycles[k])
    &&& forall|tour: Seq<usize>| #[trigger]
        is_canonical_cycle(g, n, tour) ==> cycles.contains(tour_edges(tour))
    &&& forall|j: int, k: int|
        0 <= j < k < cycles.len() ==> lex_less(
            edge_tour(#[trigger] cycles[j]),
            edge_tour(#[trigger] cycles[k]),
        )
}

/// The cycles of a vector of edge vectors.
pub open spec fn cycles_view(cycles: Seq<Vec<Edge>>) -> Seq<Seq<Edge>> {
    Seq::new(cycles.len(), |k: int| cycles[k]@)
}

/// A tour is recovered from its edges.
pub proof fn lemma_edge_tour_of_tour_edges(tour: Seq<usize>)
    ensures
        edge_tour(tour_edges(tour)) == tour,
{
    assert(edge_tour(tour_edges(tour)) =~= tour);
}

/// Distinct values from a range are no more than the range holds.
pub proof fn lemma_distinct_values_fit(values: Seq<usize>, lo: int, hi: int)
    requires
        forall|i: int, j: int| 0 <= i < j < values.len() ==> values[i] != values[j],
        forall|i: int| 0 <= i < values.len() ==> lo <= #[trigger] values[i] < hi,
    ensures
        lo <= hi ==> values.len() <= hi - lo,
        hi <= lo ==> values.len() == 0,
    decreases hi - lo,
{
    if hi <= lo {
        if values.len() > 0 {
            assert(lo <= values[0] < hi);
        }
    } else if exists|k: int| 0 <= k < values.len() && values[k] == hi - 1 {
        let k = choose|k: int| 0 <= k < values.len() && values[k] == hi - 1;
        let rest = values.remove(k);
        assert forall|i: int| 0 <= i < rest.len() implies lo <= #[trigger] rest[i] < hi - 1 by {
            if i < k {
                assert(rest[i] == values[i]);
            } else {
                assert(rest[i] == values[i + 1]);
            }
        }
        assert forall|i: int, j: int| 0 <= i < j < rest.len() implies rest[i] != rest[j] by {
            let i0 = if i < k { i } else { i + 1 };
            let j0 = if j < k { j } else { j + 1 };
            assert(rest[i] == values[i0]);
            assert(rest[j] == values[j0]);
        }
        lemma_distinct_values_fit(rest, lo, hi - 1);
    } else {
        assert forall|i: int| 0 <= i < values.len() implies lo <= #[trigger] values[i] < hi - 1 by {
            assert(lo <= values[i] < hi);
        }
        lemma_distinct_values_fit(values, lo, hi - 1);
    }
}

/// A simple cycle has no more vertices than the graph.
pub proof fn lemma_cycle_fits_graph(g: &WeightedGraph, tour: Seq<usize>)
    requires
        is_simple_cycle(g, tour),
    ensures
        tour.len() <= g.order(),
{
    assert forall|i: int| 0 <= i < tour.len() implies 0 <= #[trigger] tour[i] < g.order() by {
        assert(g.adjacent(tour[i] as int, tour[next_index(i, tour.len() as int)] as int));
    }
    lemma_distinct_values_fit(tour, 0, g.order() as int);
}

/// The canonical tour of a cycle on `n` vertices starts low enough to leave
/// room for `n - 1` larger vertices.
pub proof fn lemma_canonical_start_is_low(g: &WeightedGraph, n: int, tour: Seq<usize>)
    requires
        is_canonical_cycle(g, n, tour),
    ensures
        tour[0] + n <= g.order(),
{
    assert forall|i: int| 0 <= i < tour.len() implies tour[0] as int <= #[trigger] tour[i]
        < g.order() by {
        assert(g.adjacent(tour[i] as int, tour[next_index(i, tour.len() as int)] as int));
    }
    lemma_distinct_values_fit(tour, tour[0] as int, g.order() as int);
}

/// Lexicographic order is irreflexive.
pub proof fn lemma_lex_less_irreflexive(a: Seq<usize>)
    ensures
        !lex_less(a, a),
{
}

/// Lexicographic order is transitive.
pub proof fn lemma_lex_less_transitive(a: Seq<usize>, b: Seq<usize>, c: Seq<usize>)
    requires
        lex_less(a, b),
        lex_less(b, c),
    ensures
        lex_less(a, c),
{
    let j = choose|j: int| differ_first_at(a, b, j);
    let k = choose|k: int| differ_first_at(b, c, k);
    if j <= k {
        assert(differ_first_at(a, c, j));
    } else {
        assert(differ_first_at(a, c, k));
    }
}

/// Every member of a listing stands in every other listing for the same graph
/// and length.
proof fn lemma_listed_in_other(
    g: &WeightedGraph,
    n: int,
    a: Seq<Seq<Edge>>,
    b: Seq<Seq<Edge>>,
    k: int,
) -> (j: int)
    requires
        is_cycle_listing(g, n, a),
        is_cycle_listing(g, n, b),
        0 <= k < a.len(),
    ensures
        0 <= j < b.len(),
        b[j] == a[k],
{
    assert(is_face(g, n, a[k]));
    assert(is_canonical_cycle(g, n, edge_tour(a[k])));
    assert(b.contains(tour_edges(edge_tour(a[k]))));
    choose|j: int| 0 <= j < b.len() && b[j] == a[k]
}

/// Two listings for the same graph and length agree up to the shorter one's
/// end.
proof fn lemma_listings_agree(
    g: &WeightedGraph,
    n: int,
    a: Seq<Seq<Edge>>,
    b: Seq<Seq<Edge>>,
    k: int,
)
    requires
        is_cycle_listing(g, n, a),
        is_cycle_listing(g, n, b),
        0 <= k <= a.len(),
        forall|i: int| 0 <= i < k ==> i < b.len() && a[i] == b[i],
    ensures
        a.len() <= b.len(),
        forall|i: int| 0 <= i < a.len() ==> a[i] == b[i],
    decreases a.len() - k,
{
    if k < a.len() {
        let j = lemma_listed_in_other(g, n, a, b, k);
        if j < k {
            assert(a[j] == b[j]);
            assert(lex_less(edge_tour(a[j]), edge_tour(a[k])));
            lemma_lex_less_irreflexive(edge_tour(a[k]));
        } else if j > k {
            let i = lemma_listed_in_other(g, n, b, a, k);
            assert(lex_less(edge_tour(b[k]), edge_tour(b[j])));
            if i < k {
                assert(a[i] == b[i]);
                assert(lex_less(edge_tour(b[i]), edge_tour(b[k])));
                lemma_lex_less_irreflexive(edge_tour(b[k]));
            } else if i > k {
                assert(lex_less(edge_tour(a[k]), edge_tour(a[i])));
                lemma_lex_less_transitive(edge_tour(a[k]), edge_tour(b[k]), edge_tour(a[k]));
                lemma_lex_less_irreflexive(edge_tour(a[k]));
            } else {
                lemma_lex_less_irreflexive(edge_tour(a[k]));
            }
        }
        assert(a[k] == b[k]);
        lemma_listings_agree(g, n, a, b, k + 1);
    } else if k > 0 {
        assert(a[k - 1] == b[k - 1]);
    }
}

/// A graph has one listing of its cycles on `n` vertices: whatever meets
/// `is_cycle_listing` is the same sequence. Enumerating twice gives the same
/// cycles in the same order.
pub proof fn lemma_cycle_listing_unique(
    g: &WeightedGraph,
    n: int,
    a: Seq<Seq<Edge>>,
    b: Seq<Seq<Edge>>,
)
    requires
        is_cycle_listing(g, n, a),
        is_cycle_listing(g, n, b),
    ensures
        a == b,
{
    lemma_listings_agree(g, n, a, b, 0);
    lemma_listings_agree(g, n, b, a, 0);
    assert(a =~= b);
}

/// A graph with fewer than `n` vertices, or a length below three, has no cycle
/// on `n` vertices.
pub proof fn lemma_no_cycles_without_room(g: &WeightedGraph, n: int, cycles: Seq<Seq<Edge>>)
    requires
        is_cycle_listing(g, n, cycles),
        g.order() < n || n < 3,
    ensures
        cycles.len() == 0,
{
    if cycles.len() > 0 {
        assert(is_face(g, n, cycles[0]));
        lemma_cycle_fits_graph(g, edge_tour(cycles[0]));
    }
}

/// Position `i` of a closed walk over `len` positions, for `i` below `2 * len`.
pub open spec fn wrap(i: int, len: int) -> int {
    if i >= len {
        i - len
    } else {
        i
    }
}

/// `b` walks `a` forwards from position `k`.
pub open spec fn is_rotation(a: Seq<usize>, b: Seq<usize>, k: int) -> bool {
    &&& a.len() == b.len()
    &&& 0 <= k < a.len()
    &&& forall|i: int| 0 <= i < b.len() ==> #[trigger] b[i] == a[wrap(k + i, a.len() as int)]
}

/// `b` walks `a` backwards from position `k`.
pub open spec fn is_reflection(a: Seq<usize>, b: Seq<usize>, k: int) -> bool {
    &&& a.len() == b.len()
    &&& 0 <= k < a.len()
    &&& forall|i: int|
        0 <= i < b.len() ==> #[trigger] b[i] == a[wrap(k + a.len() - i, a.len() as int)]
}

/// `a` and `b` are tours of one cycle: the same closed walk, begun at another
/// vertex or walked the other way round.
pub open spec fn same_cycle(a: Seq<usize>, b: Seq<usize>) -> bool {
    exists|k: int| is_rotation(a, b, k) || is_reflection(a, b, k)
}

/// Every tour is a tour of its own cycle.
pub proof fn lemma_same_cycle_reflexive(a: Seq<usize>)
    requires
        a.len() >= 1,
    ensures
        same_cycle(a, a),
{
    assert(is_rotation(a, a, 0));
}

/// Being tours of one cycle does not depend on the order of the two.
pub proof fn lemma_same_cycle_symmetric(a: Seq<usize>, b: Seq<usize>)
    requires
        same_cycle(a, b),
    ensures
        same_cycle(b, a),
{
    let n = a.len() as int;
    let k = choose|k: int| is_rotation(a, b, k) || is_reflection(a, b, k);
    if is_rotation(a, b, k) {
        let back = if k == 0 {
            0
        } else {
            n - k
        };
        assert forall|i: int| 0 <= i < n implies #[trigger] a[i] == b[wrap(back + i, n)] by {
            let j = wrap(back + i, n);
            assert(b[j] == a[wrap(k + j, n)]);
        }
        assert(is_rotation(b, a, back));
    } else {
        assert forall|i: int| 0 <= i < n implies #[trigger] a[i] == b[wrap(k + n - i, n)] by {
            let j = wrap(k + n - i, n);
            assert(b[j] == a[wrap(k + n - j, n)]);
        }
        assert(is_reflection(b, a, k));
    }
}

/// Tours of one cycle with a common tour are tours of one cycle.
pub proof fn lemma_same_cycle_transitive(a: Seq<usize>, b: Seq<usize>, c: Seq<usize>)
    requires
        same_cycle(a, b),
        same_cycle(b, c),
    ensures
        same_cycle(a, c),
{
    let n = a.len() as int;
    let j = choose|j: int| is_rotation(a, b, j) || is_reflection(a, b, j);
    let k = choose|k: int| is_rotation(b, c, k) || is_reflection(b, c, k);
    if is_rotation(a, b, j) {
        let m = wrap(j + k, n);
        if is_rotation(b, c, k) {
            assert forall|i: int| 0 <= i < n implies #[trigger] c[i] == a[wrap(m + i, n)] by {
                let p = wrap(k + i, n);
                assert(c[i] == b[p]);
                assert(b[p] == a[wrap(j + p, n)]);
            }
            assert(is_rotation(a, c, m));
        } else {
            assert forall|i: int| 0 <= i < n implies #[trigger] c[i] == a[wrap(m + n - i, n)] by {
                let p = wrap(k + n - i, n);
                assert(c[i] == b[p]);
                assert(b[p] == a[wrap(j + p, n)]);
            }
            assert(is_reflection(a, c, m));
        }
    } else {
        let m = wrap(j + n - k, n);
        if is_rotation(b, c, k) {
            assert forall|i: int| 0 <= i < n implies #[trigger] c[i] == a[wrap(m + n - i, n)] by {
                let p = wrap(k + i, n);
                assert(c[i] == b[p]);
                assert(b[p] == a[wrap(j + n - p, n)]);
            }
            assert(is_reflection(a, c, m));
        } else {
            assert forall|i: int| 0 <= i < n implies #[trigger] c[i] == a[wrap(m + i, n)] by {
                let p = wrap(k + n - i, n);
                assert(c[i] == b[p]);
                assert(b[p] == a[wrap(j + n - p, n)]);
            }
            assert(is_rotation(a, c, m));
        }
    }
}

/// A tour that is walked from position `k` to give a canonical tour has its
/// least vertex at `k`, and only there.
proof fn lemma_canonical_walk_starts_at_least(a: Seq<usize>, b: Seq<usize>, k: int, p: int)
    requires
        is_rotation(a, b, k) || is_reflection(a, b, k),
        is_canonical(b),
        0 <= p < a.len(),
        p != k,
    ensures
        a[k] < a[p],
{
    let n = a.len() as int;
    assert(b[0] == a[k]);
    if is_rotation(a, b, k) {
        let i = if p > k { p - k } else { p - k + n };
        assert(b[i] == a[wrap(k + i, n)]);
        assert(b[0] < b[i]);
    } else {
        let i = if p < k { k - p } else { k - p + n };
        assert(b[i] == a[wrap(k + n - i, n)]);
        assert(b[0] < b[i]);
    }
}

/// A cycle has at most one canonical tour.
pub proof fn lemma_canonical_tour_unique(tour: Seq<usize>, a: Seq<usize>, b: Seq<usize>)
    requires
        same_cycle(tour, a),
        same_cycle(tour, b),
        is_canonical(a),
        is_canonical(b),
    ensures
        a == b,
{
    let n = tour.len() as int;
    let j = choose|j: int| is_rotation(tour, a, j) || is_reflection(tour, a, j);
    let k = choose|k: int| is_rotation(tour, b, k) || is_reflection(tour, b, k);
    if j != k {
        lemma_canonical_walk_starts_at_least(tour, a, j, k);
        lemma_canonical_walk_starts_at_least(tour, b, k, j);
    }
    assert(a[1] == tour[wrap(k + 1, n)] || a[1] == tour[wrap(k + n - 1, n)]);
    assert(a[n - 1] == tour[wrap(k + n - 1, n)] || a[n - 1] == tour[wrap(k + n - (n - 1), n)]);
    assert(b[1] == tour[wrap(k + 1, n)] || b[1] == tour[wrap(k + n - 1, n)]);
    assert(b[n - 1] == tour[wrap(k + n - 1, n)] || b[n - 1] == tour[wrap(k + n - (n - 1), n)]);
    if is_rotation(tour, a, k) && is_reflection(tour, b, k) {
        assert(false);
    }
    if is_reflection(tour, a, k) && is_rotation(tour, b, k) {
        assert(false);
    }
    assert forall|i: int| 0 <= i < n implies a[i] == b[i] by {
        if is_rotation(tour, a, k) {
            assert(a[i] == tour[wrap(k + i, n)]);
            assert(b[i] == tour[wrap(k + i, n)]);
        } else {
            assert(a[i] == tour[wrap(k + n - i, n)]);
            assert(b[i] == tour[wrap(k + n - i, n)]);
        }
    }
    assert(a =~= b);
}

/// A position of the least vertex among the first `len` of `tour`.
proof fn lemma_least_position(tour: Seq<usize>, len: int) -> (m: int)
    requires
        1 <= len <= tour.len(),
    ensures
        0 <= m < len,
        forall|i: int| 0 <= i < len ==> tour[m] <= #[trigger] tour[i],
    decreases len,
{
    if len == 1 {
        0
    } else {
        let m = lemma_least_position(tour, len - 1);
        if tour[len - 1] < tour[m] {
            len - 1
        } else {
            m
        }
    }
}

/// In an undirected graph every simple cycle has a canonical tour.
pub proof fn lemma_canonical_tour_exists(g: &WeightedGraph, tour: Seq<usize>) -> (c: Seq<usize>)
    requires
        g.is_undirected(),
        is_simple_cycle(g, tour),
    ensures
        is_canonical_cycle(g, tour.len() as int, c),
        same_cycle(tour, c),
{
    let n = tour.len() as int;
    let m = lemma_least_position(tour, n);
    let forth = Seq::new(n as nat, |i: int| tour[wrap(m + i, n)]);
    let back = Seq::new(n as nat, |i: int| tour[wrap(m + n - i, n)]);
    assert forall|i: int| 0 <= i < n && i != m implies tour[m] < #[trigger] tour[i] by {
        assert(tour[m] <= tour[i]);
        if i < m {
            assert(tour[i] != tour[m]);
        } else {
            assert(tour[m] != tour[i]);
        }
    }
    assert(is_rotation(tour, forth, m));
    assert(is_reflection(tour, back, m));
    assert(forth[1] != forth[n - 1]) by {
        let p = wrap(m + 1, n);
        let q = wrap(m + n - 1, n);
        if p < q {
            assert(tour[p] != tour[q]);
        } else {
            assert(tour[q] != tour[p]);
        }
    }
    if forth[1] < forth[n - 1] {
        assert forall|i: int, j: int| 0 <= i < j < n implies forth[i] != forth[j] by {
            let p = wrap(m + i, n);
            let q = wrap(m + j, n);
            if p < q {
                assert(tour[p] != tour[q]);
            } else {
                assert(tour[q] != tour[p]);
            }
        }
        assert forall|i: int| 0 <= i < n implies g.adjacent(
            #[trigger] forth[i] as int,
            forth[next_index(i, n)] as int,
        ) by {
            let p = wrap(m + i, n);
            assert(g.adjacent(tour[p] as int, tour[next_index(p, n)] as int));
            assert(next_index(p, n) == wrap(m + next_index(i, n), n));
        }
        assert forall|i: int| 0 < i < n implies forth[0] < #[trigger] forth[i] by {
            assert(tour[m] < tour[wrap(m + i, n)]);
        }
        forth
    } else {
        assert forall|i: int, j: int| 0 <= i < j < n implies back[i] != back[j] by {
            let p = wrap(m + n - i, n);
            let q = wrap(m + n - j, n);
            if p < q {
                assert(tour[p] != tour[q]);
            } else {
                assert(tour[q] != tour[p]);
            }
        }
        assert forall|i: int| 0 <= i < n implies g.adjacent(
            #[trigger] back[i] as int,
            back[next_index(i, n)] as int,
        ) by {
            let q = wrap(m + n - next_index(i, n), n);
            assert(g.adjacent(tour[q] as int, tour[next_index(q, n)] as int));
            assert(next_index(q, n) == wrap(m + n - i, n));
            assert(g.adjacent(tour[q] as int, tour[next_index(q, n)] as int) == g.adjacent(
                tour[next_index(q, n)] as int,
                tour[q] as int,
            ));
        }
        assert forall|i: int| 0 < i < n implies back[0] < #[trigger] back[i] by {
            assert(tour[m] < tour[wrap(m + n - i, n)]);
        }
        assert(back[1] == forth[n - 1]);
        assert(back[n - 1] == forth[1]);
        back
    }
}

/// In an undirected graph a listing holds every simple cycle on `n` vertices
/// exactly once: whichever tour of a cycle is given, one and only one member
/// of the listing is that cycle.
pub proof fn lemma_listing_holds_each_cycle_once(
    g: &WeightedGraph,
    n: int,
    cycles: Seq<Seq<Edge>>,
    tour: Seq<usize>,
) -> (k: int)
    requires
        g.is_undirected(),
        is_cycle_listing(g, n, cycles),
        is_simple_cycle(g, tour),
        tour.len() == n,
    ensures
        0 <= k < cycles.len(),
        same_cycle(tour, edge_tour(cycles[k])),
        forall|j: int|
            0 <= j < cycles.len() && same_cycle(tour, edge_tour(#[trigger] cycles[j])) ==> j == k,
{
    let c = lemma_canonical_tour_exists(g, tour);
    assert(cycles.contains(tour_edges(c)));
    let k = choose|k: int| 0 <= k < cycles.len() && cycles[k] == tour_edges(c);
    lemma_edge_tour_of_tour_edges(c);
    assert forall|j: int|
        0 <= j < cycles.len() && same_cycle(tour, edge_tour(#[trigger] cycles[j])) implies j
        == k by {
        assert(is_face(g, n, cycles[j]));
        lemma_canonical_tour_unique(tour, edge_tour(cycles[j]), c);
        if j < k {
            assert(lex_less(edge_tour(cycles[j]), edge_tour(cycles[k])));
        } else if k < j {
            assert(lex_less(edge_tour(cycles[k]), edge_tour(cycles[j])));
        }
        lemma_lex_less_irreflexive(c);
    }
    k
}

} // verus!
