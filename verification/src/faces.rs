//! The per-edge indices that are derived from the faces of a graph.
//!
//! A face is a cycle together with its weight, the sum of the weights of its
//! edges. The face weight index maps every edge to the weights of the faces
//! that it bounds; the parallel edge index maps every edge to the edges that
//! lie opposite to it in its faces. An edge is filed as its cycle crosses it:
//! `(u, v)` and `(v, u)` are two keys.

use std::collections::HashMap;
use vstd::prelude::*;
use crate::cycle::{cycles_view, edge_tour, is_cycle_listing, is_face, next_index, tour_edges};
use crate::edge_index::{
    grouped, has_entry, keyed_by, lemma_grouped_empty, lemma_grouped_push, lemma_values_of_absent,
    values_of, EdgeIndex,
};
use crate::error::GraphError;
use crate::graph::{Edge, WeightedGraph};
use crate::weight::{is_present, weight_is_present};

verus! {

/// A cycle and the sum of the weights of its edges.
#[derive(Debug, PartialEq, Eq)]
pub struct Face {
    /// The edges of the cycle, in the order in which its tour crosses them.
    pub edges: Vec<Edge>,
    /// The sum of the weights of the edges, as the caller added them up.
    pub weight: u64,
}

/// Each edge of the face, paired with the weight of the face.
pub open spec fn face_entries(face: Face) -> Seq<(Edge, u64)> {
    Seq::new(face.edges@.len(), |i: int| (face.edges@[i], face.weight))
}

/// What the first `count` faces contribute to the face weight index: face by
/// face, each edge with the weight of the face.
pub open spec fn face_weight_entries(faces: Seq<Face>, count: int) -> Seq<(Edge, u64)> {
    Seq::new(count as nat, |k: int| face_entries(faces[k])).flatten()
}

/// The two edges share no vertex.
pub open spec fn are_parallel(a: Edge, b: Edge) -> bool {
    a.0 != b.0 && a.1 != b.1 && a.0 != b.1 && a.1 != b.0
}

/// The test that an edge is parallel to `edge`.
pub open spec fn parallel_to(edge: Edge) -> spec_fn(Edge) -> bool {
    |other: Edge| are_parallel(edge, other)
}

/// The pairing of an edge with `edge` as its key.
pub open spec fn filed_under(edge: Edge) -> spec_fn(Edge) -> (Edge, Edge) {
    |other: Edge| (edge, other)
}

/// The edges among the first `count` of `cycle` that are parallel to `edge`,
/// each filed under `edge`.
pub open spec fn parallels_of(cycle: Seq<Edge>, edge: Edge, count: int) -> Seq<(Edge, Edge)> {
    cycle.subrange(0, count).filter(parallel_to(edge)).map_values(filed_under(edge))
}

/// What the first `count` edges of `cycle` contribute to the parallel edge
/// index: edge by edge, the edges of the cycle that are parallel to it.
pub open spec fn cycle_parallel_entries(cycle: Seq<Edge>, count: int) -> Seq<(Edge, Edge)> {
    Seq::new(count as nat, |i: int| parallels_of(cycle, cycle[i], cycle.len() as int)).flatten()
}

/// What the first `count` cycles contribute to the parallel edge index.
pub open spec fn parallel_entries(cycles: Seq<Seq<Edge>>, count: int) -> Seq<(Edge, Edge)> {
    Seq::new(
        count as nat,
        |k: int| cycle_parallel_entries(cycles[k], cycles[k].len() as int),
    ).flatten()
}

/// Every edge of `list` lies inside the weight matrix.
pub open spec fn in_matrix(g: &WeightedGraph, list: Seq<Edge>) -> bool {
    forall|i: int|
        0 <= i < list.len() ==> (#[trigger] list[i]).0 < g.order() && list[i].1 < g.order()
}

/// Every edge of `list` is an edge of the graph.
pub open spec fn in_graph(g: &WeightedGraph, list: Seq<Edge>) -> bool {
    forall|i: int|
        0 <= i < list.len() ==> g.adjacent((#[trigger] list[i]).0 as int, list[i].1 as int)
}

/// Every edge of every cycle lies inside the weight matrix.
pub open spec fn cycles_in_range(g: &WeightedGraph, cycles: Seq<Seq<Edge>>) -> bool {
    forall|k: int| 0 <= k < cycles.len() ==> in_matrix(g, #[trigger] cycles[k])
}

/// Every edge of every cycle is an edge of the graph.
pub open spec fn cycles_in_graph(g: &WeightedGraph, cycles: Seq<Seq<Edge>>) -> bool {
    forall|k: int| 0 <= k < cycles.len() ==> in_graph(g, #[trigger] cycles[k])
}

/// The weights of the edges of `cycle`, in order.
pub open spec fn member_weights(g: &WeightedGraph, cycle: Seq<Edge>) -> Seq<u64> {
    Seq::new(cycle.len(), |i: int| g.weight(cycle[i].0 as int, cycle[i].1 as int))
}

/// For every cycle, the weights of its edges.
pub open spec fn cycle_weights(g: &WeightedGraph, cycles: Seq<Seq<Edge>>) -> Seq<Seq<u64>> {
    Seq::new(cycles.len(), |k: int| member_weights(g, cycles[k]))
}

/// The rows of a vector of vectors.
pub open spec fn rows_view(rows: Seq<Vec<u64>>) -> Seq<Seq<u64>> {
    Seq::new(rows.len(), |k: int| rows[k]@)
}

/// The cycles that the enumeration lists are cycles of the graph, so their
/// edge weights can be looked up.
pub proof fn lemma_listed_cycles_in_graph(g: &WeightedGraph, n: int, cycles: Seq<Seq<Edge>>)
    requires
        is_cycle_listing(g, n, cycles),
    ensures
        cycles_in_graph(g, cycles),
{
    assert forall|k: int| 0 <= k < cycles.len() implies in_graph(g, #[trigger] cycles[k]) by {
        let tour = edge_tour(cycles[k]);
        assert(is_face(g, n, cycles[k]));
        assert forall|i: int| 0 <= i < cycles[k].len() implies g.adjacent(
            (#[trigger] cycles[k][i]).0 as int,
            cycles[k][i].1 as int,
        ) by {
            assert(g.adjacent(tour[i] as int, tour[next_index(i, tour.len() as int)] as int));
        }
    }
}

/// How many of the first `count` faces hold `edge`.
pub open spec fn faces_holding(faces: Seq<Face>, edge: Edge, count: int) -> nat
    decreases count,
{
    if count <= 0 {
        0
    } else {
        faces_holding(faces, edge, count - 1) + if faces[count - 1].edges@.contains(edge) {
            1nat
        } else {
            0nat
        }
    }
}

/// The edges of a face of the graph are distinct.
pub proof fn lemma_face_edges_distinct(g: &WeightedGraph, n: int, cycle: Seq<Edge>)
    requires
        is_face(g, n, cycle),
    ensures
        cycle.no_duplicates(),
{
    let tour = edge_tour(cycle);
    assert forall|i: int, j: int|
        0 <= i < cycle.len() && 0 <= j < cycle.len() && i != j implies cycle[i] != cycle[j] by {
        assert(tour[i] == cycle[i].0);
        assert(tour[j] == cycle[j].0);
        if i < j {
            assert(tour[i] != tour[j]);
        } else {
            assert(tour[j] != tour[i]);
        }
    }
}

/// Among entries with distinct keys, one at most is keyed by `edge`.
proof fn lemma_distinct_keys_one_value(entries: Seq<(Edge, u64)>, edge: Edge)
    requires
        forall|i: int, j: int|
            0 <= i < entries.len() && 0 <= j < entries.len() && i != j ==> entries[i].0
                != entries[j].0,
    ensures
        values_of(entries, edge).len() == if has_entry(entries, edge) {
            1nat
        } else {
            0nat
        },
    decreases entries.len(),
{
    if !has_entry(entries, edge) {
        lemma_values_of_absent(entries, edge);
    } else {
        let rest = entries.drop_last();
        let last = entries.last();
        assert(entries =~= rest.push(last));
        rest.lemma_filter_push(last, keyed_by(edge));
        assert forall|i: int, j: int|
            0 <= i < rest.len() && 0 <= j < rest.len() && i != j implies rest[i].0
            != rest[j].0 by {
            assert(rest[i] == entries[i]);
            assert(rest[j] == entries[j]);
        }
        assert(values_of(entries, edge).len() == entries.filter(keyed_by(edge)).len());
        assert(values_of(rest, edge).len() == rest.filter(keyed_by(edge)).len());
        if last.0 == edge {
            assert(!has_entry(rest, edge)) by {
                if has_entry(rest, edge) {
                    let i = choose|i: int| 0 <= i < rest.len() && (#[trigger] rest[i]).0 == edge;
                    assert(entries[i].0 == entries[entries.len() - 1].0);
                }
            }
            lemma_values_of_absent(rest, edge);
        } else {
            assert(has_entry(rest, edge)) by {
                let i = choose|i: int| 0 <= i < entries.len() && (#[trigger] entries[i]).0 == edge;
                assert(rest[i].0 == edge);
            }
            lemma_distinct_keys_one_value(rest, edge);
        }
    }
}

/// An edge has one face weight for every face that holds it, where no face
/// holds an edge twice.
pub proof fn lemma_one_weight_per_face(faces: Seq<Face>, edge: Edge, count: int)
    requires
        0 <= count <= faces.len(),
        forall|k: int| 0 <= k < faces.len() ==> (#[trigger] faces[k]).edges@.no_duplicates(),
    ensures
        values_of(face_weight_entries(faces, count), edge).len() == faces_holding(
            faces,
            edge,
            count,
        ),
    decreases count,
{
    if count == 0 {
        assert(face_weight_entries(faces, 0) =~= Seq::empty());
        lemma_values_of_absent(face_weight_entries(faces, 0), edge);
    } else {
        let face = faces[count - 1];
        let before = face_weight_entries(faces, count - 1);
        let added = face_entries(face);
        lemma_one_weight_per_face(faces, edge, count - 1);
        lemma_face_weight_entries_step(faces, count - 1);
        Seq::filter_distributes_over_add(before, added, keyed_by(edge));
        assert forall|i: int, j: int|
            0 <= i < added.len() && 0 <= j < added.len() && i != j implies added[i].0
            != added[j].0 by {
            assert(face.edges@[i] != face.edges@[j]);
        }
        lemma_distinct_keys_one_value(added, edge);
        assert(has_entry(added, edge) == face.edges@.contains(edge)) by {
            if has_entry(added, edge) {
                let i = choose|i: int| 0 <= i < added.len() && (#[trigger] added[i]).0 == edge;
                assert(face.edges@[i] == edge);
            }
            if face.edges@.contains(edge) {
                let i = choose|i: int| 0 <= i < face.edges@.len() && face.edges@[i] == edge;
                assert(added[i].0 == edge);
            }
        }
    }
}

/// One more part adds its members at the end of the flattened parts.
proof fn lemma_entries_step<T>(parts: Seq<Seq<T>>, count: int)
    requires
        0 <= count < parts.len(),
    ensures
        parts.subrange(0, count + 1).flatten() == parts.subrange(0, count).flatten() + parts[count],
{
    assert(parts.subrange(0, count + 1) =~= parts.subrange(0, count).push(parts[count]));
    parts.subrange(0, count).lemma_flatten_push(parts[count]);
}

/// One more face adds its entries at the end.
proof fn lemma_face_weight_entries_step(faces: Seq<Face>, count: int)
    requires
        0 <= count < faces.len(),
    ensures
        face_weight_entries(faces, count + 1) == face_weight_entries(faces, count) + face_entries(
            faces[count],
        ),
{
    let parts = Seq::new(faces.len(), |k: int| face_entries(faces[k]));
    assert(parts.subrange(0, count + 1) =~= Seq::new(
        (count + 1) as nat,
        |k: int| face_entries(faces[k]),
    ));
    assert(parts.subrange(0, count) =~= Seq::new(count as nat, |k: int| face_entries(faces[k])));
    lemma_entries_step(parts, count);
}

/// One more edge of a cycle adds its parallel edges at the end.
proof fn lemma_cycle_parallel_entries_step(cycle: Seq<Edge>, count: int)
    requires
        0 <= count < cycle.len(),
    ensures
        cycle_parallel_entries(cycle, count + 1) == cycle_parallel_entries(cycle, count)
            + parallels_of(cycle, cycle[count], cycle.len() as int),
{
    let parts = Seq::new(
        cycle.len(),
        |i: int| parallels_of(cycle, cycle[i], cycle.len() as int),
    );
    assert(parts.subrange(0, count + 1) =~= Seq::new(
        (count + 1) as nat,
        |i: int| parallels_of(cycle, cycle[i], cycle.len() as int),
    ));
    assert(parts.subrange(0, count) =~= Seq::new(
        count as nat,
        |i: int| parallels_of(cycle, cycle[i], cycle.len() as int),
    ));
    lemma_entries_step(parts, count);
}

/// One more cycle adds its entries at the end.
proof fn lemma_parallel_entries_step(cycles: Seq<Seq<Edge>>, count: int)
    requires
        0 <= count < cycles.len(),
    ensures
        parallel_entries(cycles, count + 1) == parallel_entries(cycles, count)
            + cycle_parallel_entries(cycles[count], cycles[count].len() as int),
{
    let parts = Seq::new(
        cycles.len(),
        |k: int| cycle_parallel_entries(cycles[k], cycles[k].len() as int),
    );
    assert(parts.subrange(0, count + 1) =~= Seq::new(
        (count + 1) as nat,
        |k: int| cycle_parallel_entries(cycles[k], cycles[k].len() as int),
    ));
    assert(parts.subrange(0, count) =~= Seq::new(
        count as nat,
        |k: int| cycle_parallel_entries(cycles[k], cycles[k].len() as int),
    ));
    lemma_entries_step(parts, count);
}

/// One more edge of the cycle is added where it is parallel to `edge`.
proof fn lemma_parallels_of_step(cycle: Seq<Edge>, edge: Edge, count: int)
    requires
        0 <= count < cycle.len(),
    ensures
        parallels_of(cycle, edge, count + 1) == if are_parallel(edge, cycle[count]) {
            parallels_of(cycle, edge, count).push((edge, cycle[count]))
        } else {
            parallels_of(cycle, edge, count)
        },
        parallels_of(cycle, edge, 0) == Seq::<(Edge, Edge)>::empty(),
{
    let shorter = cycle.subrange(0, count);
    assert(cycle.subrange(0, count + 1) =~= shorter.push(cycle[count]));
    shorter.lemma_filter_push(cycle[count], parallel_to(edge));
    if are_parallel(edge, cycle[count]) {
        shorter.filter(parallel_to(edge)).lemma_push_map_commute(filed_under(edge), cycle[count]);
    }
    cycle.subrange(0, 0).lemma_filter_len(parallel_to(edge));
    assert(parallels_of(cycle, edge, 0) =~= Seq::<(Edge, Edge)>::empty());
}

/// In a face, two edges are parallel exactly when they are neither the same
/// edge nor neighbours on the cycle: the opposite side of a square, the two
/// far sides of a pentagon.
pub proof fn lemma_parallel_in_face(g: &WeightedGraph, n: int, cycle: Seq<Edge>, i: int, j: int)
    requires
        is_face(g, n, cycle),
        0 <= i < n,
        0 <= j < n,
    ensures
        are_parallel(cycle[i], cycle[j]) <==> (i != j && j != next_index(i, n) && i != next_index(
            j,
            n,
        )),
{
    let tour = edge_tour(cycle);
    let after_i = next_index(i, n);
    let after_j = next_index(j, n);
    assert(cycle[i] == (tour[i], tour[after_i]));
    assert(cycle[j] == (tour[j], tour[after_j]));
    assert forall|p: int, q: int| 0 <= p < n && 0 <= q < n && p != q implies tour[p] != tour[q] by {
        if p < q {
            assert(tour[p] != tour[q]);
        } else {
            assert(tour[q] != tour[p]);
        }
    }
}

/// No two edges of a closed walk over three edges are parallel, so triangles
/// have nothing to give to the parallel edge index.
pub proof fn lemma_triangles_have_no_parallel_edges(cycles: Seq<Seq<Edge>>, count: int)
    requires
        0 <= count <= cycles.len(),
        forall|k: int|
            0 <= k < cycles.len() ==> (#[trigger] cycles[k]).len() == 3 && cycles[k] == tour_edges(
                edge_tour(cycles[k]),
            ),
    ensures
        parallel_entries(cycles, count) == Seq::<(Edge, Edge)>::empty(),
    decreases count,
{
    if count == 0 {
        assert(parallel_entries(cycles, 0) =~= Seq::<(Edge, Edge)>::empty());
    } else {
        let cycle = cycles[count - 1];
        let tour = edge_tour(cycle);
        lemma_triangles_have_no_parallel_edges(cycles, count - 1);
        lemma_parallel_entries_step(cycles, count - 1);
        assert(cycle[0] == (tour[0], tour[1]));
        assert(cycle[1] == (tour[1], tour[2]));
        assert(cycle[2] == (tour[2], tour[0]));
        assert forall|i: int| 0 <= i < 3 implies parallels_of(cycle, #[trigger] cycle[i], 3)
            == Seq::<(Edge, Edge)>::empty() by {
            let kept = cycle.subrange(0, 3).filter(parallel_to(cycle[i]));
            if kept.len() > 0 {
                cycle.subrange(0, 3).lemma_filter_pred(parallel_to(cycle[i]), 0);
                assert(kept.contains(kept[0]));
                cycle.subrange(0, 3).lemma_filter_contains_rev(parallel_to(cycle[i]), kept[0]);
                let j = choose|j: int| 0 <= j < 3 && cycle.subrange(0, 3)[j] == kept[0];
                assert(!are_parallel(cycle[i], cycle[j]));
            }
            assert(parallels_of(cycle, cycle[i], 3) =~= Seq::<(Edge, Edge)>::empty());
        }
        assert(cycle_parallel_entries(cycle, 0) =~= Seq::<(Edge, Edge)>::empty());
        lemma_cycle_parallel_entries_step(cycle, 0);
        lemma_cycle_parallel_entries_step(cycle, 1);
        lemma_cycle_parallel_entries_step(cycle, 2);
        assert(cycle_parallel_entries(cycle, 3) =~= Seq::<(Edge, Edge)>::empty());
    }
}

/// An index that groups `entries` has the values of `edge` as its list.
proof fn lemma_list_of_grouped<T>(index: EdgeIndex<T>, entries: Seq<(Edge, T)>, edge: Edge)
    requires
        index@ == grouped(entries),
    ensures
        index.list(edge) == values_of(entries, edge),
{
    if !index@.contains_key(edge) {
        lemma_values_of_absent(entries, edge);
    }
}

/// The weights of the edges of `list`, unless one lies outside the matrix.
pub(crate) fn lookup_weights(g: &WeightedGraph, list: &Vec<Edge>) -> (r: Option<Vec<u64>>)
    ensures
        match r {
            Some(weights) => in_matrix(g, list@) && weights@ == member_weights(g, list@),
            None => !in_matrix(g, list@),
        },
{
    let order: usize = g.num_vertices();
    let mut weights: Vec<u64> = Vec::new();
    let mut i: usize = 0;
    while i < list.len()
        invariant
            order == g.order(),
            0 <= i <= list.len(),
            weights@.len() == i,
            forall|j: int|
                0 <= j < i ==> (#[trigger] list@[j]).0 < order && list@[j].1 < order,
            forall|j: int|
                0 <= j < i ==> #[trigger] weights@[j] == g.weight(
                    list@[j].0 as int,
                    list@[j].1 as int,
                ),
        decreases list.len() - i,
    {
        let edge: Edge = list[i];
        if edge.0 < order && edge.1 < order {
            weights.push(g.weight_at(edge.0, edge.1));
        } else {
            return None;
        }
        i += 1;
    }
    assert(weights@ =~= member_weights(g, list@));
    Some(weights)
}

/// Whether every weight is the weight of an edge.
fn all_present(weights: &Vec<u64>) -> (r: bool)
    ensures
        r == forall|i: int| 0 <= i < weights@.len() ==> is_present(#[trigger] weights@[i]),
{
    let mut i: usize = 0;
    while i < weights.len()
        invariant
            0 <= i <= weights.len(),
            forall|j: int| 0 <= j < i ==> is_present(#[trigger] weights@[j]),
        decreases weights.len() - i,
    {
        if !weight_is_present(weights[i]) {
            return false;
        }
        i += 1;
    }
    true
}

impl WeightedGraph {
    /// For every cycle, the weights of its edges in order. The cycles must be
    /// cycles of this graph: `MissingIndexEntry` where an edge lies outside the
    /// matrix, else `DegenerateFace` where an edge has weight zero.
    pub fn get_cycle_weights(&self, cycles: &Vec<Vec<Edge>>) -> (r: Result<
        Vec<Vec<u64>>,
        GraphError,
    >)
        ensures
            !cycles_in_range(self, cycles_view(cycles@)) ==> r == Err::<Vec<Vec<u64>>, GraphError>(
                GraphError::MissingIndexEntry,
            ),
            cycles_in_range(self, cycles_view(cycles@)) && !cycles_in_graph(
                self,
                cycles_view(cycles@),
            ) ==> r == Err::<Vec<Vec<u64>>, GraphError>(GraphError::DegenerateFace),
            cycles_in_graph(self, cycles_view(cycles@)) ==> r is Ok && rows_view(r->Ok_0@)
                == cycle_weights(self, cycles_view(cycles@)),
    {
        let ghost listed = cycles_view(cycles@);
        let mut rows: Vec<Vec<u64>> = Vec::new();
        let mut k: usize = 0;
        while k < cycles.len()
            invariant
                0 <= k <= cycles.len(),
                listed == cycles_view(cycles@),
                rows@.len() == k,
                forall|j: int| 0 <= j < k ==> in_matrix(self, #[trigger] listed[j]),
                forall|j: int|
                    0 <= j < k ==> (#[trigger] rows@[j])@ == member_weights(self, listed[j]),
            decreases cycles.len() - k,
        {
            match lookup_weights(self, &cycles[k]) {
                Some(row) => {
                    rows.push(row);
                },
                None => {
                    proof {
                        assert(!in_matrix(self, listed[k as int]));
                    }
                    return Err(GraphError::MissingIndexEntry);
                },
            }
            k += 1;
        }
        let mut k: usize = 0;
        while k < rows.len()
            invariant
                0 <= k <= rows@.len(),
                listed == cycles_view(cycles@),
                rows@.len() == listed.len(),
                cycles_in_range(self, listed),
                forall|j: int|
                    0 <= j < rows@.len() ==> (#[trigger] rows@[j])@ == member_weights(
                        self,
                        listed[j],
                    ),
                forall|j: int| 0 <= j < k ==> in_graph(self, #[trigger] listed[j]),
            decreases rows.len() - k,
        {
            let present: bool = all_present(&rows[k]);
            proof {
                let cycle = listed[k as int];
                let row = rows@[k as int]@;
                assert(in_matrix(self, cycle));
                assert(present == in_graph(self, cycle)) by {
                    if present {
                        assert forall|i: int| 0 <= i < cycle.len() implies self.adjacent(
                            (#[trigger] cycle[i]).0 as int,
                            cycle[i].1 as int,
                        ) by {
                            assert(is_present(row[i]));
                        }
                    }
                    if in_graph(self, cycle) {
                        assert forall|i: int| 0 <= i < row.len() implies is_present(
                            #[trigger] row[i],
                        ) by {
                            assert(self.adjacent(cycle[i].0 as int, cycle[i].1 as int));
                        }
                    }
                }
            }
            if !present {
                return Err(GraphError::DegenerateFace);
            }
            k += 1;
        }
        proof {
            assert(rows_view(rows@) =~= cycle_weights(self, listed));
        }
        Ok(rows)
    }
}

/// The face weight index of `faces`: every edge of a face is mapped to the
/// weights of the faces that hold it, one for each place at which a face holds
/// it, in the order of the faces. An edge of no face has no entry.
pub fn face_weight_index(faces: &Vec<Face>) -> (index: EdgeIndex<u64>)
    ensures
        index@ == grouped(face_weight_entries(faces@, faces@.len() as int)),
{
    let mut index: EdgeIndex<u64> = EdgeIndex::new();
    let mut k: usize = 0;
    proof {
        lemma_grouped_empty::<u64>();
        assert(face_weight_entries(faces@, 0) =~= Seq::empty());
    }
    while k < faces.len()
        invariant
            0 <= k <= faces.len(),
            index@ == grouped(face_weight_entries(faces@, k as int)),
        decreases faces.len() - k,
    {
        let face = &faces[k];
        let ghost done = face_weight_entries(faces@, k as int);
        let ghost added = face_entries(*face);
        let mut i: usize = 0;
        proof {
            assert(done + added.subrange(0, 0) =~= done);
        }
        while i < face.edges.len()
            invariant
                0 <= i <= face.edges.len(),
                added == face_entries(*face),
                index@ == grouped(done + added.subrange(0, i as int)),
            decreases face.edges.len() - i,
        {
            let edge: Edge = face.edges[i];
            proof {
                let so_far = done + added.subrange(0, i as int);
                lemma_list_of_grouped(index, so_far, edge);
                lemma_grouped_push(so_far, edge, face.weight);
                assert(so_far.push((edge, face.weight)) =~= done + added.subrange(0, i + 1));
            }
            index.append(edge, face.weight);
            i += 1;
        }
        proof {
            assert(added.subrange(0, i as int) =~= added);
            lemma_face_weight_entries_step(faces@, k as int);
        }
        k += 1;
    }
    index
}

/// The parallel edge index of `cycles`: every edge of a cycle that has
/// parallel edges in it is mapped to them, pooled over the cycles in their
/// order. Two edges are parallel when they share no vertex.
pub fn parallel_edge_index(cycles: &Vec<Vec<Edge>>) -> (index: EdgeIndex<Edge>)
    ensures
        index@ == grouped(parallel_entries(cycles_view(cycles@), cycles@.len() as int)),
{
    let ghost listed = cycles_view(cycles@);
    let mut index: EdgeIndex<Edge> = EdgeIndex::new();
    let mut k: usize = 0;
    proof {
        lemma_grouped_empty::<Edge>();
        assert(parallel_entries(listed, 0) =~= Seq::empty());
    }
    while k < cycles.len()
        invariant
            0 <= k <= cycles.len(),
            listed == cycles_view(cycles@),
            index@ == grouped(parallel_entries(listed, k as int)),
        decreases cycles.len() - k,
    {
        let cycle = &cycles[k];
        let ghost done = parallel_entries(listed, k as int);
        let mut i: usize = 0;
        proof {
            assert(cycle_parallel_entries(cycle@, 0) =~= Seq::empty());
            assert(done + cycle_parallel_entries(cycle@, 0) =~= done);
        }
        while i < cycle.len()
            invariant
                0 <= i <= cycle.len(),
                index@ == grouped(done + cycle_parallel_entries(cycle@, i as int)),
            decreases cycle.len() - i,
        {
            let edge: Edge = cycle[i];
            let ghost before = done + cycle_parallel_entries(cycle@, i as int);
            let mut j: usize = 0;
            proof {
                lemma_parallels_of_step(cycle@, edge, 0);
                assert(before + parallels_of(cycle@, edge, 0) =~= before);
            }
            while j < cycle.len()
                invariant
                    0 <= j <= cycle.len(),
                    0 <= i < cycle.len(),
                    edge == cycle@[i as int],
                    index@ == grouped(before + parallels_of(cycle@, edge, j as int)),
                decreases cycle.len() - j,
            {
                let other: Edge = cycle[j];
                proof {
                    lemma_parallels_of_step(cycle@, edge, j as int);
                }
                if edge.0 != other.0 && edge.1 != other.1 && edge.0 != other.1 && edge.1
                    != other.0 {
                    proof {
                        let so_far = before + parallels_of(cycle@, edge, j as int);
                        lemma_list_of_grouped(index, so_far, edge);
                        lemma_grouped_push(so_far, edge, other);
                        assert(so_far.push((edge, other)) =~= before + parallels_of(
                            cycle@,
                            edge,
                            j + 1,
                        ));
                    }
                    index.append(edge, other);
                }
                j += 1;
            }
            proof {
                lemma_cycle_parallel_entries_step(cycle@, i as int);
                assert(before + parallels_of(cycle@, edge, cycle@.len() as int) =~= done
                    + cycle_parallel_entries(cycle@, i + 1));
            }
            i += 1;
        }
        proof {
            assert(listed[k as int] == cycle@);
            lemma_parallel_entries_step(listed, k as int);
        }
        k += 1;
    }
    index
}

/// The values of `stream`, each once, in the order in which they first
/// come.
pub open spec fn first_occurrences(stream: Seq<Edge>) -> Seq<Edge>
    decreases stream.len(),
{
    if stream.len() == 0 {
        Seq::empty()
    } else {
        let before = first_occurrences(stream.drop_last());
        if before.contains(stream.last()) {
            before
        } else {
            before.push(stream.last())
        }
    }
}

/// The edges of the first `count` cycles, one cycle after the other.
pub open spec fn edge_stream(cycles: Seq<Seq<Edge>>, count: int) -> Seq<Edge> {
    cycles.take(count).flatten()
}

/// One more edge is added at the end unless it has come before.
proof fn lemma_first_occurrences_step(stream: Seq<Edge>, edge: Edge)
    ensures
        first_occurrences(stream.push(edge)) == if first_occurrences(stream).contains(edge) {
            first_occurrences(stream)
        } else {
            first_occurrences(stream).push(edge)
        },
{
    assert(stream.push(edge).drop_last() =~= stream);
}

/// The edges of the cycles, each once, in the order in which the cycles first
/// hold them: the edges that have an entry in the face weight index of the
/// cycles.
pub fn get_cycle_edges(cycles: &Vec<Vec<Edge>>) -> (edges: Vec<Edge>)
    ensures
        edges@ == first_occurrences(edge_stream(cycles_view(cycles@), cycles@.len() as int)),
{
    let ghost listed = cycles_view(cycles@);
    let mut seen: EdgeIndex<bool> = EdgeIndex::new();
    let mut edges: Vec<Edge> = Vec::new();
    let mut k: usize = 0;
    proof {
        assert(listed.take(0) =~= Seq::<Seq<Edge>>::empty());
        assert(edge_stream(listed, 0) =~= Seq::<Edge>::empty());
    }
    while k < cycles.len()
        invariant
            0 <= k <= cycles.len(),
            listed == cycles_view(cycles@),
            edges@ == first_occurrences(edge_stream(listed, k as int)),
            forall|e: Edge| seen@.contains_key(e) <==> edges@.contains(e),
        decreases cycles.len() - k,
    {
        let cycle = &cycles[k];
        let ghost done = edge_stream(listed, k as int);
        let mut i: usize = 0;
        proof {
            assert(done + cycle@.take(0) =~= done);
        }
        while i < cycle.len()
            invariant
                0 <= i <= cycle.len(),
                edges@ == first_occurrences(done + cycle@.take(i as int)),
                forall|e: Edge| seen@.contains_key(e) <==> edges@.contains(e),
            decreases cycle.len() - i,
        {
            let edge: Edge = cycle[i];
            let ghost before = edges@;
            proof {
                lemma_first_occurrences_step(done + cycle@.take(i as int), edge);
                assert((done + cycle@.take(i as int)).push(edge) =~= done + cycle@.take(i + 1));
            }
            if !seen.contains_edge(edge) {
                seen.append(edge, true);
                edges.push(edge);
                proof {
                    assert(edges@[before.len() as int] == edge);
                    assert forall|e: Edge| seen@.contains_key(e) <==> edges@.contains(e) by {
                        if before.contains(e) {
                            let j = choose|j: int| 0 <= j < before.len() && before[j] == e;
                            assert(edges@[j] == e);
                        }
                        if edges@.contains(e) && e != edge {
                            let j = choose|j: int| 0 <= j < edges@.len() && edges@[j] == e;
                            assert(before[j] == e);
                        }
                    }
                }
            }
            i += 1;
        }
        proof {
            assert(cycle@.take(i as int) =~= cycle@);
            assert(listed.take(k + 1) =~= listed.take(k as int).push(cycle@));
            listed.take(k as int).lemma_flatten_push(cycle@);
        }
        k += 1;
    }
    edges
}

impl WeightedGraph {
    /// The parallel edge index of the cycles of each length but three: a triangle
    /// has no two edges without a common vertex, so length three has no index.
    pub fn get_parallel_edges(edges_hashmap: &HashMap<usize, Vec<Vec<Edge>>>) -> (by_length:
        HashMap<usize, EdgeIndex<Edge>>)
        ensures
            forall|n: usize|
                by_length@.contains_key(n) <==> n != 3 && edges_hashmap@.contains_key(n),
            forall|n: usize| #[trigger]
                by_length@.contains_key(n) ==> by_length@[n]@ == grouped(
                    parallel_entries(
                        cycles_view(edges_hashmap@[n]@),
                        edges_hashmap@[n]@.len() as int,
                    ),
                ),
    {
        broadcast use vstd::std_specs::hash::group_hash_axioms;

        let mut by_length: HashMap<usize, EdgeIndex<Edge>> = HashMap::new();
        for key in it: edges_hashmap.keys()
            invariant
                it.seq().unref().to_set() == edges_hashmap@.dom(),
                forall|n: usize|
                    by_length@.contains_key(n) <==> n != 3 && exists|j: int|
                        0 <= j < it.index() && *it.seq()[j] == n,
                it.index() == it.seq().len() ==> forall|n: usize|
                    by_length@.contains_key(n) <==> n != 3 && edges_hashmap@.contains_key(n),
                forall|n: usize| #[trigger]
                    by_length@.contains_key(n) ==> by_length@[n]@ == grouped(
                        parallel_entries(
                            cycles_view(edges_hashmap@[n]@),
                            edges_hashmap@[n]@.len() as int,
                        ),
                    ),
        {
            let n: usize = *key;
            let ghost before = by_length@;
            proof {
                assert(it.seq().unref()[it.index()] == n);
                assert(it.seq().unref().to_set().contains(n));
            }
            if n != 3 {
                match edges_hashmap.get(&n) {
                    Some(cycles) => {
                        let index = parallel_edge_index(cycles);
                        by_length.insert(n, index);
                    },
                    None => {},
                }
            }
            proof {
                assert forall|m: usize| by_length@.contains_key(m) implies m != 3 && exists|j: int|
                    0 <= j < it.index() + 1 && *it.seq()[j] == m by {
                    if m == n {
                        assert(*it.seq()[it.index()] == m);
                    } else {
                        assert(before.contains_key(m));
                        let j = choose|j: int| 0 <= j < it.index() && *it.seq()[j] == m;
                        assert(0 <= j < it.index() + 1 && *it.seq()[j] == m);
                    }
                }
                assert forall|m: usize|
                    m != 3 && (exists|j: int| 0 <= j < it.index() + 1 && *it.seq()[j] == m)
                    implies by_length@.contains_key(m) by {
                    let j = choose|j: int| 0 <= j < it.index() + 1 && *it.seq()[j] == m;
                    if j < it.index() {
                        assert(before.contains_key(m));
                    }
                }
                assert forall|m: usize| it.index() + 1 == it.seq().len() implies (
                by_length@.contains_key(m) <==> m != 3 && edges_hashmap@.contains_key(m)) by {
                    if by_length@.contains_key(m) {
                        let j = choose|j: int| 0 <= j < it.seq().len() && *it.seq()[j] == m;
                        assert(it.seq().unref()[j] == m);
                        assert(it.seq().unref().to_set().contains(m));
                    }
                    if m != 3 && edges_hashmap@.contains_key(m) {
                        assert(it.seq().unref().to_set().contains(m));
                        let j = choose|j: int|
                            0 <= j < it.seq().unref().len() && it.seq().unref()[j] == m;
                        assert(*it.seq()[j] == m);
                    }
                }
            }
        }
        by_length
    }

    /// The face weight index of the faces of each length.
    pub fn get_face_weights(faces: &HashMap<usize, Vec<Face>>) -> (by_length: HashMap<
        usize,
        EdgeIndex<u64>,
    >)
        ensures
            forall|n: usize| by_length@.contains_key(n) <==> faces@.contains_key(n),
            forall|n: usize| #[trigger]
                by_length@.contains_key(n) ==> by_length@[n]@ == grouped(
                    face_weight_entries(faces@[n]@, faces@[n]@.len() as int),
                ),
    {
        broadcast use vstd::std_specs::hash::group_hash_axioms;

        let mut by_length: HashMap<usize, EdgeIndex<u64>> = HashMap::new();
        for key in it: faces.keys()
            invariant
                it.seq().unref().to_set() == faces@.dom(),
                forall|n: usize|
                    by_length@.contains_key(n) <==> exists|j: int|
                        0 <= j < it.index() && *it.seq()[j] == n,
                it.index() == it.seq().len() ==> forall|n: usize|
                    by_length@.contains_key(n) <==> faces@.contains_key(n),
                forall|n: usize| #[trigger]
                    by_length@.contains_key(n) ==> by_length@[n]@ == grouped(
                        face_weight_entries(faces@[n]@, faces@[n]@.len() as int),
                    ),
        {
            let n: usize = *key;
            let ghost before = by_length@;
            proof {
                assert(it.seq().unref()[it.index()] == n);
                assert(it.seq().unref().to_set().contains(n));
            }
            match faces.get(&n) {
                Some(list) => {
                    let index = face_weight_index(list);
                    by_length.insert(n, index);
                },
                None => {},
            }
            proof {
                assert forall|m: usize| by_length@.contains_key(m) implies exists|j: int|
                    0 <= j < it.index() + 1 && *it.seq()[j] == m by {
                    if m == n {
                        assert(*it.seq()[it.index()] == m);
                    } else {
                        assert(before.contains_key(m));
                        let j = choose|j: int| 0 <= j < it.index() && *it.seq()[j] == m;
                        assert(0 <= j < it.index() + 1 && *it.seq()[j] == m);
                    }
                }
                assert forall|m: usize|
                    (exists|j: int| 0 <= j < it.index() + 1 && *it.seq()[j] == m)
                    implies by_length@.contains_key(m) by {
                    let j = choose|j: int| 0 <= j < it.index() + 1 && *it.seq()[j] == m;
                    if j < it.index() {
                        assert(before.contains_key(m));
                    }
                }
                assert forall|m: usize| it.index() + 1 == it.seq().len() implies (
                by_length@.contains_key(m) <==> faces@.contains_key(m)) by {
                    if by_length@.contains_key(m) {
                        let j = choose|j: int| 0 <= j < it.seq().len() && *it.seq()[j] == m;
                        assert(it.seq().unref()[j] == m);
                        assert(it.seq().unref().to_set().contains(m));
                    }
                    if faces@.contains_key(m) {
                        assert(it.seq().unref().to_set().contains(m));
                        let j = choose|j: int|
                            0 <= j < it.seq().unref().len() && it.seq().unref()[j] == m;
                        assert(*it.seq()[j] == m);
                    }
                }
            }
        }
        by_length
    }
}

} // verus!
