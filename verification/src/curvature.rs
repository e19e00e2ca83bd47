//! The terms of the curvature of an edge.
//!
//! The curvature of an edge `e` with weight `w` is `|w| * (a + b - c)`, where,
//! over the cycle lengths 3, 4 and 5 for which `e` bounds a face,
//!
//! * `a` sums `|w / F|` over the weights `F` of the faces that `e` bounds,
//! * `c` sums `sqrt(|w * p|) / |F|` over those faces and the weights `p` of
//!   the edges parallel to `e` (none for length 3),
//! * `b` sums, once for each such length and each endpoint of `e`, the mean
//!   magnitude of the weights of the edges incident to the endpoint, divided
//!   by `|w|`.
//!
//! This module decides which terms there are and hands out their operands in
//! the order in which they are summed. The sums are floating-point arithmetic
//! and are left to the caller.

use std::collections::HashMap;
use vstd::prelude::*;
use crate::adjacency::{has_incident_edge, is_incident_list, lemma_incident_edges_unique};
use crate::cycle::{is_cycle_listing, lemma_cycle_listing_unique, lemma_no_cycles_without_room};
use crate::edge_index::{grouped, EdgeIndex};
use crate::error::GraphError;
use crate::faces::{
    face_entries, face_weight_entries, in_matrix, lookup_weights, member_weights,
    parallel_entries, rows_view, Face,
};
use crate::graph::{Edge, WeightedGraph};
use crate::weight::{is_zero, weight_is_zero};

verus! {

/// The operands of the curvature of one edge.
#[derive(Debug, PartialEq, Eq)]
pub struct EdgeTerms {
    /// The edge.
    pub edge: Edge,
    /// Its weight `w`.
    pub weight: u64,
    /// For each term of `a`, the face weight `F`.
    pub face_weights: Vec<u64>,
    /// For each term of `c`, the weight `p` of the parallel edge and the face
    /// weight `F`.
    pub parallel_weights: Vec<(u64, u64)>,
    /// For each term of `b`, the weights of the edges incident to the
    /// endpoint. The mean of an empty list counts as zero.
    pub endpoint_weights: Vec<Vec<u64>>,
}

/// `edge` bounds a face of `n` edges.
pub open spec fn bounds_face(fw: Map<usize, EdgeIndex<u64>>, n: usize, edge: Edge) -> bool {
    fw.contains_key(n) && fw[n]@.contains_key(edge)
}

/// The weights of the faces of `n` edges that `edge` bounds.
pub open spec fn faces_at(fw: Map<usize, EdgeIndex<u64>>, n: usize, edge: Edge) -> Seq<u64> {
    if bounds_face(fw, n, edge) {
        fw[n]@[edge]
    } else {
        Seq::empty()
    }
}

/// The edges parallel to `edge` in its faces of `n` edges. Triangles have no
/// parallel edges.
pub open spec fn parallels_at(par: Map<usize, EdgeIndex<Edge>>, n: usize, edge: Edge) -> Seq<Edge> {
    if n != 3 && par.contains_key(n) && par[n]@.contains_key(edge) {
        par[n]@[edge]
    } else {
        Seq::empty()
    }
}

/// The edges incident to `v`.
pub open spec fn incident_at(inc: Map<usize, Vec<Edge>>, v: usize) -> Seq<Edge> {
    if inc.contains_key(v) {
        inc[v]@
    } else {
        Seq::empty()
    }
}

/// Each of `others` paired with one face weight.
pub open spec fn products_with(others: Seq<u64>, face: u64) -> Seq<(u64, u64)> {
    Seq::new(others.len(), |j: int| (others[j], face))
}

/// For each of the first `count` face weights in turn, each of `others` paired
/// with it.
pub open spec fn products(faces: Seq<u64>, others: Seq<u64>, count: int) -> Seq<(u64, u64)> {
    Seq::new(count as nat, |k: int| products_with(others, faces[k])).flatten()
}

/// The terms of `c` that the faces of `n` edges contribute.
pub open spec fn parallel_terms(
    g: &WeightedGraph,
    fw: Map<usize, EdgeIndex<u64>>,
    par: Map<usize, EdgeIndex<Edge>>,
    n: usize,
    edge: Edge,
) -> Seq<(u64, u64)> {
    products(
        faces_at(fw, n, edge),
        member_weights(g, parallels_at(par, n, edge)),
        faces_at(fw, n, edge).len() as int,
    )
}

/// The terms of `b` that the faces of `n` edges contribute: one for each
/// endpoint where `edge` bounds such a face, none where it does not.
pub open spec fn endpoint_terms(
    g: &WeightedGraph,
    fw: Map<usize, EdgeIndex<u64>>,
    inc: Map<usize, Vec<Edge>>,
    n: usize,
    edge: Edge,
) -> Seq<Seq<u64>> {
    if bounds_face(fw, n, edge) {
        seq![
            member_weights(g, incident_at(inc, edge.0)),
            member_weights(g, incident_at(inc, edge.1)),
        ]
    } else {
        Seq::empty()
    }
}

/// The edges that the terms for length `n` look up lie inside the matrix.
pub open spec fn references_in_matrix(
    g: &WeightedGraph,
    fw: Map<usize, EdgeIndex<u64>>,
    inc: Map<usize, Vec<Edge>>,
    par: Map<usize, EdgeIndex<Edge>>,
    n: usize,
    edge: Edge,
) -> bool {
    bounds_face(fw, n, edge) ==> in_matrix(g, parallels_at(par, n, edge)) && in_matrix(
        g,
        incident_at(inc, edge.0),
    ) && in_matrix(g, incident_at(inc, edge.1))
}

/// The face weights of the terms of `a`, lengths 3, 4, 5 in turn.
pub open spec fn all_face_weights(fw: Map<usize, EdgeIndex<u64>>, edge: Edge) -> Seq<u64> {
    faces_at(fw, 3, edge) + faces_at(fw, 4, edge) + faces_at(fw, 5, edge)
}

/// The operands of the terms of `c`, lengths 3, 4, 5 in turn.
pub open spec fn all_parallel_terms(
    g: &WeightedGraph,
    fw: Map<usize, EdgeIndex<u64>>,
    par: Map<usize, EdgeIndex<Edge>>,
    edge: Edge,
) -> Seq<(u64, u64)> {
    parallel_terms(g, fw, par, 3, edge) + parallel_terms(g, fw, par, 4, edge) + parallel_terms(
        g,
        fw,
        par,
        5,
        edge,
    )
}

/// The operands of the terms of `b`, lengths 3, 4, 5 in turn.
pub open spec fn all_endpoint_terms(
    g: &WeightedGraph,
    fw: Map<usize, EdgeIndex<u64>>,
    inc: Map<usize, Vec<Edge>>,
    edge: Edge,
) -> Seq<Seq<u64>> {
    endpoint_terms(g, fw, inc, 3, edge) + endpoint_terms(g, fw, inc, 4, edge) + endpoint_terms(
        g,
        fw,
        inc,
        5,
        edge,
    )
}

/// Some weight of `weights` is zero.
pub open spec fn has_zero(weights: Seq<u64>) -> bool {
    exists|i: int| 0 <= i < weights.len() && is_zero(#[trigger] weights[i])
}

/// Why the curvature of `edge` is undefined, if it is: `MissingIndexEntry`
/// where `edge` is no edge of the graph or a term refers to a pair of vertices
/// outside the matrix; else `DegenerateFace` where a face that `edge` bounds
/// has weight zero.
pub open spec fn edge_fault(
    g: &WeightedGraph,
    fw: Map<usize, EdgeIndex<u64>>,
    inc: Map<usize, Vec<Edge>>,
    par: Map<usize, EdgeIndex<Edge>>,
    edge: Edge,
) -> Option<GraphError> {
    if !g.adjacent(edge.0 as int, edge.1 as int) || !references_in_matrix(g, fw, inc, par, 3, edge)
        || !references_in_matrix(g, fw, inc, par, 4, edge) || !references_in_matrix(
        g,
        fw,
        inc,
        par,
        5,
        edge,
    ) {
        Some(GraphError::MissingIndexEntry)
    } else if has_zero(all_face_weights(fw, edge)) {
        Some(GraphError::DegenerateFace)
    } else {
        None
    }
}

/// `terms` holds the operands of the curvature of `edge`.
pub open spec fn is_terms_of(
    terms: EdgeTerms,
    g: &WeightedGraph,
    fw: Map<usize, EdgeIndex<u64>>,
    inc: Map<usize, Vec<Edge>>,
    par: Map<usize, EdgeIndex<Edge>>,
    edge: Edge,
) -> bool {
    &&& terms.edge == edge
    &&& terms.weight == g.weight(edge.0 as int, edge.1 as int)
    &&& terms.face_weights@ == all_face_weights(fw, edge)
    &&& terms.parallel_weights@ == all_parallel_terms(g, fw, par, edge)
    &&& rows_view(terms.endpoint_weights@) == all_endpoint_terms(g, fw, inc, edge)
}

/// One more face weight adds its products at the end.
proof fn lemma_products_step(faces: Seq<u64>, others: Seq<u64>, count: int)
    requires
        0 <= count < faces.len(),
    ensures
        products(faces, others, count + 1) == products(faces, others, count) + products_with(
            others,
            faces[count],
        ),
        products(faces, others, 0) == Seq::<(u64, u64)>::empty(),
{
    let shorter = Seq::new(count as nat, |k: int| products_with(others, faces[k]));
    let longer = Seq::new((count + 1) as nat, |k: int| products_with(others, faces[k]));
    assert(longer =~= shorter.push(products_with(others, faces[count])));
    shorter.lemma_flatten_push(products_with(others, faces[count]));
    assert(products(faces, others, 0) =~= Seq::<(u64, u64)>::empty());
}

/// Appends to `out`, for each face weight in turn, each of `others` paired
/// with it.
fn push_products(faces: &Vec<u64>, others: &Vec<u64>, out: &mut Vec<(u64, u64)>)
    ensures
        final(out)@ == old(out)@ + products(faces@, others@, faces@.len() as int),
{
    let mut k: usize = 0;
    proof {
        assert(products(faces@, others@, 0) =~= Seq::<(u64, u64)>::empty());
        assert(out@ =~= old(out)@ + products(faces@, others@, 0));
    }
    while k < faces.len()
        invariant
            0 <= k <= faces.len(),
            out@ == old(out)@ + products(faces@, others@, k as int),
        decreases faces.len() - k,
    {
        let face: u64 = faces[k];
        let ghost before = out@;
        let mut j: usize = 0;
        proof {
            assert(out@ =~= before + products_with(others@, face).subrange(0, 0));
        }
        while j < others.len()
            invariant
                0 <= j <= others.len(),
                out@ == before + products_with(others@, face).subrange(0, j as int),
            decreases others.len() - j,
        {
            out.push((others[j], face));
            proof {
                assert(out@ =~= before + products_with(others@, face).subrange(0, j + 1));
            }
            j += 1;
        }
        proof {
            lemma_products_step(faces@, others@, k as int);
            assert(products_with(others@, face).subrange(0, j as int) =~= products_with(
                others@,
                face,
            ));
            assert(out@ =~= old(out)@ + products(faces@, others@, k + 1));
        }
        k += 1;
    }
}

/// Whether some weight of `weights` is zero.
fn any_zero(weights: &Vec<u64>) -> (found: bool)
    ensures
        found == has_zero(weights@),
{
    let mut i: usize = 0;
    while i < weights.len()
        invariant
            0 <= i <= weights.len(),
            forall|j: int| 0 <= j < i ==> !is_zero(#[trigger] weights@[j]),
        decreases weights.len() - i,
    {
        if weight_is_zero(weights[i]) {
            return true;
        }
        i += 1;
    }
    false
}

/// The edges incident to `v`, weighed; `None` where one lies outside the
/// matrix.
fn endpoint_weights(
    g: &WeightedGraph,
    incident_edges: &HashMap<usize, Vec<Edge>>,
    v: usize,
) -> (r: Option<Vec<u64>>)
    ensures
        match r {
            Some(weights) => in_matrix(g, incident_at(incident_edges@, v)) && weights@
                == member_weights(g, incident_at(incident_edges@, v)),
            None => !in_matrix(g, incident_at(incident_edges@, v)),
        },
{
    broadcast use vstd::std_specs::hash::group_hash_axioms;

    match incident_edges.get(&v) {
        Some(list) => lookup_weights(g, list),
        None => {
            let weights: Vec<u64> = Vec::new();
            assert(weights@ =~= member_weights(g, incident_at(incident_edges@, v)));
            Some(weights)
        },
    }
}

/// The edges parallel to `edge` in its faces of `n` edges, weighed; `None`
/// where one lies outside the matrix.
fn parallel_weights(
    g: &WeightedGraph,
    parallel_edges: &HashMap<usize, EdgeIndex<Edge>>,
    n: usize,
    edge: Edge,
) -> (r: Option<Vec<u64>>)
    ensures
        match r {
            Some(weights) => in_matrix(g, parallels_at(parallel_edges@, n, edge)) && weights@
                == member_weights(g, parallels_at(parallel_edges@, n, edge)),
            None => !in_matrix(g, parallels_at(parallel_edges@, n, edge)),
        },
{
    broadcast use vstd::std_specs::hash::group_hash_axioms;

    if n != 3 {
        match parallel_edges.get(&n) {
            Some(index) => {
                match index.get(edge) {
                    Some(list) => {
                        return lookup_weights(g, list);
                    },
                    None => {},
                }
            },
            None => {},
        }
    }
    let weights: Vec<u64> = Vec::new();
    assert(weights@ =~= member_weights(g, parallels_at(parallel_edges@, n, edge)));
    Some(weights)
}

/// Appends to `terms` what the faces of `n` edges contribute to the curvature
/// of its edge. Returns whether every edge that was looked up lies inside the
/// matrix; where one does not, `terms` is left in no particular state.
fn push_length_terms(
    g: &WeightedGraph,
    face_weights: &HashMap<usize, EdgeIndex<u64>>,
    incident_edges: &HashMap<usize, Vec<Edge>>,
    parallel_edges: &HashMap<usize, EdgeIndex<Edge>>,
    n: usize,
    terms: &mut EdgeTerms,
) -> (complete: bool)
    ensures
        final(terms).edge == old(terms).edge,
        final(terms).weight == old(terms).weight,
        complete == references_in_matrix(
            g,
            face_weights@,
            incident_edges@,
            parallel_edges@,
            n,
            old(terms).edge,
        ),
        complete ==> final(terms).face_weights@ == old(terms).face_weights@ + faces_at(
            face_weights@,
            n,
            old(terms).edge,
        ),
        complete ==> final(terms).parallel_weights@ == old(terms).parallel_weights@
            + parallel_terms(g, face_weights@, parallel_edges@, n, old(terms).edge),
        complete ==> rows_view(final(terms).endpoint_weights@) == rows_view(
            old(terms).endpoint_weights@,
        ) + endpoint_terms(g, face_weights@, incident_edges@, n, old(terms).edge),
{
    broadcast use vstd::std_specs::hash::group_hash_axioms;

    let edge: Edge = terms.edge;
    let ghost fw = face_weights@;
    let found: Option<&Vec<u64>> = match face_weights.get(&n) {
        Some(index) => index.get(edge),
        None => None,
    };
    let faces: &Vec<u64> = match found {
        Some(faces) => faces,
        None => {
            proof {
                lemma_length_without_face(g, fw, incident_edges@, parallel_edges@, n, edge);
                assert(terms.face_weights@ + Seq::<u64>::empty() =~= terms.face_weights@);
                assert(terms.parallel_weights@ + Seq::<(u64, u64)>::empty()
                    =~= terms.parallel_weights@);
                assert(rows_view(terms.endpoint_weights@) + Seq::<Seq<u64>>::empty() =~= rows_view(
                    terms.endpoint_weights@,
                ));
            }
            return true;
        },
    };
    assert(bounds_face(fw, n, edge));
    assert(faces@ == faces_at(fw, n, edge));
    let others: Vec<u64> = match parallel_weights(g, parallel_edges, n, edge) {
        Some(others) => others,
        None => {
            return false;
        },
    };
    let first: Vec<u64> = match endpoint_weights(g, incident_edges, edge.0) {
        Some(first) => first,
        None => {
            return false;
        },
    };
    let second: Vec<u64> = match endpoint_weights(g, incident_edges, edge.1) {
        Some(second) => second,
        None => {
            return false;
        },
    };
    let ghost rows_before = rows_view(terms.endpoint_weights@);
    let mut i: usize = 0;
    while i < faces.len()
        invariant
            0 <= i <= faces.len(),
            terms.edge == old(terms).edge,
            terms.weight == old(terms).weight,
            terms.parallel_weights == old(terms).parallel_weights,
            terms.endpoint_weights == old(terms).endpoint_weights,
            terms.face_weights@ == old(terms).face_weights@ + faces@.subrange(0, i as int),
        decreases faces.len() - i,
    {
        terms.face_weights.push(faces[i]);
        proof {
            assert(terms.face_weights@ =~= old(terms).face_weights@ + faces@.subrange(0, i + 1));
        }
        i += 1;
    }
    proof {
        assert(faces@.subrange(0, i as int) =~= faces@);
    }
    push_products(faces, &others, &mut terms.parallel_weights);
    terms.endpoint_weights.push(first);
    terms.endpoint_weights.push(second);
    proof {
        assert(rows_view(terms.endpoint_weights@) =~= rows_before + endpoint_terms(
            g,
            fw,
            incident_edges@,
            n,
            edge,
        ));
    }
    true
}

/// No face weights, no products.
proof fn lemma_no_products(others: Seq<u64>)
    ensures
        products(Seq::<u64>::empty(), others, 0) == Seq::<(u64, u64)>::empty(),
{
    assert(products(Seq::<u64>::empty(), others, 0) =~= Seq::<(u64, u64)>::empty());
}

/// A length of which `edge` bounds no face contributes no term.
proof fn lemma_length_without_face(
    g: &WeightedGraph,
    fw: Map<usize, EdgeIndex<u64>>,
    inc: Map<usize, Vec<Edge>>,
    par: Map<usize, EdgeIndex<Edge>>,
    n: usize,
    edge: Edge,
)
    requires
        !bounds_face(fw, n, edge),
    ensures
        faces_at(fw, n, edge) == Seq::<u64>::empty(),
        parallel_terms(g, fw, par, n, edge) == Seq::<(u64, u64)>::empty(),
        endpoint_terms(g, fw, inc, n, edge) == Seq::<Seq<u64>>::empty(),
        references_in_matrix(g, fw, inc, par, n, edge),
{
    lemma_no_products(member_weights(g, parallels_at(par, n, edge)));
}

/// The operands of the curvature of `edge`, or the reason why it is
/// undefined.
pub fn edge_terms(
    g: &WeightedGraph,
    edge: Edge,
    face_weights: &HashMap<usize, EdgeIndex<u64>>,
    incident_edges: &HashMap<usize, Vec<Edge>>,
    parallel_edges: &HashMap<usize, EdgeIndex<Edge>>,
) -> (r: Result<EdgeTerms, GraphError>)
    ensures
        match r {
            Ok(terms) => edge_fault(g, face_weights@, incident_edges@, parallel_edges@, edge)
                is None && is_terms_of(
                terms,
                g,
                face_weights@,
                incident_edges@,
                parallel_edges@,
                edge,
            ),
            Err(fault) => edge_fault(g, face_weights@, incident_edges@, parallel_edges@, edge)
                == Some(fault),
        },
{
    if !g.has_edge(edge.0, edge.1) {
        return Err(GraphError::MissingIndexEntry);
    }
    let mut terms = EdgeTerms {
        edge,
        weight: g.weight_at(edge.0, edge.1),
        face_weights: Vec::new(),
        parallel_weights: Vec::new(),
        endpoint_weights: Vec::new(),
    };
    let ghost fw = face_weights@;
    let ghost inc = incident_edges@;
    let ghost par = parallel_edges@;
    if !push_length_terms(g, face_weights, incident_edges, parallel_edges, 3, &mut terms) {
        return Err(GraphError::MissingIndexEntry);
    }
    if !push_length_terms(g, face_weights, incident_edges, parallel_edges, 4, &mut terms) {
        return Err(GraphError::MissingIndexEntry);
    }
    if !push_length_terms(g, face_weights, incident_edges, parallel_edges, 5, &mut terms) {
        return Err(GraphError::MissingIndexEntry);
    }
    proof {
        assert(terms.face_weights@ =~= all_face_weights(fw, edge));
        assert(terms.parallel_weights@ =~= all_parallel_terms(g, fw, par, edge));
        assert(rows_view(terms.endpoint_weights@) =~= all_endpoint_terms(g, fw, inc, edge));
    }
    if any_zero(&terms.face_weights) {
        return Err(GraphError::DegenerateFace);
    }
    Ok(terms)
}

/// The operands of the curvature of each of `edges`, in their order: the edge
/// and its weight, the face weights `F` of the terms of `a`, the pairs of
/// parallel edge weight and face weight of the terms of `c`, and the incident
/// weights of the terms of `b`. Fails with the fault of the first edge whose
/// curvature is undefined.
pub fn curvature_terms(
    g: &WeightedGraph,
    edges: &Vec<Edge>,
    face_weights: &HashMap<usize, EdgeIndex<u64>>,
    incident_edges: &HashMap<usize, Vec<Edge>>,
    parallel_edges: &HashMap<usize, EdgeIndex<Edge>>,
) -> (r: Result<Vec<EdgeTerms>, GraphError>)
    ensures
        match r {
            Ok(terms) => {
                &&& terms@.len() == edges@.len()
                &&& forall|i: int|
                    0 <= i < edges@.len() ==> edge_fault(
                        g,
                        face_weights@,
                        incident_edges@,
                        parallel_edges@,
                        #[trigger] edges@[i],
                    ) is None
                &&& forall|i: int|
                    0 <= i < edges@.len() ==> is_terms_of(
                        #[trigger] terms@[i],
                        g,
                        face_weights@,
                        incident_edges@,
                        parallel_edges@,
                        edges@[i],
                    )
            },
            Err(fault) => exists|i: int|
                {
                    &&& 0 <= i < edges@.len()
                    &&& edge_fault(
                        g,
                        face_weights@,
                        incident_edges@,
                        parallel_edges@,
                        #[trigger] edges@[i],
                    ) == Some(fault)
                    &&& forall|j: int|
                        0 <= j < i ==> edge_fault(
                            g,
                            face_weights@,
                            incident_edges@,
                            parallel_edges@,
                            #[trigger] edges@[j],
                        ) is None
                },
        },
{
    let mut all: Vec<EdgeTerms> = Vec::new();
    let mut i: usize = 0;
    while i < edges.len()
        invariant
            0 <= i <= edges.len(),
            all@.len() == i,
            forall|j: int|
                0 <= j < i ==> edge_fault(
                    g,
                    face_weights@,
                    incident_edges@,
                    parallel_edges@,
                    #[trigger] edges@[j],
                ) is None,
            forall|j: int|
                0 <= j < i ==> is_terms_of(
                    #[trigger] all@[j],
                    g,
                    face_weights@,
                    incident_edges@,
                    parallel_edges@,
                    edges@[j],
                ),
        decreases edges.len() - i,
    {
        match edge_terms(g, edges[i], face_weights, incident_edges, parallel_edges) {
            Ok(terms) => {
                all.push(terms);
            },
            Err(fault) => {
                proof {
                    assert(edge_fault(
                        g,
                        face_weights@,
                        incident_edges@,
                        parallel_edges@,
                        edges@[i as int],
                    ) == Some(fault));
                }
                return Err(fault);
            },
        }
        i += 1;
    }
    Ok(all)
}

/// An edge that bounds no face of three, four or five edges has no terms at
/// all: its sums `a`, `b` and `c` are empty, and its curvature is defined as
/// soon as it is an edge of the graph.
pub proof fn lemma_edge_without_faces_has_no_terms(
    g: &WeightedGraph,
    fw: Map<usize, EdgeIndex<u64>>,
    inc: Map<usize, Vec<Edge>>,
    par: Map<usize, EdgeIndex<Edge>>,
    edge: Edge,
)
    requires
        !bounds_face(fw, 3, edge),
        !bounds_face(fw, 4, edge),
        !bounds_face(fw, 5, edge),
    ensures
        all_face_weights(fw, edge) == Seq::<u64>::empty(),
        all_parallel_terms(g, fw, par, edge) == Seq::<(u64, u64)>::empty(),
        all_endpoint_terms(g, fw, inc, edge) == Seq::<Seq<u64>>::empty(),
        g.adjacent(edge.0 as int, edge.1 as int) ==> edge_fault(g, fw, inc, par, edge) is None,
{
    lemma_length_without_face(g, fw, inc, par, 3, edge);
    lemma_length_without_face(g, fw, inc, par, 4, edge);
    lemma_length_without_face(g, fw, inc, par, 5, edge);
    assert(all_face_weights(fw, edge) =~= Seq::<u64>::empty());
    assert(all_parallel_terms(g, fw, par, edge) =~= Seq::<(u64, u64)>::empty());
    assert(all_endpoint_terms(g, fw, inc, edge) =~= Seq::<Seq<u64>>::empty());
}

/// A length for which the graph has no cycle contributes no term to the
/// curvature of any edge: the face weight index that is built from no faces
/// has no entry, so the length is passed over.
pub proof fn lemma_length_without_cycles_contributes_nothing(
    g: &WeightedGraph,
    fw: Map<usize, EdgeIndex<u64>>,
    inc: Map<usize, Vec<Edge>>,
    par: Map<usize, EdgeIndex<Edge>>,
    n: usize,
    cycles: Seq<Seq<Edge>>,
    faces: Seq<Face>,
    edge: Edge,
)
    requires
        is_cycle_listing(g, n as int, cycles),
        g.order() < n || n < 3,
        faces.len() == cycles.len(),
        fw.contains_key(n) ==> fw[n]@ == grouped(face_weight_entries(faces, faces.len() as int)),
    ensures
        !bounds_face(fw, n, edge),
        faces_at(fw, n, edge) == Seq::<u64>::empty(),
        parallel_terms(g, fw, par, n, edge) == Seq::<(u64, u64)>::empty(),
        endpoint_terms(g, fw, inc, n, edge) == Seq::<Seq<u64>>::empty(),
        references_in_matrix(g, fw, inc, par, n, edge),
{
    lemma_no_cycles_without_room(g, n as int, cycles);
    assert(face_weight_entries(faces, 0) =~= Seq::empty());
    lemma_length_without_face(g, fw, inc, par, n, edge);
}

/// The operands of the curvature of an edge are a function of the graph and
/// the three indices: whatever meets `is_terms_of` holds the same operands in
/// the same order.
pub proof fn lemma_terms_determined(
    first: EdgeTerms,
    second: EdgeTerms,
    g: &WeightedGraph,
    fw: Map<usize, EdgeIndex<u64>>,
    inc: Map<usize, Vec<Edge>>,
    par: Map<usize, EdgeIndex<Edge>>,
    edge: Edge,
)
    requires
        is_terms_of(first, g, fw, inc, par, edge),
        is_terms_of(second, g, fw, inc, par, edge),
    ensures
        first.edge == second.edge,
        first.weight == second.weight,
        first.face_weights@ == second.face_weights@,
        first.parallel_weights@ == second.parallel_weights@,
        rows_view(first.endpoint_weights@) == rows_view(second.endpoint_weights@),
{
}

/// `faces` are the cycles, each with the total that `total` gives for the
/// weights of its edges.
pub open spec fn are_faces_of(
    g: &WeightedGraph,
    total: spec_fn(Seq<u64>) -> u64,
    cycles: Seq<Seq<Edge>>,
    faces: Seq<Face>,
) -> bool {
    &&& faces.len() == cycles.len()
    &&& forall|k: int|
        0 <= k < faces.len() ==> (#[trigger] faces[k]).edges@ == cycles[k] && faces[k].weight
            == total(member_weights(g, cycles[k]))
}

/// `index` is the face weight index of the cycles of `g` on `n` vertices,
/// with face weights added up by `total`.
pub open spec fn is_face_weight_index(
    g: &WeightedGraph,
    total: spec_fn(Seq<u64>) -> u64,
    n: int,
    index: Map<Edge, Seq<u64>>,
) -> bool {
    exists|cycles: Seq<Seq<Edge>>, faces: Seq<Face>|
        {
            &&& is_cycle_listing(g, n, cycles)
            &&& #[trigger] are_faces_of(g, total, cycles, faces)
            &&& index == grouped(face_weight_entries(faces, faces.len() as int))
        }
}

/// `index` is the parallel edge index of the cycles of `g` on `n` vertices.
pub open spec fn is_parallel_edge_index(
    g: &WeightedGraph,
    n: int,
    index: Map<Edge, Seq<Edge>>,
) -> bool {
    exists|cycles: Seq<Seq<Edge>>| #[trigger]
        is_cycle_listing(g, n, cycles) && index == grouped(
            parallel_entries(cycles, cycles.len() as int),
        )
}

/// The three indices are those of `g`: face weights for the lengths 3, 4 and
/// 5, parallel edges for the lengths 4 and 5, and the incident edges.
pub open spec fn are_indices_of(
    g: &WeightedGraph,
    total: spec_fn(Seq<u64>) -> u64,
    fw: Map<usize, EdgeIndex<u64>>,
    inc: Map<usize, Vec<Edge>>,
    par: Map<usize, EdgeIndex<Edge>>,
) -> bool {
    &&& forall|n: usize|
        3 <= n <= 5 ==> #[trigger] fw.contains_key(n) && is_face_weight_index(
            g,
            total,
            n as int,
            fw[n]@,
        )
    &&& forall|n: usize|
        4 <= n <= 5 ==> #[trigger] par.contains_key(n) && is_parallel_edge_index(
            g,
            n as int,
            par[n]@,
        )
    &&& forall|v: usize| #[trigger] inc.contains_key(v) <==> has_incident_edge(g, v as int)
    &&& forall|v: usize| #[trigger] inc.contains_key(v) ==> is_incident_list(g, v as int, inc[v]@)
}

/// A graph has one face weight index for each length, once it is settled how
/// face weights are added up.
pub proof fn lemma_face_weight_index_unique(
    g: &WeightedGraph,
    total: spec_fn(Seq<u64>) -> u64,
    n: int,
    first: Map<Edge, Seq<u64>>,
    second: Map<Edge, Seq<u64>>,
)
    requires
        is_face_weight_index(g, total, n, first),
        is_face_weight_index(g, total, n, second),
    ensures
        first == second,
{
    let (cycles_a, faces_a) = choose|cycles: Seq<Seq<Edge>>, faces: Seq<Face>|
        {
            &&& is_cycle_listing(g, n, cycles)
            &&& #[trigger] are_faces_of(g, total, cycles, faces)
            &&& first == grouped(face_weight_entries(faces, faces.len() as int))
        };
    let (cycles_b, faces_b) = choose|cycles: Seq<Seq<Edge>>, faces: Seq<Face>|
        {
            &&& is_cycle_listing(g, n, cycles)
            &&& #[trigger] are_faces_of(g, total, cycles, faces)
            &&& second == grouped(face_weight_entries(faces, faces.len() as int))
        };
    lemma_cycle_listing_unique(g, n, cycles_a, cycles_b);
    let parts_a = Seq::new(faces_a.len(), |k: int| face_entries(faces_a[k]));
    let parts_b = Seq::new(faces_b.len(), |k: int| face_entries(faces_b[k]));
    assert forall|k: int| 0 <= k < faces_a.len() implies parts_a[k] == parts_b[k] by {
        assert(faces_a[k].edges@ == cycles_a[k]);
        assert(faces_b[k].edges@ == cycles_b[k]);
        assert(face_entries(faces_a[k]) =~= face_entries(faces_b[k]));
    }
    assert(parts_a =~= parts_b);
}

/// A graph has one parallel edge index for each length.
pub proof fn lemma_parallel_edge_index_unique(
    g: &WeightedGraph,
    n: int,
    first: Map<Edge, Seq<Edge>>,
    second: Map<Edge, Seq<Edge>>,
)
    requires
        is_parallel_edge_index(g, n, first),
        is_parallel_edge_index(g, n, second),
    ensures
        first == second,
{
    let cycles_a = choose|cycles: Seq<Seq<Edge>>| #[trigger]
        is_cycle_listing(g, n, cycles) && first == grouped(
            parallel_entries(cycles, cycles.len() as int),
        );
    let cycles_b = choose|cycles: Seq<Seq<Edge>>| #[trigger]
        is_cycle_listing(g, n, cycles) && second == grouped(
            parallel_entries(cycles, cycles.len() as int),
        );
    lemma_cycle_listing_unique(g, n, cycles_a, cycles_b);
}

/// Running the pipeline twice on one graph gives the same operands for every
/// edge, in the same order, and the same fault where there is one: the
/// enumeration, the indices and the terms are functions of the graph and of
/// the way in which face weights are added up. The order in which a hash map
/// hands out its entries has no part in it.
pub proof fn lemma_pipeline_repeatable(
    g: &WeightedGraph,
    total: spec_fn(Seq<u64>) -> u64,
    fw_a: Map<usize, EdgeIndex<u64>>,
    inc_a: Map<usize, Vec<Edge>>,
    par_a: Map<usize, EdgeIndex<Edge>>,
    fw_b: Map<usize, EdgeIndex<u64>>,
    inc_b: Map<usize, Vec<Edge>>,
    par_b: Map<usize, EdgeIndex<Edge>>,
    edge: Edge,
)
    requires
        are_indices_of(g, total, fw_a, inc_a, par_a),
        are_indices_of(g, total, fw_b, inc_b, par_b),
    ensures
        all_face_weights(fw_a, edge) == all_face_weights(fw_b, edge),
        all_parallel_terms(g, fw_a, par_a, edge) == all_parallel_terms(g, fw_b, par_b, edge),
        all_endpoint_terms(g, fw_a, inc_a, edge) == all_endpoint_terms(g, fw_b, inc_b, edge),
        edge_fault(g, fw_a, inc_a, par_a, edge) == edge_fault(g, fw_b, inc_b, par_b, edge),
{
    assert forall|n: usize| 3 <= n <= 5 implies fw_a[n]@ == fw_b[n]@ by {
        assert(fw_a.contains_key(n) && fw_b.contains_key(n));
        lemma_face_weight_index_unique(g, total, n as int, fw_a[n]@, fw_b[n]@);
    }
    assert forall|n: usize| 4 <= n <= 5 implies par_a[n]@ == par_b[n]@ by {
        assert(par_a.contains_key(n) && par_b.contains_key(n));
        lemma_parallel_edge_index_unique(g, n as int, par_a[n]@, par_b[n]@);
    }
    lemma_incident_edges_unique(g, inc_a, inc_b);
    assert(fw_a.contains_key(3) && fw_a.contains_key(4) && fw_a.contains_key(5));
    assert(fw_b.contains_key(3) && fw_b.contains_key(4) && fw_b.contains_key(5));
    assert(par_a.contains_key(4) && par_a.contains_key(5));
    assert(par_b.contains_key(4) && par_b.contains_key(5));
    assert(incident_at(inc_a, edge.0) == incident_at(inc_b, edge.0));
    assert(incident_at(inc_a, edge.1) == incident_at(inc_b, edge.1));
    assert(parallels_at(par_a, 3, edge) == parallels_at(par_b, 3, edge));
    assert(parallels_at(par_a, 4, edge) == parallels_at(par_b, 4, edge));
    assert(parallels_at(par_a, 5, edge) == parallels_at(par_b, 5, edge));
    assert(faces_at(fw_a, 3, edge) == faces_at(fw_b, 3, edge));
    assert(faces_at(fw_a, 4, edge) == faces_at(fw_b, 4, edge));
    assert(faces_at(fw_a, 5, edge) == faces_at(fw_b, 5, edge));
}

} // verus!
