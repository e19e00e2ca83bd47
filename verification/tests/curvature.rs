use std::collections::HashMap;

use human_connectome::curvature::{curvature_terms, edge_terms, EdgeTerms};
use human_connectome::edge_index::EdgeIndex;
use human_connectome::error::GraphError;
use human_connectome::faces::Face;
use human_connectome::graph::WeightedGraph;

fn graph_of_weights(order: usize, edges: &[(usize, usize, f64)]) -> WeightedGraph {
    let mut matrix = vec![vec![0.0f64; order]; order];
    for &(u, v, w) in edges {
        matrix[u][v] = w;
        matrix[v][u] = w;
    }
    let rows: Vec<Vec<u64>> =
        matrix.iter().map(|row| row.iter().map(|w| w.to_bits()).collect()).collect();
    WeightedGraph::new_from_vec(rows).unwrap()
}

struct Indices {
    face_weights: HashMap<usize, EdgeIndex<u64>>,
    incident_edges: HashMap<usize, Vec<(usize, usize)>>,
    parallel_edges: HashMap<usize, EdgeIndex<(usize, usize)>>,
}

fn indices_of(g: &WeightedGraph) -> Indices {
    let cycles = g.get_edges_hashmap(vec![3, 4, 5]);
    let mut faces: HashMap<usize, Vec<Face>> = HashMap::new();
    for (n, list) in cycles.iter() {
        let weights = g.get_cycle_weights(list).unwrap();
        let mut of_length = Vec::new();
        for (cycle, members) in list.iter().zip(weights) {
            let mut sum = 0.0f64;
            for w in members {
                sum += f64::from_bits(w);
            }
            of_length.push(Face { edges: cycle.clone(), weight: sum.to_bits() });
        }
        faces.insert(*n, of_length);
    }
    Indices {
        face_weights: WeightedGraph::get_face_weights(&faces),
        incident_edges: g.get_incident_edges(),
        parallel_edges: WeightedGraph::get_parallel_edges(&cycles),
    }
}

/// `|w| * (a + b - c)` from the operands, each sum taken in the order of its
/// list.
fn evaluate(terms: &EdgeTerms) -> f64 {
    let w = f64::from_bits(terms.weight);
    let mut a = 0.0f64;
    for face in &terms.face_weights {
        a += (w / f64::from_bits(*face)).abs();
    }
    let mut c = 0.0f64;
    for (other, face) in &terms.parallel_weights {
        c += (w * f64::from_bits(*other)).abs().sqrt() / f64::from_bits(*face).abs();
    }
    let mut b = 0.0f64;
    for incident in &terms.endpoint_weights {
        let mut mean = 0.0f64;
        if !incident.is_empty() {
            for x in incident {
                mean += f64::from_bits(*x).abs();
            }
            mean /= incident.len() as f64;
        }
        b += mean / w.abs();
    }
    w.abs() * (a + b - c)
}

fn curvatures(g: &WeightedGraph) -> Vec<((usize, usize), u64)> {
    let indices = indices_of(g);
    let terms = curvature_terms(
        g,
        &g.get_edges(),
        &indices.face_weights,
        &indices.incident_edges,
        &indices.parallel_edges,
    )
    .unwrap();
    terms.iter().map(|t| (t.edge, evaluate(t).to_bits())).collect()
}

fn floats(list: &Vec<u64>) -> Vec<f64> {
    list.iter().map(|w| f64::from_bits(*w)).collect()
}

#[test]
fn terms_of_a_triangle_edge() {
    let g = graph_of_weights(3, &[(0, 1, 1.0), (1, 2, 1.0), (0, 2, 1.0)]);
    let indices = indices_of(&g);
    let terms = edge_terms(
        &g,
        (0, 1),
        &indices.face_weights,
        &indices.incident_edges,
        &indices.parallel_edges,
    )
    .unwrap();
    assert_eq!(terms.edge, (0, 1));
    assert_eq!(f64::from_bits(terms.weight), 1.0);
    assert_eq!(floats(&terms.face_weights), vec![3.0]);
    assert!(terms.parallel_weights.is_empty());
    assert_eq!(terms.endpoint_weights.len(), 2);
    assert_eq!(floats(&terms.endpoint_weights[0]), vec![1.0, 1.0]);
    assert_eq!(floats(&terms.endpoint_weights[1]), vec![1.0, 1.0]);
    // a = 1/3, b = 1 + 1, c = 0
    assert_eq!(evaluate(&terms), 1.0 * (1.0 / 3.0 + 2.0 - 0.0));
    assert_eq!(evaluate(&terms), 2.3333333333333335);
}

#[test]
fn terms_of_a_square_edge() {
    let g = graph_of_weights(4, &[(0, 1, 2.0), (1, 2, 1.0), (2, 3, 8.0), (0, 3, 5.0)]);
    let indices = indices_of(&g);
    let terms = edge_terms(
        &g,
        (0, 1),
        &indices.face_weights,
        &indices.incident_edges,
        &indices.parallel_edges,
    )
    .unwrap();
    assert_eq!(floats(&terms.face_weights), vec![16.0]);
    assert_eq!(terms.parallel_weights, vec![(8.0f64.to_bits(), 16.0f64.to_bits())]);
    assert_eq!(floats(&terms.endpoint_weights[0]), vec![2.0, 5.0]);
    assert_eq!(floats(&terms.endpoint_weights[1]), vec![2.0, 1.0]);
    // a = 2/16, b = 3.5/2 + 1.5/2, c = sqrt(2 * 8)/16
    assert_eq!(evaluate(&terms), 2.0 * (0.125 + 2.5 - 0.25));
    assert_eq!(evaluate(&terms), 4.75);
}

#[test]
fn terms_go_through_the_lengths_in_turn() {
    // the complete graph on five vertices with weight 1 on every edge
    let mut edges = Vec::new();
    for u in 0..5 {
        for v in (u + 1)..5 {
            edges.push((u, v, 1.0));
        }
    }
    let g = graph_of_weights(5, &edges);
    let indices = indices_of(&g);
    let terms = edge_terms(
        &g,
        (0, 1),
        &indices.face_weights,
        &indices.incident_edges,
        &indices.parallel_edges,
    )
    .unwrap();
    let triangles = indices.face_weights[&3].get((0, 1)).unwrap().len();
    let squares = indices.face_weights[&4].get((0, 1)).unwrap().len();
    let pentagons = indices.face_weights[&5].get((0, 1)).unwrap().len();
    assert_eq!((triangles, squares, pentagons), (3, 6, 6));
    let mut expected = vec![3.0; triangles];
    expected.extend(vec![4.0; squares]);
    expected.extend(vec![5.0; pentagons]);
    assert_eq!(floats(&terms.face_weights), expected);
    let squares_parallel = indices.parallel_edges[&4].get((0, 1)).unwrap().len();
    let pentagons_parallel = indices.parallel_edges[&5].get((0, 1)).unwrap().len();
    assert_eq!((squares_parallel, pentagons_parallel), (6, 12));
    let mut products = vec![(1.0f64.to_bits(), 4.0f64.to_bits()); squares * squares_parallel];
    products.extend(vec![(1.0f64.to_bits(), 5.0f64.to_bits()); pentagons * pentagons_parallel]);
    assert_eq!(terms.parallel_weights, products);
    assert_eq!(terms.endpoint_weights.len(), 6);
    for incident in &terms.endpoint_weights {
        assert_eq!(floats(incident), vec![1.0; 4]);
    }
}

#[test]
fn an_edge_without_faces_has_curvature_zero() {
    let g = graph_of_weights(4, &[(0, 1, 0.5), (2, 3, 2.0)]);
    let indices = indices_of(&g);
    let terms = curvature_terms(
        &g,
        &g.get_edges(),
        &indices.face_weights,
        &indices.incident_edges,
        &indices.parallel_edges,
    )
    .unwrap();
    assert_eq!(terms.len(), 4);
    for t in &terms {
        assert!(t.face_weights.is_empty());
        assert!(t.parallel_weights.is_empty());
        assert!(t.endpoint_weights.is_empty());
        assert_eq!(evaluate(t), 0.0);
    }
    assert_eq!(terms[0].edge, (0, 1));
    assert_eq!(f64::from_bits(terms[0].weight), 0.5);
}

#[test]
fn a_length_beyond_the_graph_contributes_nothing() {
    let g = graph_of_weights(3, &[(0, 1, 1.0), (1, 2, 1.0), (0, 2, 1.0)]);
    let indices = indices_of(&g);
    assert!(indices.face_weights[&4].get((0, 1)).is_none());
    assert!(indices.face_weights[&5].get((0, 1)).is_none());
    for (_, curvature) in curvatures(&g) {
        assert!(f64::from_bits(curvature).is_finite());
    }
}

#[test]
fn the_edge_is_looked_up_as_it_is_directed() {
    let g = graph_of_weights(3, &[(0, 1, 1.0), (1, 2, 1.0), (0, 2, 1.0)]);
    let all = curvatures(&g);
    let expected = (1.0f64 / 3.0 + 2.0).to_bits();
    assert_eq!(
        all,
        vec![
            ((0, 1), expected),
            ((0, 2), 0.0f64.to_bits()),
            ((1, 0), 0.0f64.to_bits()),
            ((1, 2), expected),
            ((2, 0), expected),
            ((2, 1), 0.0f64.to_bits()),
        ]
    );
}

#[test]
fn the_pipeline_gives_the_same_bits_twice() {
    let g = graph_of_weights(
        6,
        &[
            (0, 1, 0.31),
            (0, 2, -0.27),
            (0, 3, 1.5),
            (1, 2, 2.25),
            (1, 3, 0.75),
            (2, 3, 3.5),
            (3, 4, 0.9),
            (2, 4, 1.1),
            (4, 5, 0.4),
            (0, 5, 0.6),
            (1, 5, 0.21),
        ],
    );
    let first = curvatures(&g);
    let second = curvatures(&g);
    assert_eq!(first, second);
    assert!(first.iter().any(|(_, c)| f64::from_bits(*c) != 0.0));
}

#[test]
fn what_is_no_edge_of_the_graph_is_a_missing_entry() {
    let g = graph_of_weights(3, &[(0, 1, 1.0), (1, 2, 1.0), (0, 2, 1.0)]);
    let indices = indices_of(&g);
    for edge in [(0, 0), (0, 3), (3, 0), (7, 9)] {
        let r = edge_terms(
            &g,
            edge,
            &indices.face_weights,
            &indices.incident_edges,
            &indices.parallel_edges,
        );
        assert!(matches!(r, Err(GraphError::MissingIndexEntry)));
    }
    let r = curvature_terms(
        &g,
        &vec![(0, 1), (1, 1), (1, 2)],
        &indices.face_weights,
        &indices.incident_edges,
        &indices.parallel_edges,
    );
    assert!(matches!(r, Err(GraphError::MissingIndexEntry)));
}

#[test]
fn an_index_that_points_outside_the_matrix_is_a_missing_entry() {
    let g = graph_of_weights(4, &[(0, 1, 1.0), (1, 2, 1.0), (2, 3, 1.0), (0, 3, 1.0)]);
    let mut indices = indices_of(&g);
    indices.parallel_edges.get_mut(&4).unwrap().append((0, 1), (2, 4));
    let r = edge_terms(
        &g,
        (0, 1),
        &indices.face_weights,
        &indices.incident_edges,
        &indices.parallel_edges,
    );
    assert!(matches!(r, Err(GraphError::MissingIndexEntry)));
    // the edge (1, 2) does not look the entry up
    let r = edge_terms(
        &g,
        (1, 2),
        &indices.face_weights,
        &indices.incident_edges,
        &indices.parallel_edges,
    );
    assert!(r.is_ok());

    let mut indices = indices_of(&g);
    indices.incident_edges.insert(1, vec![(0, 1), (9, 1)]);
    let r = edge_terms(
        &g,
        (0, 1),
        &indices.face_weights,
        &indices.incident_edges,
        &indices.parallel_edges,
    );
    assert!(matches!(r, Err(GraphError::MissingIndexEntry)));
}

#[test]
fn a_face_of_weight_zero_is_degenerate() {
    let g = graph_of_weights(3, &[(0, 1, 1.0), (1, 2, 1.0), (0, 2, -2.0)]);
    let indices = indices_of(&g);
    assert_eq!(floats(indices.face_weights[&3].get((0, 1)).unwrap()), vec![0.0]);
    let r = edge_terms(
        &g,
        (0, 1),
        &indices.face_weights,
        &indices.incident_edges,
        &indices.parallel_edges,
    );
    assert!(matches!(r, Err(GraphError::DegenerateFace)));
    // an edge that bounds no face is not touched by it
    let r = edge_terms(
        &g,
        (1, 0),
        &indices.face_weights,
        &indices.incident_edges,
        &indices.parallel_edges,
    );
    assert!(r.is_ok());
    let r = curvature_terms(
        &g,
        &vec![(1, 0), (0, 1), (5, 5)],
        &indices.face_weights,
        &indices.incident_edges,
        &indices.parallel_edges,
    );
    assert!(matches!(r, Err(GraphError::DegenerateFace)));
    let r = curvature_terms(
        &g,
        &vec![(1, 0), (5, 5), (0, 1)],
        &indices.face_weights,
        &indices.incident_edges,
        &indices.parallel_edges,
    );
    assert!(matches!(r, Err(GraphError::MissingIndexEntry)));
}

#[test]
fn a_missing_entry_comes_before_a_degenerate_face_of_the_same_edge() {
    let g = graph_of_weights(3, &[(0, 1, 1.0), (1, 2, 1.0), (0, 2, -2.0)]);
    let mut indices = indices_of(&g);
    indices.incident_edges.insert(0, vec![(1, 0), (3, 0)]);
    let r = edge_terms(
        &g,
        (0, 1),
        &indices.face_weights,
        &indices.incident_edges,
        &indices.parallel_edges,
    );
    assert!(matches!(r, Err(GraphError::MissingIndexEntry)));
}

#[test]
fn lengths_without_an_index_are_passed_over() {
    let g = graph_of_weights(3, &[(0, 1, 1.0), (1, 2, 1.0), (0, 2, 1.0)]);
    let none: HashMap<usize, EdgeIndex<u64>> = HashMap::new();
    let terms = edge_terms(&g, (0, 1), &none, &HashMap::new(), &HashMap::new()).unwrap();
    assert!(terms.face_weights.is_empty());
    assert!(terms.endpoint_weights.is_empty());

    // a face weight index alone: the endpoints have no incident edges on record
    let mut only_three: HashMap<usize, EdgeIndex<u64>> = HashMap::new();
    let mut index = EdgeIndex::new();
    index.append((0, 1), 3.0f64.to_bits());
    only_three.insert(3, index);
    let terms = edge_terms(&g, (0, 1), &only_three, &HashMap::new(), &HashMap::new()).unwrap();
    assert_eq!(floats(&terms.face_weights), vec![3.0]);
    assert_eq!(terms.endpoint_weights, vec![Vec::<u64>::new(), Vec::<u64>::new()]);
    assert_eq!(evaluate(&terms), 1.0 / 3.0);
}

#[test]
fn no_edges_no_terms() {
    let g = graph_of_weights(3, &[(0, 1, 1.0)]);
    let indices = indices_of(&g);
    let terms = curvature_terms(
        &g,
        &Vec::new(),
        &indices.face_weights,
        &indices.incident_edges,
        &indices.parallel_edges,
    )
    .unwrap();
    assert!(terms.is_empty());
}
