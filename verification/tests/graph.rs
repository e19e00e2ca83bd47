use human_connectome::error::GraphError;
use human_connectome::graph::WeightedGraph;
use human_connectome::weight::{
    normalize_weight, weight_is_present, weight_is_zero, weight_magnitude, weight_magnitude_below,
};

fn bits(matrix: &[&[f64]]) -> Vec<Vec<u64>> {
    matrix.iter().map(|row| row.iter().map(|w| w.to_bits()).collect()).collect()
}

fn sample_values() -> Vec<f64> {
    let mut values = vec![
        0.0,
        -0.0,
        1.0,
        -1.0,
        0.2,
        -0.2,
        0.19999999999999998,
        0.20000000000000004,
        f64::MIN_POSITIVE,
        -f64::MIN_POSITIVE,
        f64::from_bits(1),
        f64::from_bits(0x8000_0000_0000_0001),
        f64::MAX,
        f64::MIN,
        f64::INFINITY,
        f64::NEG_INFINITY,
        f64::NAN,
        -f64::NAN,
        f64::from_bits(0x7ff0_0000_0000_0001),
        f64::from_bits(0xfff0_0000_0000_0001),
        f64::from_bits(0x7fff_ffff_ffff_ffff),
        f64::EPSILON,
        1e-300,
        -1e300,
        3.5,
    ];
    let mut state: u64 = 99;
    for _ in 0..400 {
        state = state.wrapping_mul(6364136223846793005).wrapping_add(1442695040888963407);
        values.push(f64::from_bits(state));
        values.push(f64::from_bits(state >> 2));
    }
    values
}

#[test]
fn presence_is_a_magnitude_above_zero() {
    for w in sample_values() {
        assert_eq!(weight_is_present(w.to_bits()), w.abs() > 0.0);
        assert_eq!(weight_is_zero(w.to_bits()), w == 0.0);
        assert_eq!(weight_magnitude(w.to_bits()), w.abs().to_bits());
    }
}

#[test]
fn magnitude_below_is_the_comparison_of_doubles() {
    let values = sample_values();
    for w in &values {
        for t in &values {
            assert_eq!(weight_magnitude_below(w.to_bits(), t.to_bits()), w.abs() < *t);
        }
    }
}

#[test]
fn normalizing_replaces_what_is_not_finite() {
    for w in sample_values() {
        let normal = f64::from_bits(normalize_weight(w.to_bits()));
        if w.is_infinite() || w.is_nan() {
            assert_eq!(normal.to_bits(), 0.0f64.to_bits());
        } else {
            assert_eq!(normal.to_bits(), w.to_bits());
        }
    }
}

#[test]
fn a_square_matrix_is_a_graph() {
    let g = WeightedGraph::new_from_vec(bits(&[&[0.0, 0.5], &[-0.25, 0.0]])).unwrap();
    assert_eq!(g.num_vertices(), 2);
    assert_eq!(g.weight_at(0, 1), 0.5f64.to_bits());
    assert_eq!(g.weight_at(1, 0), (-0.25f64).to_bits());
    assert!(g.has_edge(0, 1));
    assert!(g.has_edge(1, 0));
    assert!(!g.has_edge(0, 0));
    assert!(!g.has_edge(0, 2));
    assert!(!g.has_edge(7, 1));
    let empty = WeightedGraph::new_from_vec(Vec::new()).unwrap();
    assert_eq!(empty.num_vertices(), 0);
    assert!(!empty.has_edge(0, 0));
}

#[test]
fn a_matrix_that_is_not_square_is_refused() {
    let ragged = WeightedGraph::new_from_vec(bits(&[&[0.0, 1.0], &[1.0]]));
    assert!(matches!(ragged, Err(GraphError::InvalidGraph)));
    let wide = WeightedGraph::new_from_vec(bits(&[&[0.0, 1.0, 2.0], &[1.0, 0.0, 2.0]]));
    assert!(matches!(wide, Err(GraphError::InvalidGraph)));
    let tall = WeightedGraph::new_from_vec(bits(&[&[0.0], &[1.0]]));
    assert!(matches!(tall, Err(GraphError::InvalidGraph)));
    let hollow = WeightedGraph::new_from_vec(vec![Vec::new()]);
    assert!(matches!(hollow, Err(GraphError::InvalidGraph)));
}

#[test]
fn adjacency_matrix_marks_the_weights_that_are_not_zero() {
    let g = WeightedGraph::new_from_vec(bits(&[
        &[0.0, 0.5, -0.0],
        &[-2.0, f64::NAN, 1e-320],
        &[f64::INFINITY, 0.0, 3.0],
    ]))
    .unwrap();
    assert_eq!(g.get_adjacency_matrix(), vec![vec![0, 1, 0], vec![1, 0, 1], vec![1, 0, 1]]);
    assert_eq!(g.get_adjacency_list(), vec![vec![1], vec![0, 2], vec![0, 2]]);
    assert_eq!(g.get_edges(), vec![(0, 1), (1, 0), (1, 2), (2, 0), (2, 2)]);
}

#[test]
fn adjacency_of_the_empty_graph() {
    let g = WeightedGraph::new_from_vec(Vec::new()).unwrap();
    assert_eq!(g.get_adjacency_matrix(), Vec::<Vec<i32>>::new());
    assert_eq!(g.get_adjacency_list(), Vec::<Vec<usize>>::new());
    assert_eq!(g.get_edges(), Vec::<(usize, usize)>::new());
    assert!(g.get_incident_edges().is_empty());
}

#[test]
fn incident_edges_are_keyed_by_the_vertex_they_end_in() {
    // a path 0 - 2 - 3 and the lone vertex 1
    let g = WeightedGraph::new_from_vec(bits(&[
        &[0.0, 0.0, 1.0, 0.0],
        &[0.0, 0.0, 0.0, 0.0],
        &[1.0, 0.0, 0.0, 2.0],
        &[0.0, 0.0, 2.0, 0.0],
    ]))
    .unwrap();
    let incident = g.get_incident_edges();
    assert_eq!(incident.len(), 3);
    assert_eq!(incident[&0], vec![(2, 0)]);
    assert_eq!(incident[&2], vec![(0, 2), (3, 2)]);
    assert_eq!(incident[&3], vec![(2, 3)]);
    assert!(!incident.contains_key(&1));
}

#[test]
fn sparsify_zeroes_the_weights_below_the_threshold() {
    let mut g = WeightedGraph::new_from_vec(bits(&[
        &[0.0, 0.1, -0.3],
        &[0.1, 0.0, 0.2],
        &[-0.3, 0.2, -0.05],
    ]))
    .unwrap();
    g.sparsify_matrix(0.2f64.to_bits());
    assert_eq!(g.num_vertices(), 3);
    let expected = bits(&[&[0.0, 0.0, -0.3], &[0.0, 0.0, 0.2], &[-0.3, 0.2, 0.0]]);
    for u in 0..3 {
        for v in 0..3 {
            assert_eq!(g.weight_at(u, v), expected[u][v]);
        }
    }
    assert_eq!(g.get_edges(), vec![(0, 2), (1, 2), (2, 0), (2, 1)]);
}

#[test]
fn sparsify_follows_the_comparison_of_doubles() {
    let values = sample_values();
    let order = 6;
    for t in &values {
        let mut rows = vec![vec![0u64; order]; order];
        for u in 0..order {
            for v in 0..order {
                rows[u][v] = values[(u * order + v) % values.len()].to_bits();
            }
        }
        let mut g = WeightedGraph::new_from_vec(rows.clone()).unwrap();
        g.sparsify_matrix(t.to_bits());
        for u in 0..order {
            for v in 0..order {
                let w = f64::from_bits(rows[u][v]);
                let expected = if w.abs() < *t { 0.0f64.to_bits() } else { rows[u][v] };
                assert_eq!(g.weight_at(u, v), expected);
            }
        }
    }
}

#[test]
fn a_graph_is_undirected_where_adjacency_goes_both_ways() {
    let g = WeightedGraph::new_from_vec(bits(&[&[0.0, 0.5], &[-0.25, 0.0]])).unwrap();
    assert!(g.is_undirected_graph());
    let g = WeightedGraph::new_from_vec(bits(&[&[0.0, 0.5], &[0.0, 3.0]])).unwrap();
    assert!(!g.is_undirected_graph());
    let g = WeightedGraph::new_from_vec(bits(&[
        &[0.0, 1.0, 0.0],
        &[1.0, 0.0, 0.0],
        &[0.0, 2.0, 0.0],
    ]))
    .unwrap();
    assert!(!g.is_undirected_graph());
    assert!(WeightedGraph::new_from_vec(Vec::new()).unwrap().is_undirected_graph());
}
