use human_connectome::graph::WeightedGraph;

/// The graph on `order` vertices with unit weight on the given edges, both
/// ways.
fn graph_of_edges(order: usize, edges: &[(usize, usize)]) -> WeightedGraph {
    let mut matrix = vec![vec![0.0f64; order]; order];
    for &(u, v) in edges {
        matrix[u][v] = 1.0;
        matrix[v][u] = 1.0;
    }
    let rows: Vec<Vec<u64>> =
        matrix.iter().map(|row| row.iter().map(|w| w.to_bits()).collect()).collect();
    WeightedGraph::new_from_vec(rows).unwrap()
}

fn complete_graph(order: usize) -> WeightedGraph {
    let mut edges = Vec::new();
    for u in 0..order {
        for v in (u + 1)..order {
            edges.push((u, v));
        }
    }
    graph_of_edges(order, &edges)
}

/// Counts the simple cycles on `n` vertices by trying every sequence of `n`
/// distinct vertices that starts at its least vertex and goes on towards the
/// smaller neighbour.
fn count_by_brute_force(order: usize, adjacent: &Vec<Vec<bool>>, n: usize) -> usize {
    fn extend(
        order: usize,
        adjacent: &Vec<Vec<bool>>,
        n: usize,
        tour: &mut Vec<usize>,
        count: &mut usize,
    ) {
        if tour.len() == n {
            if adjacent[tour[n - 1]][tour[0]] && tour[1] < tour[n - 1] {
                *count += 1;
            }
            return;
        }
        for v in 0..order {
            if v > tour[0] && !tour.contains(&v) && adjacent[tour[tour.len() - 1]][v] {
                tour.push(v);
                extend(order, adjacent, n, tour, count);
                tour.pop();
            }
        }
    }
    let mut count = 0;
    if n < 3 {
        return 0;
    }
    for s in 0..order {
        let mut tour = vec![s];
        extend(order, adjacent, n, &mut tour, &mut count);
    }
    count
}

struct Lcg(u64);

impl Lcg {
    fn next(&mut self) -> u64 {
        self.0 = self.0.wrapping_mul(6364136223846793005).wrapping_add(1442695040888963407);
        self.0 >> 33
    }
}

#[test]
fn triangle_has_one_three_cycle() {
    let g = graph_of_edges(3, &[(0, 1), (1, 2), (0, 2)]);
    let cycles = g.find_n_cycles(3);
    assert_eq!(cycles, vec![vec![(0, 1), (1, 2), (2, 0)]]);
    assert_eq!(g.count_n_cycles(3), 1);
}

#[test]
fn five_cycle_has_no_four_cycle_and_one_five_cycle() {
    let g = graph_of_edges(5, &[(0, 1), (1, 2), (2, 3), (3, 4), (4, 0)]);
    assert_eq!(g.count_n_cycles(3), 0);
    assert_eq!(g.count_n_cycles(4), 0);
    assert_eq!(g.count_n_cycles(5), 1);
    assert_eq!(g.find_n_cycles(5), vec![vec![(0, 1), (1, 2), (2, 3), (3, 4), (4, 0)]]);
}

#[test]
fn five_cycle_with_chord_one_three() {
    let g = graph_of_edges(5, &[(0, 1), (1, 2), (2, 3), (3, 4), (4, 0), (1, 3)]);
    let four = g.find_n_cycles(4);
    assert_eq!(four, vec![vec![(0, 1), (1, 3), (3, 4), (4, 0)]]);
    for cycle in &four {
        assert!(cycle.contains(&(1, 3)) || cycle.contains(&(3, 1)));
    }
    assert_eq!(g.find_n_cycles(3), vec![vec![(1, 2), (2, 3), (3, 1)]]);
    assert_eq!(g.count_n_cycles(5), 1);
}

#[test]
fn complete_graphs_have_the_known_counts() {
    let k4 = complete_graph(4);
    assert_eq!(k4.count_n_cycles(3), 4);
    assert_eq!(k4.count_n_cycles(4), 3);
    assert_eq!(k4.count_n_cycles(5), 0);
    let k5 = complete_graph(5);
    assert_eq!(k5.count_n_cycles(3), 10);
    assert_eq!(k5.count_n_cycles(4), 15);
    assert_eq!(k5.count_n_cycles(5), 12);
    let k6 = complete_graph(6);
    assert_eq!(k6.count_n_cycles(3), 20);
    assert_eq!(k6.count_n_cycles(4), 45);
    assert_eq!(k6.count_n_cycles(5), 72);
    assert_eq!(k6.count_n_cycles(6), 60);
}

#[test]
fn triangles_of_the_complete_graph_on_four_vertices_in_order() {
    let k4 = complete_graph(4);
    assert_eq!(
        k4.find_n_cycles(3),
        vec![
            vec![(0, 1), (1, 2), (2, 0)],
            vec![(0, 1), (1, 3), (3, 0)],
            vec![(0, 2), (2, 3), (3, 0)],
            vec![(1, 2), (2, 3), (3, 1)],
        ]
    );
    assert_eq!(
        k4.find_n_cycles(4),
        vec![
            vec![(0, 1), (1, 2), (2, 3), (3, 0)],
            vec![(0, 1), (1, 3), (3, 2), (2, 0)],
            vec![(0, 2), (2, 1), (1, 3), (3, 0)],
        ]
    );
}

#[test]
fn house_graph_with_both_diagonals() {
    // a square 0-1-2-3 with a roof 4 over the side 2-3 and the diagonal 0-2
    let g = graph_of_edges(5, &[(0, 1), (1, 2), (2, 3), (3, 0), (2, 4), (3, 4), (0, 2)]);
    assert_eq!(g.count_n_cycles(3), 3);
    assert_eq!(g.count_n_cycles(4), 2);
    assert_eq!(g.count_n_cycles(5), 1);
    assert_eq!(
        g.find_n_cycles(4),
        vec![vec![(0, 1), (1, 2), (2, 3), (3, 0)], vec![(0, 2), (2, 4), (4, 3), (3, 0)]]
    );
}

#[test]
fn random_graphs_agree_with_brute_force() {
    let mut rng = Lcg(7);
    for round in 0..60 {
        let order = 1 + (rng.next() % 8) as usize;
        let mut adjacent = vec![vec![false; order]; order];
        let mut edges = Vec::new();
        for u in 0..order {
            for v in (u + 1)..order {
                if rng.next() % 100 < 30 + (round % 5) * 15 {
                    adjacent[u][v] = true;
                    adjacent[v][u] = true;
                    edges.push((u, v));
                }
            }
        }
        let g = graph_of_edges(order, &edges);
        for n in 0..8 {
            assert_eq!(g.count_n_cycles(n), count_by_brute_force(order, &adjacent, n));
        }
    }
}

#[test]
fn every_listed_cycle_is_a_closed_walk_on_distinct_vertices() {
    let mut rng = Lcg(11);
    for _ in 0..20 {
        let order = 7;
        let mut edges = Vec::new();
        for u in 0..order {
            for v in (u + 1)..order {
                if rng.next() % 2 == 0 {
                    edges.push((u, v));
                }
            }
        }
        let g = graph_of_edges(order, &edges);
        for n in 3..=5 {
            let cycles = g.find_n_cycles(n);
            for cycle in &cycles {
                assert_eq!(cycle.len(), n);
                for i in 0..n {
                    assert_eq!(cycle[i].1, cycle[(i + 1) % n].0);
                    assert!(g.has_edge(cycle[i].0, cycle[i].1));
                    for j in (i + 1)..n {
                        assert_ne!(cycle[i].0, cycle[j].0);
                    }
                    if i > 0 {
                        assert!(cycle[0].0 < cycle[i].0);
                    }
                }
                assert!(cycle[1].0 < cycle[n - 1].0);
            }
            for k in 1..cycles.len() {
                let before: Vec<usize> = cycles[k - 1].iter().map(|e| e.0).collect();
                let after: Vec<usize> = cycles[k].iter().map(|e| e.0).collect();
                assert!(before < after);
            }
        }
    }
}

#[test]
fn fewer_vertices_than_the_length_gives_no_cycle() {
    let g = complete_graph(4);
    assert_eq!(g.find_n_cycles(5), Vec::<Vec<(usize, usize)>>::new());
    assert_eq!(g.count_n_cycles(6), 0);
    let empty = WeightedGraph::new_from_vec(Vec::new()).unwrap();
    assert_eq!(empty.count_n_cycles(3), 0);
    assert_eq!(empty.count_n_cycles(0), 0);
}

#[test]
fn lengths_below_three_give_no_cycle() {
    let g = complete_graph(5);
    assert_eq!(g.count_n_cycles(0), 0);
    assert_eq!(g.count_n_cycles(1), 0);
    assert_eq!(g.count_n_cycles(2), 0);
    let mut looped = vec![vec![1.0f64.to_bits(); 3]; 3];
    looped[0][0] = 2.0f64.to_bits();
    let g = WeightedGraph::new_from_vec(looped).unwrap();
    assert_eq!(g.count_n_cycles(1), 0);
    assert_eq!(g.count_n_cycles(2), 0);
    assert_eq!(g.count_n_cycles(3), 1);
}

#[test]
fn a_vertex_without_edges_is_in_no_cycle() {
    let g = graph_of_edges(5, &[(0, 1), (1, 2), (0, 2), (2, 4), (0, 4)]);
    for n in 3..=5 {
        for cycle in g.find_n_cycles(n) {
            for edge in cycle {
                assert_ne!(edge.0, 3);
                assert_ne!(edge.1, 3);
            }
        }
    }
    assert_eq!(g.count_n_cycles(3), 2);
    assert_eq!(g.count_n_cycles(4), 1);
}

#[test]
fn enumerating_twice_gives_the_same_cycles() {
    let g = complete_graph(6);
    for n in 3..=5 {
        assert_eq!(g.find_n_cycles(n), g.find_n_cycles(n));
    }
}

#[test]
fn cycles_by_length() {
    let g = complete_graph(5);
    let by_length = g.get_edges_hashmap(vec![3, 4, 5, 4]);
    assert_eq!(by_length.len(), 3);
    assert_eq!(by_length[&3], g.find_n_cycles(3));
    assert_eq!(by_length[&4], g.find_n_cycles(4));
    assert_eq!(by_length[&5], g.find_n_cycles(5));
    assert!(g.get_edges_hashmap(Vec::new()).is_empty());
}

/// Every closed path on `n` vertices from every root, both ways round, in the
/// order in which a search that tries the vertices in increasing order meets
/// them.
fn closed_paths(order: usize, adjacent: &Vec<Vec<bool>>, n: usize) -> Vec<Vec<usize>> {
    fn extend(
        order: usize,
        adjacent: &Vec<Vec<bool>>,
        n: usize,
        path: &mut Vec<usize>,
        found: &mut Vec<Vec<usize>>,
    ) {
        if path.len() == n {
            if adjacent[path[n - 1]][path[0]] {
                found.push(path.clone());
            }
            return;
        }
        for v in 0..order {
            if v > path[0] && !path.contains(&v) && adjacent[path[path.len() - 1]][v] {
                path.push(v);
                extend(order, adjacent, n, path, found);
                path.pop();
            }
        }
    }
    let mut found = Vec::new();
    for s in 0..order {
        let mut path = vec![s];
        extend(order, adjacent, n, &mut path, &mut found);
    }
    found
}

#[test]
fn a_cycle_and_its_reverse_need_not_be_met_one_after_the_other() {
    let order = 4;
    let adjacent: Vec<Vec<bool>> =
        (0..order).map(|u| (0..order).map(|v| u != v).collect()).collect();
    let paths = closed_paths(order, &adjacent, 3);
    assert_eq!(paths.len(), 8);
    // the first two paths go round two triangles, not one triangle both ways
    assert_eq!(paths[0], vec![0, 1, 2]);
    assert_eq!(paths[1], vec![0, 1, 3]);
    let every_other: Vec<Vec<usize>> = paths.iter().step_by(2).cloned().collect();
    assert!(every_other.contains(&vec![0, 1, 2]));
    assert!(every_other.contains(&vec![0, 2, 1]));
    // the enumeration keeps one tour of each of the four triangles
    let tours: Vec<Vec<usize>> = complete_graph(order)
        .find_n_cycles(3)
        .iter()
        .map(|cycle| cycle.iter().map(|edge| edge.0).collect())
        .collect();
    assert_eq!(tours, vec![vec![0, 1, 2], vec![0, 1, 3], vec![0, 2, 3], vec![1, 2, 3]]);
    for tour in &tours {
        let mut reverse = tour.clone();
        reverse[1..].reverse();
        assert!(paths.contains(tour));
        assert!(paths.contains(&reverse));
        assert!(!tours.contains(&reverse));
    }
}
