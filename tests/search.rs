use frontier_basic_rs::{Child, Edge, Frontier, Graph, State, StateError, ZDD};

fn build(nv: usize, edges: &[(usize, usize)], s: usize, t: usize) -> ZDD {
    let edge_list = edges.iter().map(|&(a, b)| Edge::new(a, b)).collect();
    let state = State::new(Graph::new(nv, edge_list), s, t).expect("valid input");
    Frontier::new().construct(&state)
}

fn counts(nv: usize, edges: &[(usize, usize)], s: usize, t: usize) -> (usize, u64) {
    let mut zdd = build(nv, edges, s, t);
    (zdd.get_number_of_nodes(), zdd.get_number_of_solutions())
}

fn grid_3x3() -> Vec<(usize, usize)> {
    vec![
        (1, 2),
        (2, 3),
        (1, 4),
        (2, 5),
        (3, 6),
        (4, 5),
        (5, 6),
        (4, 7),
        (5, 8),
        (6, 9),
        (7, 8),
        (8, 9),
    ]
}

/// Counts the edge subsets that form a simple s-t path, by trying them all.
fn brute_force(nv: usize, edges: &[(usize, usize)], s: usize, t: usize) -> u64 {
    let m = edges.len();
    let mut total = 0;
    for mask in 0u32..(1u32 << m) {
        let chosen: Vec<(usize, usize)> =
            (0..m).filter(|k| mask & (1 << k) != 0).map(|k| edges[k]).collect();
        if chosen.is_empty() {
            continue;
        }
        let mut deg = vec![0usize; nv + 1];
        for &(a, b) in &chosen {
            deg[a] += 1;
            deg[b] += 1;
        }
        let ok_deg = (1..=nv).all(|v| {
            if v == s || v == t {
                deg[v] == 1
            } else {
                deg[v] == 0 || deg[v] == 2
            }
        });
        if !ok_deg {
            continue;
        }
        // walk from s along chosen edges; a path uses every chosen edge
        let mut used = vec![false; chosen.len()];
        let mut at = s;
        let mut steps = 0;
        loop {
            let next = (0..chosen.len()).find(|&k| {
                !used[k] && (chosen[k].0 == at || chosen[k].1 == at)
            });
            match next {
                Some(k) => {
                    used[k] = true;
                    steps += 1;
                    at = if chosen[k].0 == at { chosen[k].1 } else { chosen[k].0 };
                    if chosen[k].0 == chosen[k].1 {
                        break;
                    }
                }
                None => break,
            }
        }
        if at == t && steps == chosen.len() {
            total += 1;
        }
    }
    total
}

#[test]
fn four_cycle_two_paths() {
    // levels of 1, 2, 2 and 2 nodes, plus the two terminals
    let (nodes, sols) = counts(4, &[(1, 2), (1, 3), (2, 4), (3, 4)], 1, 4);
    assert_eq!(nodes, 9);
    assert_eq!(sols, 2);
}

#[test]
fn single_edge() {
    let (nodes, sols) = counts(2, &[(1, 2)], 1, 2);
    assert_eq!(nodes, 3);
    assert_eq!(sols, 1);
}

#[test]
fn triangle() {
    assert_eq!(counts(3, &[(1, 2), (2, 3), (1, 3)], 1, 3).1, 2);
}

#[test]
fn triangle_with_parallel_edge() {
    assert_eq!(counts(3, &[(1, 2), (2, 3), (1, 3), (1, 2)], 1, 3).1, 3);
}

#[test]
fn disconnected_ends() {
    assert_eq!(counts(4, &[(1, 2), (3, 4)], 1, 4).1, 0);
}

#[test]
fn grid_twelve_paths() {
    assert_eq!(counts(9, &grid_3x3(), 1, 9).1, 12);
}

#[test]
fn parallel_edges_between_ends() {
    for k in 1..=6 {
        let edges = vec![(1, 2); k];
        assert_eq!(counts(2, &edges, 1, 2).1, k as u64);
    }
}

#[test]
fn edge_order_does_not_change_count() {
    let grid = grid_3x3();
    let mut reversed = grid.clone();
    reversed.reverse();
    assert_eq!(counts(9, &reversed, 1, 9).1, 12);
    let mut rotated = grid.clone();
    rotated.rotate_left(5);
    assert_eq!(counts(9, &rotated, 1, 9).1, 12);
    let tri = [(1, 2), (2, 3), (1, 3), (1, 2)];
    let orders = [[0, 1, 2, 3], [3, 2, 1, 0], [2, 0, 3, 1], [1, 3, 0, 2]];
    for order in orders.iter() {
        let permuted: Vec<(usize, usize)> = order.iter().map(|&k| tri[k]).collect();
        assert_eq!(counts(3, &permuted, 1, 3).1, 3);
    }
}

#[test]
fn matches_brute_force() {
    let graphs: Vec<(usize, Vec<(usize, usize)>, usize, usize)> = vec![
        (4, vec![(1, 2), (1, 3), (2, 4), (3, 4)], 1, 4),
        (3, vec![(1, 2), (2, 3), (1, 3), (1, 2)], 1, 3),
        (9, grid_3x3(), 1, 9),
        (9, grid_3x3(), 5, 3),
        (5, vec![(1, 2), (1, 3), (1, 4), (1, 5), (2, 3), (2, 4), (2, 5), (3, 4), (3, 5), (4, 5)], 2, 4),
        (6, vec![(1, 2), (2, 3), (1, 4), (2, 5), (3, 6), (4, 5), (5, 6), (1, 5), (2, 6)], 1, 6),
        (4, vec![(1, 2), (2, 2), (2, 3), (3, 4), (2, 4)], 1, 4),
    ];
    for (nv, edges, s, t) in graphs {
        assert_eq!(counts(nv, &edges, s, t).1, brute_force(nv, &edges, s, t));
    }
}

#[test]
fn levels_hold_invariants() {
    let edge_list: Vec<Edge> = grid_3x3().iter().map(|&(a, b)| Edge::new(a, b)).collect();
    let state = State::new(Graph::new(9, edge_list), 1, 9).unwrap();
    let zdd = Frontier::new().construct(&state);
    assert_eq!(zdd.number_of_levels(), 14);
    assert_eq!(zdd.level(1).len(), 1);
    assert!(zdd.level(13).is_empty());
    for i in 1..zdd.number_of_levels() {
        let alive = state.frontier_at(i - 1);
        let level = zdd.level(i);
        for (j, n) in level.iter().enumerate() {
            for &v in alive.iter() {
                assert!(n.deg[v] <= 2);
                if v == 1 || v == 9 {
                    assert!(n.deg[v] <= 1);
                }
            }
            for v in 0..n.comp.len() {
                assert!(n.comp[v] <= v);
            }
            for other in level.iter().skip(j + 1) {
                let same = alive.iter().all(|&v| n.deg[v] == other.deg[v] && n.comp[v] == other.comp[v]);
                assert!(!same);
            }
        }
    }
}

#[test]
fn frontier_table_of_grid() {
    let edge_list: Vec<Edge> = grid_3x3().iter().map(|&(a, b)| Edge::new(a, b)).collect();
    let state = State::new(Graph::new(9, edge_list), 1, 9).unwrap();
    assert!(state.frontier_at(0).is_empty());
    assert!(state.frontier_at(12).is_empty());
    let mut f1 = state.frontier_at(1).clone();
    f1.sort();
    assert_eq!(f1, vec![1, 2]);
    let mut f6 = state.frontier_at(6).clone();
    f6.sort();
    assert_eq!(f6, vec![4, 5, 6]);
}

#[test]
fn solution_counts_stored_in_nodes() {
    let mut zdd = build(2, &[(1, 2), (1, 2)], 1, 2);
    assert_eq!(zdd.get_number_of_solutions(), 2);
    let root = &zdd.level(1)[0];
    assert_eq!(root.get_sol(), 2);
    assert_eq!(root.get_child(0), Child::Node(0));
    assert_eq!(root.get_child(1), Child::Node(1));
    let untaken = &zdd.level(2)[0];
    let taken = &zdd.level(2)[1];
    assert_eq!(untaken.get_child(1), Child::One);
    assert_eq!(taken.get_child(0), Child::One);
    assert_eq!(taken.get_child(1), Child::Zero);
    assert_eq!(untaken.get_sol(), 1);
    assert_eq!(zdd.get_number_of_nodes(), 5);
}

#[test]
fn terminals_of_frontier() {
    let f = Frontier::new();
    assert_eq!(f.zero_t.get_id(), 0);
    assert_eq!(f.zero_t.get_sol(), 0);
    assert_eq!(f.one_t.get_id(), 1);
    assert_eq!(f.one_t.get_sol(), 1);
}

#[test]
fn input_errors() {
    let g = |nv: usize, e: &[(usize, usize)]| {
        Graph::new(nv, e.iter().map(|&(a, b)| Edge::new(a, b)).collect())
    };
    assert_eq!(State::new(g(2, &[]), 1, 2).err(), Some(StateError::EmptyEdgeList));
    assert_eq!(State::new(g(2, &[(1, 3)]), 1, 2).err(), Some(StateError::InvalidVertex));
    assert_eq!(State::new(g(2, &[(0, 1)]), 1, 2).err(), Some(StateError::InvalidVertex));
    assert_eq!(State::new(g(2, &[(1, 2)]), 1, 3).err(), Some(StateError::InvalidVertex));
    assert_eq!(State::new(g(2, &[(1, 2)]), 0, 2).err(), Some(StateError::InvalidVertex));
    assert_eq!(State::new(g(2, &[(1, 2)]), 2, 2).err(), Some(StateError::SameEndpoints));
    assert_eq!(State::new(g(3, &[(1, 2)]), 1, 3).err(), Some(StateError::EndpointWithoutEdge));
    assert!(State::new(g(3, &[(1, 2), (2, 3)]), 1, 3).is_ok());
}

#[test]
fn ids_and_arc_order() {
    let edge_list: Vec<Edge> = grid_3x3().iter().map(|&(a, b)| Edge::new(a, b)).collect();
    let state = State::new(Graph::new(9, edge_list), 1, 9).unwrap();
    let zdd = Frontier::new().construct(&state);
    let mut expected_id = 2;
    for i in 1..zdd.number_of_levels() {
        for n in zdd.level(i).iter() {
            assert_eq!(n.get_id(), expected_id);
            expected_id += 1;
        }
    }
    assert_eq!(zdd.get_number_of_nodes(), expected_id);
    for i in 1..zdd.number_of_levels() - 1 {
        // node k of level i + 1 is first reached after node k - 1
        let mut seen = 0;
        for n in zdd.level(i).iter() {
            for x in 0..2 {
                if let Child::Node(k) = n.get_child(x) {
                    assert!(k <= seen);
                    if k == seen {
                        seen += 1;
                    }
                }
            }
        }
        assert_eq!(seen, zdd.level(i + 1).len());
    }
}

#[test]
fn frontier_rows_have_no_repeats() {
    let edges = [(1, 2), (1, 2), (2, 3), (1, 3), (3, 4), (2, 4)];
    let edge_list: Vec<Edge> = edges.iter().map(|&(a, b)| Edge::new(a, b)).collect();
    let state = State::new(Graph::new(4, edge_list), 1, 4).unwrap();
    for i in 0..=edges.len() {
        let row = state.frontier_at(i);
        let mut sorted = row.clone();
        sorted.sort();
        sorted.dedup();
        assert_eq!(sorted.len(), row.len());
        if i > 0 {
            assert!(row.len() <= state.frontier_at(i - 1).len() + 2);
        }
    }
}
