use badapple::graph::{Edge, Graph, GraphError, Vertex};
use badapple::heaviest::find_heaviest_subgraph;
use badapple::order::{order_by_weight, weighted_degrees};
use badapple::solver::{Bruteforcer, SolveError};

fn vertices(n: usize) -> Vec<Vertex> {
    (0..n).map(|i| Vertex([i as u8, 0, 0, 0])).collect()
}

fn edge(a: usize, b: usize, w: u64) -> Edge {
    Edge { a, b, w }
}

fn graph(n: usize, edges: &[(usize, usize, u64)]) -> Graph {
    Graph::new(vertices(n), edges.iter().map(|&(a, b, w)| edge(a, b, w)).collect()).unwrap()
}

fn search(g: Graph, k: usize) -> (u64, Vec<usize>) {
    let mut b = Bruteforcer::new(g, k).unwrap();
    b.solve();
    (b.best_weight_so_far(), b.best_subgraph_so_far().clone())
}

fn sample() -> Graph {
    graph(4, &[(0, 1, 5), (0, 2, 3), (1, 2, 4), (2, 3, 10), (1, 3, 1)])
}

fn induced_weight(edges: &[(usize, usize, u64)], set: &[usize]) -> u64 {
    edges
        .iter()
        .filter(|&&(a, b, _)| set.contains(&a) && set.contains(&b))
        .map(|&(_, _, w)| w)
        .sum()
}

fn brute_force(n: usize, edges: &[(usize, usize, u64)], k: usize) -> u64 {
    let mut best = 0;
    for mask in 0u32..(1u32 << n) {
        if mask.count_ones() as usize > k {
            continue;
        }
        let set: Vec<usize> = (0..n).filter(|&i| mask & (1 << i) != 0).collect();
        best = best.max(induced_weight(edges, &set));
    }
    best
}

fn pseudo_random_edges(n: usize, seed: u64) -> Vec<(usize, usize, u64)> {
    let mut state = seed;
    let mut edges = Vec::new();
    for a in 0..n {
        for b in (a + 1)..n {
            state = state.wrapping_mul(6364136223846793005).wrapping_add(1442695040888963407);
            let r = state >> 33;
            if r % 3 != 0 {
                let (x, y) = if r % 2 == 0 { (a, b) } else { (b, a) };
                edges.push((x, y, r % 17));
            }
        }
    }
    edges
}

#[test]
fn sample_size_two_picks_heaviest_edge() {
    let (w, s) = search(sample(), 2);
    assert_eq!(w, 10);
    assert_eq!(s, vec![2, 3]);
}

#[test]
fn sample_size_three_is_optimal() {
    // {1, 2, 3} weighs 4 + 10 + 1 = 15, more than {0, 1, 2} at 5 + 3 + 4 = 12.
    let (w, s) = search(sample(), 3);
    assert_eq!(w, 15);
    assert_eq!(s, vec![1, 2, 3]);
}

#[test]
fn pipeline_reports_graph_numbering() {
    let r = find_heaviest_subgraph(sample(), 2).unwrap();
    assert_eq!(r.weight, 10);
    let mut v = r.vertices.clone();
    v.sort();
    assert_eq!(v, vec![2, 3]);
    let r = find_heaviest_subgraph(sample(), 3).unwrap();
    assert_eq!(r.weight, 15);
    let mut v = r.vertices.clone();
    v.sort();
    assert_eq!(v, vec![1, 2, 3]);
}

#[test]
fn no_edges_weighs_nothing() {
    for n in 0..6 {
        for k in 1..7 {
            let (w, s) = search(graph(n, &[]), k);
            assert_eq!(w, 0);
            assert!(s.len() <= k);
            let r = find_heaviest_subgraph(graph(n, &[]), k).unwrap();
            assert_eq!(r.weight, 0);
        }
    }
}

#[test]
fn size_one_weighs_nothing() {
    let (w, s) = search(sample(), 1);
    assert_eq!(w, 0);
    assert!(s.len() <= 1);
}

#[test]
fn size_covering_complete_graph_takes_all_edges() {
    let mut edges = Vec::new();
    for a in 0..5 {
        for b in (a + 1)..5 {
            edges.push((a, b, (a * 7 + b * 3) as u64 % 5 + 1));
        }
    }
    let total: u64 = edges.iter().map(|e| e.2).sum();
    for k in 5..8 {
        let (w, s) = search(graph(5, &edges), k);
        assert_eq!(w, total);
        assert_eq!(s, vec![0, 1, 2, 3, 4]);
    }
}

#[test]
fn matches_brute_force_on_small_graphs() {
    for seed in 1..25u64 {
        let n = 3 + (seed as usize % 8);
        let edges = pseudo_random_edges(n, seed);
        for k in 1..=n {
            let expected = brute_force(n, &edges, k);
            let (w, s) = search(graph(n, &edges), k);
            assert_eq!(w, expected, "seed {} k {}", seed, k);
            assert!(s.len() <= k);
            assert_eq!(induced_weight(&edges, &s), w);
            let r = find_heaviest_subgraph(graph(n, &edges), k).unwrap();
            assert_eq!(r.weight, expected);
            assert!(r.vertices.len() <= k);
            assert_eq!(induced_weight(&edges, &r.vertices), r.weight);
        }
    }
}

#[test]
fn refinement_off_keeps_optimum() {
    for seed in 30..40u64 {
        let n = 4 + (seed as usize % 6);
        let edges = pseudo_random_edges(n, seed);
        for k in 1..=n {
            let (w_on, _) = search(graph(n, &edges), k);
            let mut b = Bruteforcer::new(graph(n, &edges), k).unwrap();
            b.set_cross_refinement(false);
            b.solve();
            assert_eq!(b.best_weight_so_far(), w_on);
        }
    }
}

#[test]
fn solving_twice_gives_same_weight() {
    let edges = pseudo_random_edges(9, 77);
    let (w1, _) = search(graph(9, &edges), 4);
    let (w2, _) = search(graph(9, &edges), 4);
    assert_eq!(w1, w2);
    let r = find_heaviest_subgraph(graph(9, &edges), 4).unwrap();
    assert_eq!(r.weight, w1);
}

#[test]
fn zero_size_is_rejected() {
    assert!(matches!(Bruteforcer::new(sample(), 0), Err(SolveError::ZeroSize)));
    assert!(matches!(find_heaviest_subgraph(sample(), 0), Err(SolveError::ZeroSize)));
}

#[test]
fn bad_edges_are_rejected() {
    let e = |a, b, w| edge(a, b, w);
    assert_eq!(
        Graph::new(vertices(3), vec![e(0, 1, 1), e(1, 3, 2)]).err(),
        Some(GraphError::VertexOutOfRange(1))
    );
    assert_eq!(
        Graph::new(vertices(3), vec![e(0, 1, 1), e(2, 2, 2)]).err(),
        Some(GraphError::SelfLoop(1))
    );
    assert_eq!(
        Graph::new(vertices(3), vec![e(0, 1, 1), e(1, 2, 2), e(1, 0, 3)]).err(),
        Some(GraphError::DuplicateEdge(2))
    );
    assert_eq!(
        Graph::new(vertices(3), vec![e(0, 1, u64::MAX), e(1, 2, 1)]).err(),
        Some(GraphError::WeightOverflow(1))
    );
    assert_eq!(
        Graph::new(vertices(3), vec![e(5, 5, 1), e(0, 0, 1)]).err(),
        Some(GraphError::VertexOutOfRange(0))
    );
    assert!(Graph::new(vertices(3), vec![e(0, 1, u64::MAX - 1), e(1, 2, 1)]).is_ok());
}

#[test]
fn vertices_ordered_by_weighted_degree() {
    let g = sample();
    let d = weighted_degrees(&g);
    assert_eq!(d, vec![8, 10, 17, 11]);
    assert_eq!(order_by_weight(&d), vec![2, 3, 1, 0]);
    assert_eq!(order_by_weight(&vec![3, 5, 3, 5]), vec![1, 3, 0, 2]);
}

#[test]
fn pair_weights_and_right_neighbors() {
    let b = Bruteforcer::new(sample(), 2).unwrap();
    assert_eq!(b.vertex_count(), 4);
    assert_eq!(b.pair_weight(0, 1), 5);
    assert_eq!(b.pair_weight(1, 0), 5);
    assert_eq!(b.pair_weight(3, 2), 10);
    assert_eq!(b.pair_weight(0, 3), 0);
    assert_eq!(b.pair_weight(2, 2), 0);
    let right: Vec<(usize, u64)> = b.right_neighbors(1).iter().map(|l| (l.v, l.w)).collect();
    assert_eq!(right, vec![(2, 4), (3, 1)]);
    assert!(b.right_neighbors(3).is_empty());
    let right: Vec<(usize, u64)> = b.right_neighbors(0).iter().map(|l| (l.v, l.w)).collect();
    assert_eq!(right, vec![(1, 5), (2, 3)]);
}

#[test]
fn bound_table_entries() {
    let b = Bruteforcer::new(sample(), 3).unwrap();
    assert_eq!(b.bound_table_width(), 3);
    assert_eq!(b.upper_limit(0, 0), 0);
    assert_eq!(b.upper_limit(0, 1), 0);
    assert_eq!(b.upper_limit(0, 2), 10);
    assert_eq!(b.upper_limit(0, 3), 19);
    assert_eq!(b.upper_limit(1, 3), 15);
    assert_eq!(b.upper_limit(2, 3), 10);
    assert_eq!(b.upper_limit(3, 3), 0);
    let wide = Bruteforcer::new(sample(), 10).unwrap();
    assert_eq!(wide.bound_table_width(), 4);
    assert_eq!(wide.upper_limit(0, 4), 23);
}

#[test]
fn same_subset_with_and_without_refinement() {
    for seed in 50..60u64 {
        let n = 4 + (seed as usize % 6);
        let edges = pseudo_random_edges(n, seed);
        for k in 1..=n {
            let (w_on, s_on) = search(graph(n, &edges), k);
            let (w_again, s_again) = search(graph(n, &edges), k);
            let mut b = Bruteforcer::new(graph(n, &edges), k).unwrap();
            b.set_cross_refinement(false);
            b.solve();
            assert_eq!(b.best_weight_so_far(), w_on);
            assert_eq!(b.best_subgraph_so_far(), &s_on);
            assert_eq!((w_again, s_again), (w_on, s_on.clone()));
        }
    }
}

#[test]
fn run_from_start_finds_optimum() {
    let mut b = Bruteforcer::new(sample(), 2).unwrap();
    b.run(0);
    assert_eq!(b.best_weight_so_far(), 10);
    assert_eq!(b.best_subgraph_so_far(), &vec![2, 3]);
    let mut b = Bruteforcer::new(graph(5, &[]), 3).unwrap();
    b.run(0);
    assert_eq!(b.best_weight_so_far(), 0);
    assert!(b.best_subgraph_so_far().is_empty());
}
