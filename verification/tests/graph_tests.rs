use lib::graph::CellGraph;
use lib::rng::Rng;
use std::collections::HashMap;

fn graph_of(n: usize, edges: &[(usize, usize)]) -> CellGraph {
    let mut map: HashMap<usize, Vec<usize>> = HashMap::new();
    for i in 0..n {
        map.insert(i, Vec::new());
    }
    for &(a, b) in edges {
        CellGraph::add_edge(&mut map, a, b);
    }
    CellGraph { edges: map, node_count: n }
}

fn threshold_for(p: f64) -> u64 {
    let (mut lo, mut hi) = (0u64, u64::MAX);
    if (hi as f64) / (u64::MAX as f64) < p {
        return u64::MAX;
    }
    while lo < hi {
        let mid = lo + (hi - lo) / 2;
        if (mid as f64) / (u64::MAX as f64) < p {
            lo = mid + 1;
        } else {
            hi = mid;
        }
    }
    lo
}

#[test]
fn add_edge_lists_both_ends() {
    let g = graph_of(3, &[(0, 1)]);
    assert_eq!(g.neighbors(0), vec![1]);
    assert_eq!(g.neighbors(1), vec![0]);
    assert!(g.neighbors(2).is_empty());
}

#[test]
fn add_edge_self_loop_is_nothing() {
    let g = graph_of(2, &[(1, 1)]);
    assert!(g.neighbors(1).is_empty());
}

#[test]
fn add_edge_twice_is_once() {
    let g = graph_of(3, &[(0, 1), (1, 0), (0, 1), (0, 2)]);
    assert_eq!(g.neighbors(0), vec![1, 2]);
    assert_eq!(g.neighbors(1), vec![0]);
    assert_eq!(g.neighbors(2), vec![0]);
}

#[test]
fn add_edge_creates_missing_lists() {
    let mut map: HashMap<usize, Vec<usize>> = HashMap::new();
    CellGraph::add_edge(&mut map, 7, 9);
    assert_eq!(map.get(&7), Some(&vec![9]));
    assert_eq!(map.get(&9), Some(&vec![7]));
}

#[test]
fn remove_edge_undoes_add_edge() {
    let mut g = graph_of(4, &[(0, 1), (1, 2)]);
    let before = g.edges.clone();
    CellGraph::add_edge(&mut g.edges, 0, 3);
    CellGraph::remove_edge(&mut g.edges, 0, 3);
    assert_eq!(g.edges, before);
}

#[test]
fn remove_edge_cuts_both_ends() {
    let mut g = graph_of(3, &[(0, 1), (0, 2)]);
    CellGraph::remove_edge(&mut g.edges, 1, 0);
    assert_eq!(g.neighbors(0), vec![2]);
    assert!(g.neighbors(1).is_empty());
    CellGraph::remove_edge(&mut g.edges, 5, 6);
    assert!(!g.edges.contains_key(&5));
}

#[test]
fn neighbors_of_unknown_node_is_empty() {
    let g = graph_of(2, &[(0, 1)]);
    assert!(g.neighbors(42).is_empty());
}

#[test]
fn path_is_connected() {
    let g = graph_of(4, &[(0, 1), (1, 2), (2, 3)]);
    assert!(g.is_connected(&[true, true, true, true]));
}

#[test]
fn dead_middle_splits_path() {
    let g = graph_of(4, &[(0, 1), (1, 2), (2, 3)]);
    assert!(!g.is_connected(&[true, true, false, true]));
    assert!(g.is_connected(&[false, true, true, true]));
    assert!(g.is_connected(&[true, true, true, false]));
}

#[test]
fn no_alive_node_counts_as_connected() {
    let g = graph_of(3, &[]);
    assert!(g.is_connected(&[false, false, false]));
    assert!(g.is_connected(&[]));
}

#[test]
fn isolated_alive_node_disconnects() {
    let g = graph_of(3, &[(0, 1)]);
    assert!(!g.is_connected(&[true, true, true]));
    assert!(g.is_connected(&[true, true, false]));
}

#[test]
fn star_centre_is_most_connected() {
    let g = graph_of(5, &[(3, 0), (3, 1), (3, 2), (3, 4), (0, 1)]);
    assert_eq!(g.most_connected(&[true; 5]), 3);
    let best = g.most_connected(&[true, true, true, false, true]);
    assert!(best == 0 || best == 1);
}

#[test]
fn most_connected_without_alive_neighbor_is_zero() {
    let g = graph_of(3, &[(1, 2)]);
    assert_eq!(g.most_connected(&[false, false, false]), 0);
    assert_eq!(g.most_connected(&[true, false, false]), 0);
}

#[test]
fn ring_lattice_without_rewiring() {
    let mut rng = Rng::new(42);
    let g = CellGraph::new_small_world(20, 0, &mut rng);
    assert_eq!(g.node_count, 20);
    for i in 0..20usize {
        let mut got = g.neighbors(i);
        got.sort();
        let mut want = vec![(i + 19) % 20, (i + 1) % 20, (i + 18) % 20, (i + 2) % 20];
        want.sort();
        assert_eq!(got, want);
    }
    let mut fresh = Rng::new(42);
    for _ in 0..80 {
        fresh.next_u64();
    }
    assert_eq!(rng.next_u64(), fresh.next_u64());
}

#[test]
fn small_world_is_symmetric_and_simple() {
    let mut rng = Rng::new(42);
    let g = CellGraph::new_small_world(20, threshold_for(0.3), &mut rng);
    assert!(g.fits_within(20));
    for i in 0..20usize {
        let list = g.neighbors(i);
        for (j, &x) in list.iter().enumerate() {
            assert!(x < 20 && x != i);
            assert!(g.neighbors(x).contains(&i));
            assert!(!list[j + 1..].contains(&x));
        }
    }
}

#[test]
fn small_world_is_deterministic() {
    let t = threshold_for(0.3);
    let g1 = CellGraph::new_small_world(20, t, &mut Rng::new(7));
    let g2 = CellGraph::new_small_world(20, t, &mut Rng::new(7));
    assert_eq!(g1.edges, g2.edges);
}

#[test]
fn tiny_small_worlds() {
    let g0 = CellGraph::new_small_world(0, u64::MAX, &mut Rng::new(1));
    assert!(g0.edges.is_empty());
    let g2 = CellGraph::new_small_world(2, 0, &mut Rng::new(1));
    assert_eq!(g2.neighbors(0), vec![1]);
    assert_eq!(g2.neighbors(1), vec![0]);
}

#[test]
fn isolate_cuts_every_edge() {
    let mut g = graph_of(5, &[(0, 1), (0, 2), (0, 3), (3, 4)]);
    g.isolate(0);
    assert!(g.neighbors(0).is_empty());
    for i in 1..5 {
        assert!(!g.neighbors(i).contains(&0));
    }
    assert_eq!(g.neighbors(3), vec![4]);
}

#[test]
fn fits_within_checks_ids() {
    let g = graph_of(3, &[(0, 1)]);
    assert!(g.fits_within(3));
    assert!(!g.fits_within(2));
    let mut map: HashMap<usize, Vec<usize>> = HashMap::new();
    map.insert(0, vec![5]);
    let bad = CellGraph { edges: map, node_count: 1 };
    assert!(!bad.fits_within(1));
}

#[test]
fn hub_death_keeps_ring_connected() {
    let mut rng = Rng::new(42);
    let mut g = CellGraph::new_small_world(20, threshold_for(0.3), &mut rng);
    let mut alive = vec![true; 20];
    assert!(g.is_connected(&alive));
    let hub = g.most_connected(&alive);
    alive[hub] = false;
    g.isolate(hub);
    assert!(g.neighbors(hub).is_empty());
    let ring = CellGraph::new_small_world(20, 0, &mut Rng::new(1));
    let mut ring = ring;
    ring.isolate(5);
    let mut alive2 = vec![true; 20];
    alive2[5] = false;
    assert!(ring.is_connected(&alive2));
}

#[test]
fn connectivity_does_not_depend_on_start() {
    let g = graph_of(5, &[(0, 1), (1, 2), (3, 4)]);
    assert!(!g.is_connected(&[true; 5]));
    assert!(g.is_connected(&[false, false, false, true, true]));
    assert!(g.is_connected(&[false, true, true, false, false]));
    assert!(!g.is_connected(&[false, true, false, true, false]));
}

#[test]
fn most_connected_ignores_dead_hub() {
    let g = graph_of(5, &[(0, 1), (0, 2), (0, 3), (3, 4)]);
    assert_eq!(g.most_connected(&[true; 5]), 0);
    assert_eq!(g.most_connected(&[false, true, true, true, true]), 3);
}

#[test]
fn keys_within_checks_listed_nodes() {
    let g = graph_of(3, &[(0, 1)]);
    assert!(g.keys_within(3));
    assert!(!g.keys_within(2));
    let mut map: HashMap<usize, Vec<usize>> = HashMap::new();
    map.insert(0, vec![5]);
    let h = CellGraph { edges: map, node_count: 1 };
    assert!(h.keys_within(1));
}
