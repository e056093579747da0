use mst::disjoint_set::DisjointSet;
use mst::graph::{check_edges, check_square, convert_to_edges, MstError};
use mst::kruskal::{kruskal_edges, kruskal_mst};
use mst::prim::{get_min_vertice, prim_mst};
use mst::random::{generate_graph, generate_rand_number};

fn matrix(n: usize, edges: &[(usize, usize, usize)]) -> Vec<Vec<usize>> {
    let mut g = vec![vec![0usize; n]; n];
    for &(a, b, w) in edges {
        g[a][b] = w;
        g[b][a] = w;
    }
    g
}

fn four_vertex_graph() -> Vec<Vec<usize>> {
    matrix(4, &[(0, 1, 1), (0, 2, 4), (1, 2, 2), (1, 3, 6), (2, 3, 3)])
}

fn is_acyclic(n: usize, pairs: &[(usize, usize)]) -> bool {
    let mut ds = DisjointSet::new(n);
    for &(a, b) in pairs {
        if ds.find_parent(a) == ds.find_parent(b) {
            return false;
        }
        ds.merge_path(a, b);
    }
    true
}

#[test]
fn four_vertex_scenario_prim() {
    let (parents, weights) = prim_mst(four_vertex_graph(), 4).unwrap();
    assert_eq!(parents, vec![0, 1, 2]);
    assert_eq!(weights, vec![1, 2, 3]);
    assert_eq!(weights.iter().sum::<usize>(), 6);
}

#[test]
fn four_vertex_scenario_kruskal() {
    let (from, weights) = kruskal_mst(four_vertex_graph(), 4, true).unwrap();
    assert_eq!(from, vec![0, 0, 0]);
    assert_eq!(weights, vec![1, 2, 3]);
    assert_eq!(weights.iter().sum::<usize>(), 6);
}

#[test]
fn kruskal_on_prebuilt_edge_list() {
    let edges = convert_to_edges(four_vertex_graph());
    let (from, weights) = kruskal_mst(edges, 4, false).unwrap();
    assert_eq!(from, vec![0, 0, 0]);
    assert_eq!(weights, vec![1, 2, 3]);
}

#[test]
fn same_total_weight_with_distinct_weights() {
    let g = matrix(
        6,
        &[(0, 1, 7), (0, 2, 9), (0, 5, 14), (1, 2, 10), (1, 3, 15), (2, 3, 11), (2, 5, 2), (3, 4, 6), (4, 5, 8)],
    );
    let (_, pw) = prim_mst(g.clone(), 6).unwrap();
    let (_, kw) = kruskal_mst(g, 6, true).unwrap();
    assert_eq!(pw.len(), 5);
    assert_eq!(kw.len(), 5);
    assert_eq!(pw.iter().sum::<usize>(), 32);
    assert_eq!(kw.iter().sum::<usize>(), 32);
}

#[test]
fn connected_graph_gives_n_minus_one_entries() {
    let g = matrix(5, &[(0, 1, 3), (1, 2, 3), (2, 3, 3), (3, 4, 3), (0, 4, 3), (1, 3, 3)]);
    assert_eq!(prim_mst(g.clone(), 5).unwrap().0.len(), 4);
    assert_eq!(kruskal_mst(g, 5, true).unwrap().0.len(), 4);
}

#[test]
fn disconnected_graph_gives_forest() {
    let g = matrix(5, &[(0, 1, 5), (2, 3, 1), (3, 4, 2)]);
    let (kf, kw) = kruskal_mst(g.clone(), 5, true).unwrap();
    assert_eq!(kf.len(), 3);
    assert_eq!(kw, vec![1, 2, 5]);
    let (pp, pw) = prim_mst(g, 5).unwrap();
    // vertex 2, unreached, still joins the tree in its round and reaches 3 and 4
    assert_eq!(pp, vec![0, 2, 3]);
    assert_eq!(pw, vec![5, 1, 2]);
}

#[test]
fn prim_tree_is_acyclic() {
    let g = matrix(6, &[(0, 1, 4), (0, 2, 4), (1, 2, 2), (2, 3, 3), (3, 4, 2), (4, 5, 3), (3, 5, 4), (1, 4, 4)]);
    let (parents, weights) = prim_mst(g.clone(), 6).unwrap();
    assert_eq!(parents.len(), 5);
    let pairs: Vec<(usize, usize)> = (1..6).zip(parents.iter().copied()).collect();
    assert!(is_acyclic(6, &pairs));
    for (k, &(v, p)) in pairs.iter().enumerate() {
        assert_eq!(g[v][p], weights[k]);
    }
}

#[test]
fn kruskal_kept_edges_are_acyclic() {
    let g = matrix(5, &[(0, 1, 1), (1, 2, 1), (0, 2, 1), (2, 3, 2), (3, 4, 2), (2, 4, 2)]);
    let (from, weights) = kruskal_mst(g, 5, true).unwrap();
    assert_eq!(from.len(), 4);
    assert_eq!(weights, vec![1, 1, 2, 2]);
}

#[test]
fn empty_and_single_vertex_graphs() {
    assert_eq!(prim_mst(vec![], 0).unwrap(), (vec![], vec![]));
    assert_eq!(prim_mst(vec![vec![0]], 1).unwrap(), (vec![], vec![]));
    assert_eq!(kruskal_mst(vec![], 0, true).unwrap(), (vec![], vec![]));
    assert_eq!(kruskal_mst(vec![vec![0]], 1, true).unwrap(), (vec![], vec![]));
    assert_eq!(prim_mst(vec![vec![0, 0], vec![0, 0]], 2).unwrap(), (vec![], vec![]));
}

#[test]
fn prim_weight_largest_value() {
    let g = matrix(2, &[(0, 1, usize::MAX)]);
    assert_eq!(prim_mst(g.clone(), 2).unwrap(), (vec![0], vec![usize::MAX]));
    assert_eq!(kruskal_mst(g, 2, true).unwrap(), (vec![0], vec![usize::MAX]));
}

#[test]
fn prim_reports_weight_from_row_of_vertex() {
    // asymmetric input: the weight reported is graph[v][parent[v]]
    let g = vec![vec![0, 5], vec![7, 0]];
    assert_eq!(prim_mst(g, 2).unwrap(), (vec![0], vec![7]));
}

#[test]
fn not_square_is_refused() {
    assert_eq!(prim_mst(vec![vec![0, 1], vec![1, 0]], 3), Err(MstError::NotSquare));
    assert_eq!(prim_mst(vec![vec![0, 1], vec![1]], 2), Err(MstError::NotSquare));
    assert_eq!(kruskal_mst(vec![vec![0, 1, 2]], 3, true), Err(MstError::NotSquare));
    assert!(!check_square(&vec![vec![0, 1], vec![1]], 2));
    assert!(check_square(&vec![vec![0, 1], vec![1, 0]], 2));
}

#[test]
fn malformed_edge_is_refused() {
    assert_eq!(kruskal_mst(vec![vec![0, 1, 2], vec![0, 1]], 2, false), Err(MstError::MalformedEdge));
    assert_eq!(check_edges(&vec![vec![0, 9, 1], vec![1]], 2), Err(MstError::MalformedEdge));
}

#[test]
fn out_of_range_vertex_is_refused() {
    assert_eq!(kruskal_mst(vec![vec![0, 1, 2], vec![1, 2, 3]], 2, false), Err(MstError::VertexOutOfRange));
    assert_eq!(check_edges(&vec![vec![0, 1, 2]], 2), Ok(()));
}

#[test]
fn conversion_lists_each_ordered_pair_once() {
    let g = matrix(4, &[(0, 1, 1), (0, 2, 4), (1, 2, 2), (1, 3, 6), (2, 3, 3)]);
    let edges = convert_to_edges(g);
    assert_eq!(edges.len(), 10);
    for e in &edges {
        assert_eq!(e.len(), 3);
        assert_ne!(e[0], e[1]);
        assert_ne!(e[2], 0);
        assert!(edges.contains(&vec![e[1], e[0], e[2]]));
    }
    assert_eq!(edges[0], vec![0, 1, 1]);
    assert_eq!(edges[1], vec![0, 2, 4]);
    assert_eq!(edges[2], vec![1, 0, 1]);
}

#[test]
fn conversion_skips_diagonal_and_zeros() {
    let g = vec![vec![5, 0, 3], vec![0, 9, 0], vec![3, 0, 0]];
    assert_eq!(convert_to_edges(g), vec![vec![0, 2, 3], vec![2, 0, 3]]);
    assert_eq!(convert_to_edges(vec![]), Vec::<Vec<usize>>::new());
}

#[test]
fn kruskal_keeps_list_order_on_equal_weights() {
    let edges = vec![vec![2, 3, 1], vec![0, 1, 1], vec![1, 2, 1]];
    let (from, weights) = kruskal_edges(&edges, 4);
    assert_eq!(from, vec![2, 0, 0]);
    assert_eq!(weights, vec![1, 1, 1]);
}

#[test]
fn kruskal_sorts_by_weight() {
    let edges = vec![vec![0, 1, 9], vec![1, 2, 3], vec![0, 2, 4]];
    let (from, weights) = kruskal_edges(&edges, 3);
    assert_eq!(from, vec![1, 0]);
    assert_eq!(weights, vec![3, 4]);
}

#[test]
fn min_vertex_takes_least_key() {
    let keys = vec![Some(0), Some(5), Some(2), None];
    assert_eq!(get_min_vertice(&keys, &vec![true, false, false, false], 4), 2);
    assert_eq!(get_min_vertice(&keys, &vec![false, false, false, false], 4), 0);
}

#[test]
fn min_vertex_breaks_ties_by_index() {
    let keys = vec![Some(3), Some(1), Some(1), Some(1)];
    assert_eq!(get_min_vertice(&keys, &vec![false, false, false, false], 4), 1);
    assert_eq!(get_min_vertice(&keys, &vec![false, true, false, false], 4), 2);
}

#[test]
fn min_vertex_prefers_reached_then_lowest_unreached() {
    let keys = vec![Some(0), None, Some(usize::MAX), None];
    assert_eq!(get_min_vertice(&keys, &vec![true, false, false, false], 4), 2);
    assert_eq!(get_min_vertice(&keys, &vec![true, false, true, false], 4), 1);
}

#[test]
fn disjoint_set_starts_as_singletons() {
    let mut ds = DisjointSet::new(4);
    for v in 0..4 {
        assert_eq!(ds.find_parent(v), v);
    }
}

#[test]
fn disjoint_set_union_is_transitive() {
    let mut ds = DisjointSet::new(6);
    ds.merge_path(0, 1);
    ds.merge_path(2, 3);
    ds.merge_path(1, 3);
    let r = ds.find_parent(0);
    assert_eq!(ds.find_parent(1), r);
    assert_eq!(ds.find_parent(2), r);
    assert_eq!(ds.find_parent(3), r);
    assert_ne!(ds.find_parent(4), r);
    assert_ne!(ds.find_parent(4), ds.find_parent(5));
    assert_eq!(ds.find_parent(5), 5);
}

#[test]
fn disjoint_set_find_is_idempotent() {
    let mut ds = DisjointSet::new(5);
    ds.merge_path(3, 4);
    ds.merge_path(4, 2);
    let a = ds.find_parent(2);
    let b = ds.find_parent(2);
    assert_eq!(a, b);
    assert_eq!(ds.find_parent(a), a);
}

#[test]
fn disjoint_set_union_by_rank() {
    let mut ds = DisjointSet::new(5);
    // equal ranks: the root of the second goes under that of the first
    ds.merge_path(0, 1);
    assert_eq!(ds.find_parent(1), 0);
    // lower rank goes under higher rank, whichever side it is on
    ds.merge_path(2, 0);
    assert_eq!(ds.find_parent(2), 0);
    ds.merge_path(3, 4);
    assert_eq!(ds.find_parent(4), 3);
    ds.merge_path(3, 1);
    // equal ranks 1 and 1: root 3 takes root 0
    assert_eq!(ds.find_parent(0), 3);
    assert_eq!(ds.find_parent(2), 3);
}

#[test]
fn disjoint_set_merge_within_class_changes_nothing() {
    let mut ds = DisjointSet::new(3);
    ds.merge_path(0, 1);
    ds.merge_path(1, 0);
    ds.merge_path(2, 0);
    assert_eq!(ds.find_parent(2), 0);
    let mut other = DisjointSet::new(4);
    other.merge_path(0, 1);
    other.merge_path(0, 1);
    other.merge_path(2, 3);
    other.merge_path(2, 0);
    // ranks 1 and 1: root 2 wins, so root 0's rank did not grow
    assert_eq!(other.find_parent(1), 2);
}

#[test]
fn random_number_in_range() {
    for _ in 0..100 {
        let r = generate_rand_number(12);
        assert!((10..12).contains(&r));
    }
}

#[test]
fn random_graph_shape() {
    let g = generate_graph(7, 20);
    assert_eq!(g.len(), 7);
    for row in &g {
        assert_eq!(row.len(), 7);
        assert!(row.iter().all(|&w| (10..20).contains(&w)));
    }
    let (parents, _) = prim_mst(g.clone(), 7).unwrap();
    assert_eq!(parents.len(), 6);
    let (from, _) = kruskal_mst(g, 7, true).unwrap();
    assert_eq!(from.len(), 6);
}
