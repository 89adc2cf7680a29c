use std::collections::{HashMap, HashSet};

use scj_carp::gfa::{get_or_set_node_id, parse_marker, GraphBuilder};
use scj_carp::mbg::{TrimError, MBG};
use scj_carp::trim::{find_solid_neighbors, has_deleted_neighbor, trim_vertices};
use scj_carp::measure::{
    calc_carp_measure_multithread, calc_carp_measure_naive, calc_partial_measure, carp_measure_from_adjacencies,
};
use scj_carp::rearrangement::{canonicize, hdtl_fmt, head, other, tail, to_adjacency, Adjacency, Marker, TELOMERE};
use scj_carp::scan::{adjacency_neighborhood, scan_enumerate, scan_graph};
use scj_carp::util::{find_dups, is_my_adjacency, naive_hash, pretty_adjacency, pretty_extremity};

fn graph_from_edges(sizes: &[(Marker, usize)], edges: &[Adjacency]) -> MBG {
    let names: Vec<(String, Marker)> = sizes.iter().map(|(m, _)| (format!("m{m}"), *m)).collect();
    let adj = edges.iter().map(|(x, y)| (*x, vec![*y])).collect();
    MBG::from_hash_maps(sizes.to_vec(), adj, names)
}

fn adjacency_set(g: &MBG) -> HashSet<Adjacency> {
    g.iter_adjacencies().into_iter().collect()
}

fn marker_sizes(g: &MBG) -> HashSet<(Marker, usize)> {
    g.markers().into_iter().map(|m| (m, g.node_size(m).unwrap())).collect()
}

/// Four markers: both heads of 1 and 2 meet the tail of 4, and so on.
fn reference_graph() -> MBG {
    graph_from_edges(
        &[(1, 5), (2, 2), (3, 0), (4, 6)],
        &[(head(1), tail(4)), (head(2), tail(4)), (tail(3), tail(2)), (head(3), head(4)), (tail(1), head(4))],
    )
}

/// A chain with small markers in between, a branch and a self-adjacency.
fn mixed_graph() -> MBG {
    let sizes = [(1, 10), (2, 1), (3, 7), (4, 0), (5, 12), (6, 2), (7, 9), (8, 1)];
    let edges = [
        (head(1), tail(2)),
        (head(2), tail(3)),
        (head(3), tail(4)),
        (head(4), tail(5)),
        (head(4), tail(7)),
        (head(5), tail(6)),
        (head(6), head(6)),
        (head(7), tail(8)),
        (head(8), TELOMERE),
        (tail(1), TELOMERE),
    ];
    graph_from_edges(&sizes, &edges)
}

#[test]
fn reference_graph_has_four_contested_and_one_uncontested() {
    let g = reference_graph();
    let (c, u) = calc_carp_measure_multithread(&g, 3);
    assert_eq!(c.len(), 4);
    assert_eq!(u.len(), 1);
    assert_eq!(u, vec![(tail(2), tail(3))]);
    assert_eq!(carp_measure_from_adjacencies(&g.iter_adjacencies()), 4);
}

#[test]
fn self_loop_on_head_is_contested_and_telomere_edge_is_not() {
    let g = graph_from_edges(&[(1, 1)], &[(head(1), head(1)), (tail(1), TELOMERE)]);
    let (c, u) = calc_carp_measure_multithread(&g, 1);
    assert_eq!(c, vec![(head(1), head(1))]);
    assert_eq!(u, vec![(TELOMERE, tail(1))]);
    assert_eq!(g.degree(head(1)), Some(2));
    assert_eq!(g.degree(tail(1)), Some(1));
}

#[test]
fn trimming_cycle_joins_neighbors_of_removed_marker() {
    let mut g = graph_from_edges(
        &[(1, 3), (2, 2), (3, 1)],
        &[(head(1), tail(2)), (head(2), tail(3)), (head(3), tail(1))],
    );
    g.trim_singlethread(2);
    let expect: HashSet<Adjacency> = [(tail(1), head(2)), (head(1), tail(2))].into_iter().collect();
    assert_eq!(adjacency_set(&g), expect);
    assert_eq!(g.markers(), vec![1, 2]);
    assert_eq!(g.num_markers(), 2);
}

#[test]
fn trimming_strategies_agree() {
    for thresh in 0..14 {
        let mut single = mixed_graph();
        single.fill_telomeres();
        single.trim_singlethread(thresh);
        for k in 1..7 {
            let mut multi = mixed_graph();
            multi.fill_telomeres();
            multi.trim_multithread(thresh, k);
            assert_eq!(adjacency_set(&single), adjacency_set(&multi));
            assert_eq!(marker_sizes(&single), marker_sizes(&multi));
            let mut any = mixed_graph();
            any.fill_telomeres();
            any.trim_any(thresh, k);
            assert_eq!(adjacency_set(&single), adjacency_set(&any));
        }
    }
}

#[test]
fn trimming_through_head_self_loop_links_tail_neighbors() {
    // Marker 2 (size 1) has a self-adjacency on its head; its tail meets 1 and 3.
    let mut g = graph_from_edges(
        &[(1, 5), (2, 1), (3, 5)],
        &[(head(1), tail(2)), (head(3), tail(2)), (head(2), head(2))],
    );
    g.trim_singlethread(2);
    let expect: HashSet<Adjacency> = [
        (head(1), head(1)),
        (head(1), head(3)),
        (head(3), head(3)),
    ]
    .into_iter()
    .collect();
    assert_eq!(adjacency_set(&g), expect);
}

#[test]
fn trimming_never_joins_telomere_to_itself() {
    let mut g = graph_from_edges(&[(1, 1)], &[(head(1), TELOMERE), (tail(1), TELOMERE)]);
    g.trim_singlethread(5);
    assert!(adjacency_set(&g).is_empty());
    assert_eq!(g.num_extremities(), 0);
    assert_eq!(g.degree(TELOMERE), Some(0));
}

#[test]
fn filling_telomeres_twice_changes_nothing() {
    let mut g = graph_from_edges(&[(1, 4), (2, 4)], &[(head(1), tail(2))]);
    g.fill_telomeres();
    let once = adjacency_set(&g);
    let expect: HashSet<Adjacency> =
        [(head(1), tail(2)), (TELOMERE, tail(1)), (TELOMERE, head(2))].into_iter().collect();
    assert_eq!(once, expect);
    g.fill_telomeres();
    assert_eq!(adjacency_set(&g), once);
}

#[test]
fn measure_is_a_partition_for_every_slicing() {
    let mut g = mixed_graph();
    g.fill_telomeres();
    let all = adjacency_set(&g);
    let (c1, u1) = calc_carp_measure_multithread(&g, 1);
    let c1: HashSet<Adjacency> = c1.into_iter().collect();
    let u1: HashSet<Adjacency> = u1.into_iter().collect();
    assert!(c1.is_disjoint(&u1));
    assert_eq!(c1.union(&u1).copied().collect::<HashSet<_>>(), all);
    for k in 2..9 {
        let (c, u) = calc_carp_measure_multithread(&g, k);
        assert_eq!(c.into_iter().collect::<HashSet<_>>(), c1);
        assert_eq!(u.into_iter().collect::<HashSet<_>>(), u1);
    }
}

#[test]
fn partial_measure_keeps_owned_adjacencies_only() {
    let g = reference_graph();
    let (c, u) = calc_partial_measure(&g, &[tail(4)], 0);
    for a in c.iter().chain(u.iter()) {
        assert!(a.0 == tail(4) || a.1 == tail(4));
    }
}

#[test]
fn extremity_count_follows_marker_count() {
    let mut g = graph_from_edges(&[(1, 4), (2, 4), (3, 1)], &[(head(1), tail(2))]);
    assert_eq!(g.num_markers(), 3);
    assert_eq!(g.num_extremities(), 6);
    g.fill_telomeres();
    assert_eq!(g.num_extremities(), 7);
    g.trim_singlethread(2);
    assert_eq!(g.num_markers(), 2);
    assert_eq!(g.num_extremities(), 5);
}

#[test]
fn degree_is_defined_only_for_active_markers() {
    let mut g = graph_from_edges(&[(1, 4), (2, 1)], &[(head(1), tail(2))]);
    for m in 1..3 {
        assert!(g.degree(tail(m)).is_some());
        assert!(g.degree(head(m)).is_some());
    }
    g.trim_singlethread(2);
    assert!(g.degree(tail(2)).is_none());
    assert!(g.degree(head(2)).is_none());
    assert!(g.degree(tail(9)).is_none());
    assert!(g.node_size(2).is_none());
    assert!(g.node_size(TELOMERE).is_none());
    assert_eq!(g.node_size(1), Some(4));
}

#[test]
fn unnamed_markers_are_masked() {
    let g = MBG::from_hash_maps(
        vec![(1, 3), (2, 3)],
        vec![(head(1), vec![tail(2)])],
        vec![(String::from("a"), 1)],
    );
    assert_eq!(g.markers(), vec![1]);
    assert!(g.adj_neighbors(head(1)).unwrap().is_empty());
    assert_eq!(g.name_to_marker("a"), Some(1));
    assert_eq!(g.name_to_marker("b"), None);
    assert_eq!(g.marker_names(), HashMap::from([(1, String::from("a"))]));
}

#[test]
fn neighborhood_of_marker() {
    let mut g = mixed_graph();
    g.fill_telomeres();
    // Marker 3 has size 7: half of it fits in depth 3, not in depth 2.
    assert!(adjacency_neighborhood(3, 2, &g).is_empty());
    // Marker 4 has size 0, so its far end is reached at no extra cost.
    let near: HashSet<Adjacency> = adjacency_neighborhood(3, 3, &g).into_iter().collect();
    let expect: HashSet<Adjacency> =
        [(head(2), tail(3)), (head(3), tail(4)), (head(4), tail(5)), (head(4), tail(7))].into_iter().collect();
    assert_eq!(near, expect);
    // One more unit pays for marker 2 (size 1).
    let further: HashSet<Adjacency> = adjacency_neighborhood(3, 4, &g).into_iter().collect();
    let expect: HashSet<Adjacency> = [
        (head(2), tail(3)),
        (head(3), tail(4)),
        (head(4), tail(5)),
        (head(4), tail(7)),
        (head(1), tail(2)),
    ]
    .into_iter()
    .collect();
    assert_eq!(further, expect);
    assert!(adjacency_neighborhood(42, 100, &g).is_empty());
}

#[test]
fn scan_reports_neighborhood_measure() {
    let mut g = mixed_graph();
    g.fill_telomeres();
    for d in [0, 3, 5, 20, 100] {
        let scan = scan_graph(&g, d);
        let part = scan_enumerate(&g, d, 0, 100, 0);
        assert_eq!(scan, part);
        for m in g.markers() {
            let direct = carp_measure_from_adjacencies(&adjacency_neighborhood(m, d, &g));
            assert_eq!(scan[&m], direct);
        }
        assert_eq!(scan.len(), g.num_markers());
    }
}

#[test]
fn measure_of_adjacency_list() {
    assert_eq!(carp_measure_from_adjacencies(&Vec::new()), 0);
    let list = vec![(2, 5), (5, 8), (3, 3), (0, 4)];
    assert_eq!(carp_measure_from_adjacencies(&list), 3);
}

#[test]
fn extremity_arithmetic() {
    assert_eq!(other(TELOMERE), TELOMERE);
    assert_eq!(other(4), 5);
    assert_eq!(other(5), 4);
    assert_eq!(canonicize((7, 3)), (3, 7));
    assert_eq!(canonicize((3, 7)), (3, 7));
    assert_eq!(to_adjacency((true, 1), (true, 2)), (head(1), tail(2)));
    assert_eq!(to_adjacency((false, 1), (false, 2)), (tail(1), head(2)));
    assert_eq!(hdtl_fmt(84), "42t");
    assert_eq!(hdtl_fmt(85), "42h");
    assert_eq!(hdtl_fmt(1), "0h");
}

#[test]
fn ownership_hash() {
    assert_eq!(naive_hash(0), 7001);
    assert_eq!(naive_hash(1), 6809);
    assert_eq!(naive_hash(7919), 7001);
    for x in 0..50 {
        for y in 0..50 {
            if x != y {
                assert_ne!(is_my_adjacency((x, y)), is_my_adjacency((y, x)));
            } else {
                assert!(is_my_adjacency((x, y)));
            }
        }
    }
}

#[test]
fn duplicates_are_reported_in_order() {
    assert_eq!(find_dups(&vec![(1, 2), (3, 4), (1, 2), (1, 2), (3, 4)]), vec![(1, 2), (1, 2), (3, 4)]);
    assert!(find_dups(&vec![(1, 2), (2, 1)]).is_empty());
}

#[test]
fn names_are_assigned_once() {
    let mut ids: Vec<(String, Marker)> = Vec::new();
    assert_eq!(get_or_set_node_id(&mut ids, 1, String::from("x")), (2, 1));
    assert_eq!(get_or_set_node_id(&mut ids, 2, String::from("y")), (3, 2));
    assert_eq!(get_or_set_node_id(&mut ids, 3, String::from("x")), (3, 1));
    assert_eq!(ids.len(), 2);
    assert_eq!(parse_marker(&mut ids, "-y", 3), (3, false, 2));
    assert_eq!(parse_marker(&mut ids, "+z", 3), (4, true, 3));
    assert_eq!(parse_marker(&mut ids, "w", 4), (5, true, 4));
    assert_eq!(parse_marker(&mut ids, "+-x", 5), (5, false, 1));
    assert_eq!(ids.len(), 4);
}

#[test]
fn pretty_printing_uses_names() {
    let names: HashMap<Marker, String> = HashMap::from([(1, String::from("a")), (2, String::from("b"))]);
    assert_eq!(pretty_extremity(&names, tail(1)), "a_t");
    assert_eq!(pretty_extremity(&names, head(2)), "b_h");
    assert_eq!(pretty_adjacency(&names, (head(1), tail(2))), "a_h-b_t");
}

#[test]
fn naive_measure_agrees_with_partitioned() {
    let g = reference_graph();
    let (c, u) = calc_carp_measure_naive(&g);
    assert_eq!(c.len(), 4);
    assert_eq!(u.len(), 1);
    for graph in [reference_graph(), mixed_graph()] {
        let mut graph = graph;
        graph.fill_telomeres();
        let (c, u) = calc_carp_measure_naive(&graph);
        let (c2, u2) = calc_carp_measure_multithread(&graph, 4);
        assert_eq!(c.into_iter().collect::<HashSet<_>>(), c2.into_iter().collect::<HashSet<_>>());
        assert_eq!(u.into_iter().collect::<HashSet<_>>(), u2.into_iter().collect::<HashSet<_>>());
    }
}

#[test]
fn builder_reads_records() {
    let mut b = GraphBuilder::new();
    assert!(b.add_segment(String::from("s1"), 5));
    assert!(b.add_segment(String::from("s2"), 2));
    assert!(b.add_link(String::from("s1"), true, String::from("s2"), false));
    assert!(b.add_link(String::from("s2"), false, String::from("s1"), true));
    assert!(b.add_telomere(String::from("s1"), true));
    assert!(!b.add_telomere(String::from("s9"), true));
    let g = b.build();
    assert_eq!(g.markers(), vec![1, 2]);
    assert_eq!(g.node_size(1), Some(5));
    assert_eq!(g.node_size(2), Some(2));
    let expect: HashSet<Adjacency> =
        [(head(1), head(2)), (tail(1), tail(2)), (TELOMERE, tail(1))].into_iter().collect();
    assert_eq!(adjacency_set(&g), expect);
}

#[test]
fn builder_reads_chromosome_lines() {
    let mut b = GraphBuilder::new();
    let a = b.marker_token("a").unwrap();
    let c = b.marker_token("-c").unwrap();
    let a2 = b.marker_token("+a").unwrap();
    assert_eq!(a, (true, 1));
    assert_eq!(c, (false, 2));
    assert_eq!(a2, (true, 1));
    assert!(b.join(a, c));
    assert!(b.close_linear(c, a));
    assert!(!b.join((true, 7), a));
    let g = b.build();
    let expect: HashSet<Adjacency> =
        [(head(1), head(2)), (TELOMERE, tail(2)), (TELOMERE, tail(1))].into_iter().collect();
    assert_eq!(adjacency_set(&g), expect);
    assert_eq!(g.name_to_marker("c"), Some(2));
}

#[test]
fn solid_neighbors_step_over_small_markers() {
    // 1 -- 2 (size 1) -- 3, and 2's head also on the telomere side of 4.
    let g = graph_from_edges(
        &[(1, 5), (2, 1), (3, 5), (4, 5)],
        &[(head(1), tail(2)), (head(2), tail(3)), (head(2), tail(4))],
    );
    assert!(has_deleted_neighbor(&g, head(1), 2));
    assert!(!has_deleted_neighbor(&g, head(1), 1));
    assert!(!has_deleted_neighbor(&g, tail(1), 2));
    let sn: HashSet<usize> = find_solid_neighbors(&g, head(1), 2).into_iter().collect();
    assert_eq!(sn, [tail(3), tail(4)].into_iter().collect());
    let sn: HashSet<usize> = find_solid_neighbors(&g, head(1), 0).into_iter().collect();
    assert_eq!(sn, [tail(2)].into_iter().collect());
}

#[test]
fn worker_reports_its_slice() {
    let g = graph_from_edges(
        &[(1, 5), (2, 1), (3, 5)],
        &[(head(1), tail(2)), (head(2), tail(3))],
    );
    let (masked, lists) = trim_vertices(&g, 0, 100, 2);
    assert_eq!(masked, vec![2]);
    let lists: HashMap<usize, HashSet<usize>> =
        lists.into_iter().map(|(x, l)| (x, l.into_iter().collect())).collect();
    assert_eq!(lists.len(), 2);
    assert_eq!(lists[&head(1)], [tail(3)].into_iter().collect());
    assert_eq!(lists[&tail(3)], [head(1)].into_iter().collect());
    let (masked, lists) = trim_vertices(&g, 5, 6, 2);
    assert_eq!(masked, vec![2]);
    assert!(lists.is_empty());
}

#[test]
fn removing_inactive_marker_changes_nothing() {
    let mut g = reference_graph();
    let before = adjacency_set(&g);
    g.remove_marker(9);
    g.remove_marker(0);
    assert_eq!(adjacency_set(&g), before);
    g.remove_marker(2);
    let after = adjacency_set(&g);
    g.remove_marker(2);
    assert_eq!(adjacency_set(&g), after);
    assert_eq!(g.markers(), vec![1, 3, 4]);
}

#[test]
fn overlapping_segments_are_not_trimmed_in_strict_mode() {
    let mut g = reference_graph();
    g.set_overlap(3);
    assert_eq!(g.trim_checked(3, 2, true), Err(TrimError::Overlap));
    assert_eq!(g.markers(), vec![1, 2, 3, 4]);
    assert_eq!(g.trim_checked(3, 2, false), Ok(()));
    assert_eq!(g.overlap(), 0);
    assert_eq!(g.markers(), vec![1, 4]);
    let mut h = reference_graph();
    assert_eq!(h.trim_checked(3, 1, true), Ok(()));
    assert_eq!(adjacency_set(&h), adjacency_set(&g));
}

#[test]
fn other_end_round_trip() {
    assert_eq!(other(usize::MAX), usize::MAX - 1);
    assert_eq!(other(other(usize::MAX)), usize::MAX);
}
