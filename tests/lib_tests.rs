use std::collections::{HashMap, HashSet};

use scj_carp::mbg::MBG;
use scj_carp::measure::calc_carp_measure_multithread;
use scj_carp::rearrangement::{canonicize, head, is_tail, marker, tail, Adjacency, Extremity, Marker, TELOMERE};
use scj_carp::util::{find_dups, reverse_map};

fn build(
    sizes: HashMap<Marker, usize>,
    adj: HashMap<Extremity, HashSet<Extremity>>,
    nids: HashMap<String, Marker>,
) -> MBG {
    MBG::from_hash_maps(
        sizes.into_iter().collect(),
        adj.into_iter().map(|(x, n)| (x, n.into_iter().collect())).collect(),
        nids.into_iter().collect(),
    )
}

fn neighbors(g: &MBG, x: Extremity) -> HashSet<Extremity> {
    g.adj_neighbors(x).unwrap().into_iter().collect()
}

fn general_sanity_check(g: &MBG) {
    assert!(g.degree(1).is_none());
    if g.degree(TELOMERE).unwrap_or(0) > 0 {
        assert_eq!(g.num_extremities(), g.num_markers() * 2 + 1);
    } else {
        assert_eq!(g.num_extremities(), g.num_markers() * 2)
    }
    for m in g.markers() {
        assert!(g.degree(tail(m)).is_some());
        assert!(g.degree(head(m)).is_some());
    }
    let mset: HashSet<Marker> = g.markers().into_iter().collect();
    for x in g.extremities() {
        if !mset.contains(&marker(x)) && x != TELOMERE {
            panic!("Extremity {x} exists, but its marker does not!");
        }
        if let Some(nbrs) = g.adj_neighbors(x) {
            for y in nbrs {
                if !mset.contains(&marker(y)) && y != TELOMERE {
                    panic!("Extremity {y} exists, but its marker does not!");
                }
                assert!(g.adj_neighbors(y).unwrap().contains(&x));
            }
        }
    }
}

fn trim_graph_case(n_threads: usize) {
    let mut adj = HashMap::new();
    let mut node_siz = HashMap::new();
    let mut node_ids = HashMap::new();
    node_siz.insert(1, 3);
    node_siz.insert(2, 2);
    node_siz.insert(3, 1);
    for i in 1..4 {
        node_ids.insert(i.to_string(), i);
    }
    for i in 1..=3 {
        adj.insert(head(i), HashSet::new());
        adj.insert(tail(i), HashSet::new());
    }
    adj.get_mut(&head(1)).expect("!").insert(tail(2));
    adj.get_mut(&head(2)).expect("!").insert(tail(3));
    adj.get_mut(&head(3)).expect("!").insert(tail(1));
    adj.get_mut(&tail(1)).expect("!").insert(head(3));
    adj.get_mut(&tail(2)).expect("!").insert(head(1));
    adj.get_mut(&tail(3)).expect("!").insert(head(2));
    let mut g = build(node_siz, adj, node_ids);
    if n_threads == 1 {
        g.trim_singlethread(2);
    } else {
        g.trim_multithread(2, n_threads);
    }
    general_sanity_check(&g);
    assert!(g.node_size(1).is_some());
    assert!(g.node_size(2).is_some());
    assert!(g.node_size(3).is_none());
    assert!(g.adj_neighbors(head(3)).is_none());
    assert!(g.adj_neighbors(tail(3)).is_none());
    let nh2 = neighbors(&g, head(2));
    assert!(nh2.contains(&tail(1)));
    let nt1 = neighbors(&g, tail(1));
    assert!(nt1.contains(&head(2)));
    let mut remaining = HashSet::new();
    for i in 1..=2 {
        remaining.insert(head(i));
        remaining.insert(tail(i));
    }
    for (x, y) in g.iter_adjacencies() {
        assert!(remaining.contains(&x));
        assert!(remaining.contains(&y));
    }
}

fn carp_sanity_check(g: &MBG, contested: &HashSet<Adjacency>, uncontested: &HashSet<Adjacency>) {
    let mut all = HashSet::new();
    for (x, y) in g.iter_adjacencies() {
        all.insert(canonicize((x, y)));
    }
    assert!(contested.is_subset(&all));
    assert!(uncontested.is_subset(&all));
    assert!(contested.is_disjoint(uncontested));
    let union: HashSet<Adjacency> = contested.union(uncontested).cloned().collect();
    assert_eq!(all, union);
    for (x, y) in contested {
        assert!(g.degree(*x).unwrap() > 1 || g.degree(*y).unwrap() > 1 || *x == *y);
        assert!(*x != TELOMERE && *y != TELOMERE);
    }
    for (x, y) in uncontested {
        assert!(
            (g.adj_neighbors(*x).unwrap().len() == 1 && g.adj_neighbors(*y).unwrap().len() == 1 && *x != *y)
                || *x == TELOMERE
                || *y == TELOMERE
        );
        assert!(g.adj_neighbors(*x).unwrap().contains(y) && g.adj_neighbors(*y).unwrap().contains(x))
    }
    for i in 1..8 {
        let (c, uc) = calc_carp_measure_multithread(g, i);
        assert_eq!(find_dups(&c), Vec::new());
        assert_eq!(find_dups(&uc), Vec::new());
        assert_eq!(c.len(), contested.len());
        assert_eq!(uc.len(), uncontested.len());
        let cs: HashSet<Adjacency> = c.iter().copied().collect();
        let ucs: HashSet<Adjacency> = uc.iter().copied().collect();
        assert_eq!(cs, contested.clone());
        assert_eq!(ucs, uncontested.clone());
    }
}

fn self_cycle_case() {
    let mut sizes = HashMap::new();
    let mut adj = HashMap::new();
    let mut nids = HashMap::new();
    nids.insert(String::from("A"), 1);
    sizes.insert(1, 1);
    adj.insert(head(1), HashSet::from([head(1)]));
    adj.insert(tail(1), HashSet::from([TELOMERE]));
    adj.insert(TELOMERE, HashSet::from([tail(1)]));
    let g = build(sizes, adj, nids);
    let (a, b) = calc_carp_measure_multithread(&g, 1);
    carp_sanity_check(&g, &a.iter().copied().collect(), &b.iter().copied().collect());
    let mut aexp = Vec::new();
    aexp.push((head(1), head(1)));
    assert_eq!(a, aexp);
}

#[test]
fn lib_test_hdtl() {
    assert_eq!(4, tail(2));
    assert_eq!(5, head(2));
}

#[test]
fn lib_test_tail() {
    for i in 0..42 {
        assert!(is_tail(tail(i)));
        assert!(!is_tail(head(i)));
    }
}

#[test]
fn lib_test_marker_conversion() {
    for i in 0..42 {
        assert_eq!(i, marker(head(i)));
        assert_eq!(i, marker(tail(i)));
    }
}

#[test]
fn lib_test_trim_graph() {
    for i in 1..11 {
        trim_graph_case(i);
    }
}

#[test]
fn lib_test_self_cyle() {
    self_cycle_case();
}

#[test]
fn lib_test_back_map() {
    let m = HashMap::from([(1, 2), (3, 4), (5, 6)]);
    let r = reverse_map(&m);
    for (a, b) in m.iter() {
        assert!(r.get(b).expect(".") == a)
    }
    for (a, b) in r.iter() {
        assert!(m.get(b).expect(".") == a)
    }
}
