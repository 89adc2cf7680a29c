use std::collections::{HashMap, HashSet};

use scj_carp::mbg::MBG;
use scj_carp::measure::{calc_carp_measure_multithread, calc_carp_measure_naive, carp_measure_from_adjacencies};
use scj_carp::rearrangement::{head, tail, Adjacency, Extremity, Marker, TELOMERE};

/// Hash-map graph used as an independent reference for trimming.
struct Reference {
    sizes: HashMap<Marker, usize>,
    adj: HashMap<Extremity, HashSet<Extremity>>,
}

impl Reference {
    fn add(&mut self, x: Extremity, y: Extremity) {
        self.adj.entry(x).or_default().insert(y);
        self.adj.entry(y).or_default().insert(x);
    }

    fn remove_node(&mut self, xtr: Extremity) {
        let nbrs = self.adj.get(&xtr).cloned().unwrap_or_default();
        for x in nbrs {
            if let Some(v) = self.adj.get_mut(&x) {
                v.remove(&xtr);
            }
        }
        self.adj.remove(&xtr);
    }

    fn trim(&mut self, threshold: usize) {
        let mut order: Vec<Marker> = self.sizes.keys().copied().collect();
        order.sort();
        for node in order {
            if self.sizes[&node] >= threshold {
                continue;
            }
            let hd = head(node);
            let tl = tail(node);
            let nh = self.adj.get(&hd).cloned().unwrap_or_default();
            let nt = self.adj.get(&tl).cloned().unwrap_or_default();
            for x in &nh {
                for y in &nt {
                    self.add(*x, *y);
                }
            }
            if nh.contains(&hd) {
                for x in &nt {
                    for y in &nt {
                        self.add(*x, *y);
                    }
                }
            }
            if nt.contains(&tl) {
                for x in &nh {
                    for y in &nh {
                        self.add(*x, *y);
                    }
                }
            }
            self.remove_node(hd);
            self.remove_node(tl);
            self.sizes.remove(&node);
        }
        if let Some(t) = self.adj.get_mut(&TELOMERE) {
            t.remove(&TELOMERE);
        }
    }

    fn adjacencies(&self) -> HashSet<Adjacency> {
        let mut r = HashSet::new();
        for (x, n) in &self.adj {
            for y in n {
                if x <= y {
                    r.insert((*x, *y));
                }
            }
        }
        r
    }
}

/// A small deterministic pseudo-random sequence.
struct Lcg(u64);

impl Lcg {
    fn next(&mut self, bound: usize) -> usize {
        self.0 = self.0.wrapping_mul(6364136223846793005).wrapping_add(1442695040888963407);
        ((self.0 >> 33) % bound as u64) as usize
    }
}

fn random_case(seed: u64) -> (Vec<(Marker, usize)>, Vec<Adjacency>) {
    let mut rng = Lcg(seed);
    let n = 2 + rng.next(9);
    let sizes: Vec<(Marker, usize)> = (1..=n).map(|m| (m, rng.next(8))).collect();
    let mut edges = Vec::new();
    for _ in 0..rng.next(3 * n) + 1 {
        let x = rng.next(2 * n + 2);
        let y = rng.next(2 * n + 2);
        if x == 1 || y == 1 || (x == 0 && y == 0) {
            continue;
        }
        edges.push((x, y));
    }
    (sizes, edges)
}

fn build(sizes: &[(Marker, usize)], edges: &[Adjacency]) -> (MBG, Reference) {
    let names: Vec<(String, Marker)> = sizes.iter().map(|(m, _)| (m.to_string(), *m)).collect();
    let g = MBG::from_hash_maps(sizes.to_vec(), edges.iter().map(|(x, y)| (*x, vec![*y])).collect(), names);
    let mut r = Reference { sizes: sizes.iter().copied().collect(), adj: HashMap::new() };
    for (x, y) in edges {
        r.add(*x, *y);
    }
    (g, r)
}

#[test]
fn trimming_matches_reference_on_random_graphs() {
    for seed in 0..300 {
        let (sizes, edges) = random_case(seed);
        for thresh in 0..9 {
            let (mut g, mut r) = build(&sizes, &edges);
            g.trim_singlethread(thresh);
            r.trim(thresh);
            let got: HashSet<Adjacency> = g.iter_adjacencies().into_iter().collect();
            assert_eq!(got, r.adjacencies(), "seed {seed} threshold {thresh}");
            let kept: HashSet<Marker> = g.markers().into_iter().collect();
            assert_eq!(kept, r.sizes.keys().copied().collect::<HashSet<_>>());
            for k in 2..6 {
                let (mut g2, _) = build(&sizes, &edges);
                g2.trim_multithread(thresh, k);
                assert_eq!(g2.iter_adjacencies().into_iter().collect::<HashSet<_>>(), got, "seed {seed} threads {k}");
                assert_eq!(g2.markers().into_iter().collect::<HashSet<_>>(), kept);
            }
        }
    }
}

#[test]
fn measures_agree_on_random_graphs() {
    for seed in 0..300 {
        let (sizes, edges) = random_case(seed);
        let (mut g, _) = build(&sizes, &edges);
        g.fill_telomeres();
        let (c, u) = calc_carp_measure_naive(&g);
        let c: HashSet<Adjacency> = c.into_iter().collect();
        let u: HashSet<Adjacency> = u.into_iter().collect();
        for k in 1..6 {
            let (c2, u2) = calc_carp_measure_multithread(&g, k);
            assert_eq!(c2.len(), c.len());
            assert_eq!(u2.len(), u.len());
            assert_eq!(c2.into_iter().collect::<HashSet<_>>(), c);
            assert_eq!(u2.into_iter().collect::<HashSet<_>>(), u);
        }
        assert_eq!(carp_measure_from_adjacencies(&g.iter_adjacencies()), c.len());
    }
}
