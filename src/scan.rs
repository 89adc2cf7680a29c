use std::collections::HashMap;
use vstd::prelude::*;

use crate::mbg::{GraphModel, MBG, lemma_neighbor_present, lemma_push_contains, lemma_push_no_dup};
use crate::measure::{carp_measure_from_adjacencies, count_contested_in, lemma_carp_depends_on_set};
use crate::rearrangement::{Adjacency, Extremity, Marker, TELOMERE, canonical_spec, canonicize, head, marker, other, other_spec, tail};

verus! {

/// Sum over the extremities below `n` of their recorded distance, or of `cap`
/// where none is recorded.
pub open spec fn potential(md: Map<usize, usize>, n: int, cap: int) -> int
    decreases n,
{
    if n <= 0 {
        0
    } else {
        potential(md, n - 1, cap) + if md.contains_key((n - 1) as usize) {
            md[(n - 1) as usize] as int
        } else {
            cap
        }
    }
}

proof fn lemma_potential_nonneg(md: Map<usize, usize>, n: int, cap: int)
    requires
        cap >= 0,
    ensures
        potential(md, n, cap) >= 0,
    decreases n,
{
    if n > 0 {
        lemma_potential_nonneg(md, n - 1, cap);
    }
}

proof fn lemma_potential_insert(md: Map<usize, usize>, n: int, cap: int, k: usize, v: usize)
    requires
        0 <= k < n <= usize::MAX + 1,
        (v as int) < if md.contains_key(k) {
            md[k] as int
        } else {
            cap
        },
    ensures
        potential(md.insert(k, v), n, cap) < potential(md, n, cap),
    decreases n,
{
    if k == n - 1 {
        lemma_potential_same(md, n - 1, cap, k, v);
    } else {
        lemma_potential_insert(md, n - 1, cap, k, v);
    }
}

proof fn lemma_potential_same(md: Map<usize, usize>, n: int, cap: int, k: usize, v: usize)
    requires
        n <= k,
    ensures
        potential(md.insert(k, v), n, cap) == potential(md, n, cap),
    decreases n,
{
    if n > 0 {
        lemma_potential_same(md, n - 1, cap, k, v);
    }
}

/// Whether `v` holds the adjacency `a`.
pub(crate) fn contains_adjacency(v: &Vec<Adjacency>, a: Adjacency) -> (r: bool)
    ensures
        r == v@.contains(a),
{
    let mut i: usize = 0;
    while i < v.len()
        invariant
            i <= v@.len(),
            forall|j: int| 0 <= j < i ==> v@[j] != a,
        decreases v@.len() - i,
    {
        if v[i].0 == a.0 && v[i].1 == a.1 {
            return true;
        }
        i += 1;
    }
    false
}

/// Index of the frontier entry to expand next: lowest cost, ties broken by
/// the larger extremity id.
fn best_index(frontier: &Vec<(usize, Extremity)>) -> (r: usize)
    requires
        frontier@.len() > 0,
    ensures
        r < frontier@.len(),
{
    let mut best: usize = 0;
    let mut i: usize = 1;
    while i < frontier.len()
        invariant
            best < frontier@.len(),
            1 <= i <= frontier@.len(),
        decreases frontier@.len() - i,
    {
        let (c, p) = frontier[i];
        let (bc, bp) = frontier[best];
        if c < bc || (c == bc && p > bp) {
            best = i;
        }
        i += 1;
    }
    best
}

/// Cost of entering the marker of extremity `y`: its size, or 1 when it has none.
pub open spec fn enter_cost(g: GraphModel, y: int) -> int {
    if g.is_active(y / 2) {
        g.sizes[y / 2] as int
    } else {
        1
    }
}

/// Whether the search from marker `m` reaches extremity `e` at cost `c` in at
/// most `k` steps: it starts at both ends of `m` with half the size of `m`,
/// and from a reached extremity it steps over a non-telomere neighbor `y` to
/// the other end of `y`'s marker, paying the cost of entering it.
pub open spec fn reached(g: GraphModel, m: int, k: nat, e: int, c: int) -> bool
    decreases k,
{
    ((e == 2 * m || e == 2 * m + 1) && c == g.sizes[m] / 2) || (k > 0 && exists|p: int, y: int|
        #[trigger] g.has_edge(p, y) && y != 0 && e == other_spec(y) && reached(
            g,
            m,
            (k - 1) as nat,
            p,
            c - enter_cost(g, y),
        ))
}

/// Whether the search from the active marker `m` reaches `e` within distance `d`.
pub open spec fn in_reach(g: GraphModel, m: int, d: int, e: int) -> bool {
    &&& g.is_active(m)
    &&& g.sizes[m] / 2 <= d
    &&& exists|k: nat, c: int| c <= d && #[trigger] reached(g, m, k, e, c)
}

/// The neighborhood of marker `m` at depth `d`: every adjacency at an
/// extremity that the search reaches within distance `d`. It is empty when
/// `m` is not active or half its size exceeds `d`.
pub open spec fn neighborhood(g: GraphModel, m: int, d: int) -> Set<Adjacency> {
    Set::new(
        |a: Adjacency|
            exists|e: int, y: int|
                in_reach(g, m, d, e) && #[trigger] g.has_edge(e, y) && a == canonical_spec((e as usize, y as usize)),
    )
}

/// `s` lists the neighborhood of `m` at depth `d`, each adjacency once.
pub open spec fn is_neighborhood(g: GraphModel, m: int, d: int, s: Seq<Adjacency>) -> bool {
    s.no_duplicates() && s.to_set() == neighborhood(g, m, d)
}

/// An entry `(c, x)` that is still to be expanded or has been.
pub open spec fn pending_or_done(frontier: Seq<(usize, Extremity)>, done: Set<(usize, int)>, x: usize, c: int) -> bool {
    (exists|k: int| 0 <= k < frontier.len() && #[trigger] frontier[k] == (c as usize, x) && 0 <= c <= usize::MAX) || done.contains(
        (x, c),
    )
}

/// An extremity that has been expanded at some cost.
pub open spec fn expanded(done: Set<(usize, int)>, e: int) -> bool {
    exists|c: int| #[trigger] done.contains((e as usize, c)) && 0 <= e <= usize::MAX
}

/// Every extremity the search reaches at cost `c` has been expanded at a cost
/// no larger, once the frontier is empty.
proof fn lemma_reached_expanded(
    g: GraphModel,
    m: int,
    d: int,
    done: Set<(usize, int)>,
    md: Map<usize, usize>,
    k: nat,
    e: int,
    c: int,
)
    requires
        g.wf(),
        g.is_active(m),
        reached(g, m, k, e, c),
        c <= d,
        done.contains(((2 * m) as usize, (g.sizes[m] / 2) as int)),
        done.contains(((2 * m + 1) as usize, (g.sizes[m] / 2) as int)),
        forall|x: usize| #[trigger] md.contains_key(x) ==> done.contains((x, md[x] as int)),
        forall|x: usize, c: int, y: int|
            #![trigger done.contains((x, c)), g.has_edge(x as int, y)]
            done.contains((x, c)) && g.has_edge(x as int, y) && y != 0 && c + enter_cost(g, y) <= d ==> md.contains_key(
                other_spec(y) as usize,
            ) && md[other_spec(y) as usize] <= c + enter_cost(g, y),
    ensures
        exists|c2: int| c2 <= c && #[trigger] done.contains((e as usize, c2)),
    decreases k,
{
    if (e == 2 * m || e == 2 * m + 1) && c == g.sizes[m] / 2 {
        if e == 2 * m {
            assert(done.contains((e as usize, c)));
        } else {
            assert(done.contains((e as usize, c)));
        }
    } else {
        let (p, y) = choose|p: int, y: int|
            #[trigger] g.has_edge(p, y) && y != 0 && e == other_spec(y) && reached(
                g,
                m,
                (k - 1) as nat,
                p,
                c - enter_cost(g, y),
            );
        assert(enter_cost(g, y) >= 0);
        lemma_reached_expanded(g, m, d, done, md, (k - 1) as nat, p, c - enter_cost(g, y));
        let c1 = choose|c1: int| c1 <= c - enter_cost(g, y) && #[trigger] done.contains((p as usize, c1));
        lemma_neighbor_present(g, p, y);
        assert(g.has_edge((p as usize) as int, y));
        assert(done.contains((p as usize, c1)));
        assert(c1 + enter_cost(g, y) <= d);
        let x = other_spec(y) as usize;
        assert(md.contains_key(x));
        assert(done.contains((x, md[x] as int)));
        assert(x == e as usize);
        assert(md[x] as int <= c);
    }
}

/// The adjacencies around marker `m` up to distance `max_depth`, found by a
/// shortest-path search that starts at both ends of `m` with half its size
/// and pays the size of every marker it enters; telomere neighbors are
/// recorded but not entered. The frontier is expanded lowest cost first, ties
/// broken by the larger extremity id.
#[verifier::spinoff_prover]
#[verifier::rlimit(60)]
pub fn adjacency_neighborhood(m: Marker, max_depth: usize, graph: &MBG) -> (r: Vec<Adjacency>)
    requires
        graph.wf(),
    ensures
        is_neighborhood(graph@, m as int, max_depth as int, r@),
{
    broadcast use vstd::std_specs::hash::group_hash_axioms;

    let ghost g = graph@;
    let ghost d = max_depth as int;
    let mut adjacencies: Vec<Adjacency> = Vec::new();
    if !graph.is_active_marker(m) {
        proof {
            assert(adjacencies@.to_set() =~= neighborhood(g, m as int, d));
        }
        return adjacencies;
    }
    let init_dist = match graph.node_size(m) {
        Some(s) => s / 2,
        None => 0,
    };
    if init_dist > max_depth {
        proof {
            assert(adjacencies@.to_set() =~= neighborhood(g, m as int, d));
        }
        return adjacencies;
    }
    let n = graph.num_slots() * 2;
    let ghost cap = max_depth + 1;
    let hd = head(m);
    let tl = tail(m);
    let mut frontier: Vec<(usize, Extremity)> = Vec::new();
    frontier.push((init_dist, hd));
    frontier.push((init_dist, tl));
    let mut min_dist: HashMap<Extremity, usize> = HashMap::new();
    let ghost mut done: Set<(usize, int)> = Set::empty();
    proof {
        lemma_potential_nonneg(min_dist@, n as int, cap);
        assert(frontier@[0] == (init_dist, hd));
        assert(frontier@[1] == (init_dist, tl));
        assert(reached(g, m as int, 0, hd as int, init_dist as int));
        assert(reached(g, m as int, 0, tl as int, init_dist as int));
        assert forall|k: int| 0 <= k < frontier@.len() implies exists|j: nat|
            reached(g, m as int, j, (#[trigger] frontier@[k]).1 as int, frontier@[k].0 as int) by {
            assert(reached(g, m as int, 0, frontier@[k].1 as int, frontier@[k].0 as int));
        }
        assert(adjacencies@.to_set() =~= Set::empty());
    }
    while frontier.len() > 0
        invariant
            graph.wf(),
            g == graph@,
            d == max_depth,
            g.is_active(m as int),
            init_dist == g.sizes[m as int] / 2,
            init_dist <= max_depth,
            n == g.adj.len(),
            cap == max_depth + 1,
            hd == 2 * m + 1,
            tl == 2 * m,
            hd < n,
            forall|k: int|
                0 <= k < frontier@.len() ==> {
                    &&& (#[trigger] frontier@[k]).1 < n
                    &&& g.present(frontier@[k].1 as int)
                    &&& frontier@[k].0 <= max_depth
                    &&& exists|j: nat| reached(g, m as int, j, frontier@[k].1 as int, frontier@[k].0 as int)
                },
            forall|x: usize|
                #[trigger] min_dist@.contains_key(x) ==> x < n && min_dist@[x] <= max_depth && pending_or_done(
                    frontier@,
                    done,
                    x,
                    min_dist@[x] as int,
                ),
            forall|p: (usize, int)|
                #[trigger] done.contains(p) ==> p.0 < n && g.present(p.0 as int) && 0 <= p.1 <= d && exists|j: nat|
                    reached(g, m as int, j, p.0 as int, p.1),
            forall|x: usize, c: int, y: int|
                #![trigger done.contains((x, c)), g.has_edge(x as int, y)]
                done.contains((x, c)) && g.has_edge(x as int, y) && y != 0 && c + enter_cost(g, y) <= d
                    ==> min_dist@.contains_key(other_spec(y) as usize) && min_dist@[other_spec(y) as usize] <= c
                    + enter_cost(g, y),
            pending_or_done(frontier@, done, hd, init_dist as int),
            pending_or_done(frontier@, done, tl, init_dist as int),
            forall|a: Adjacency|
                #[trigger] adjacencies@.contains(a) <==> exists|e: int, y: int|
                    expanded(done, e) && #[trigger] g.has_edge(e, y) && a == canonical_spec((e as usize, y as usize)),
            adjacencies@.no_duplicates(),
        decreases frontier@.len() + potential(min_dist@, n as int, cap),
    {
        let ghost f0 = frontier@;
        let ghost measure0 = frontier@.len() + potential(min_dist@, n as int, cap);
        let bi = best_index(&frontier);
        let (cost, position) = frontier.swap_remove(bi);
        proof {
            assert(f0[bi as int] == (cost, position));
            assert forall|k: int| 0 <= k < frontier@.len() implies #[trigger] frontier@[k] == f0[k] || (k == bi
                && frontier@[k] == f0.last()) by {}
            lemma_potential_nonneg(min_dist@, n as int, cap);
        }
        let ghost cur = (position, cost as int);
        proof {
            // every entry that was pending is still pending, or is the one just taken
            assert forall|x: usize, c: int| pending_or_done(f0, done, x, c) implies (pending_or_done(frontier@, done, x, c)
                || (x == position && c == cost)) by {
                if !done.contains((x, c)) {
                    let k = choose|k: int| 0 <= k < f0.len() && #[trigger] f0[k] == (c as usize, x) && 0 <= c <= usize::MAX;
                    if k == bi {
                        assert(x == position && c == cost);
                    } else if k == f0.len() - 1 {
                        assert(frontier@[bi as int] == f0[k]);
                        assert(pending_or_done(frontier@, done, x, c));
                    } else {
                        assert(frontier@[k] == f0[k]);
                        assert(pending_or_done(frontier@, done, x, c));
                    }
                }
            }
            assert forall|k: int| 0 <= k < frontier@.len() implies {
                &&& (#[trigger] frontier@[k]).1 < n
                &&& g.present(frontier@[k].1 as int)
                &&& frontier@[k].0 <= max_depth
                &&& exists|j: nat| reached(g, m as int, j, frontier@[k].1 as int, frontier@[k].0 as int)
            } by {
                if k == bi {
                    assert(frontier@[k] == f0[f0.len() - 1]);
                } else {
                    assert(frontier@[k] == f0[k]);
                }
            }
            assert(exists|j: nat| reached(g, m as int, j, f0[bi as int].1 as int, f0[bi as int].0 as int));
        }
        let nbrs = match graph.adj_neighbors(position) {
            Some(v) => v,
            None => Vec::new(),
        };
        let ghost wpos = choose|j: nat| reached(g, m as int, j, position as int, cost as int);
        let mut j: usize = 0;
        while j < nbrs.len()
            invariant
                graph.wf(),
                g == graph@,
                d == max_depth,
                g.is_active(m as int),
                init_dist == g.sizes[m as int] / 2,
                init_dist <= max_depth,
                n == g.adj.len(),
                cap == max_depth + 1,
                hd == 2 * m + 1,
                tl == 2 * m,
                hd < n,
                position < n,
                g.present(position as int),
                cost <= max_depth,
                reached(g, m as int, wpos, position as int, cost as int),
                nbrs@ == g.adj[position as int],
                j <= nbrs@.len(),
                forall|k: int|
                    0 <= k < frontier@.len() ==> {
                        &&& (#[trigger] frontier@[k]).1 < n
                        &&& g.present(frontier@[k].1 as int)
                        &&& frontier@[k].0 <= max_depth
                        &&& exists|j: nat| reached(g, m as int, j, frontier@[k].1 as int, frontier@[k].0 as int)
                    },
                forall|x: usize|
                    #[trigger] min_dist@.contains_key(x) ==> x < n && min_dist@[x] <= max_depth && (pending_or_done(
                        frontier@,
                        done,
                        x,
                        min_dist@[x] as int,
                    ) || (x == position && min_dist@[x] == cost)),
                forall|p: (usize, int)|
                    #[trigger] done.contains(p) ==> p.0 < n && g.present(p.0 as int) && 0 <= p.1 <= d && exists|j: nat|
                        reached(g, m as int, j, p.0 as int, p.1),
                forall|x: usize, c: int, y: int|
                    #![trigger done.contains((x, c)), g.has_edge(x as int, y)]
                    done.contains((x, c)) && g.has_edge(x as int, y) && y != 0 && c + enter_cost(g, y) <= d
                        ==> min_dist@.contains_key(other_spec(y) as usize) && min_dist@[other_spec(y) as usize] <= c
                        + enter_cost(g, y),
                forall|i: int|
                    0 <= i < j && #[trigger] nbrs@[i] != 0 && cost + enter_cost(g, nbrs@[i] as int) <= d
                        ==> min_dist@.contains_key(other_spec(nbrs@[i] as int) as usize) && min_dist@[other_spec(
                        nbrs@[i] as int,
                    ) as usize] <= cost + enter_cost(g, nbrs@[i] as int),
                pending_or_done(frontier@, done, hd, init_dist as int) || (hd == position && init_dist == cost),
                pending_or_done(frontier@, done, tl, init_dist as int) || (tl == position && init_dist == cost),
                forall|a: Adjacency|
                    #[trigger] adjacencies@.contains(a) <==> (exists|e: int, y: int|
                        expanded(done, e) && #[trigger] g.has_edge(e, y) && a == canonical_spec((e as usize, y as usize)))
                        || (exists|i: int| 0 <= i < j && a == canonical_spec((position, #[trigger] nbrs@[i]))),
                adjacencies@.no_duplicates(),
                frontier@.len() + potential(min_dist@, n as int, cap) < measure0,
            decreases nbrs@.len() - j,
        {
            let neighbor = nbrs[j];
            proof {
                assert(g.has_edge(position as int, neighbor as int));
                lemma_neighbor_present(g, position as int, neighbor as int);
            }
            let adj = canonicize((position, neighbor));
            let ghost a0 = adjacencies@;
            if !contains_adjacency(&adjacencies, adj) {
                adjacencies.push(adj);
                proof {
                    assert(adjacencies@[a0.len() as int] == adj);
                    lemma_push_no_dup(a0, adj);
                }
            }
            proof {
                assert forall|a: Adjacency| #[trigger] adjacencies@.contains(a) <==> (a0.contains(a) || a == adj) by {
                    lemma_push_contains(a0, adj, a);
                }
                assert forall|a: Adjacency| #[trigger] adjacencies@.contains(a) <==> (exists|e: int, y: int|
                    expanded(done, e) && #[trigger] g.has_edge(e, y) && a == canonical_spec((e as usize, y as usize)))
                    || (exists|i: int| 0 <= i < j + 1 && a == canonical_spec((position, #[trigger] nbrs@[i]))) by {
                    if a == adj {
                        assert(a == canonical_spec((position, nbrs@[j as int])));
                    }
                    if exists|i: int| 0 <= i < j + 1 && a == canonical_spec((position, #[trigger] nbrs@[i])) {
                        let i = choose|i: int| 0 <= i < j + 1 && a == canonical_spec((position, #[trigger] nbrs@[i]));
                        if i < j {
                            assert(exists|i: int| 0 <= i < j && a == canonical_spec((position, #[trigger] nbrs@[i])));
                        }
                    }
                }
            }
            if neighbor != TELOMERE {
                let oend = other(neighbor);
                let size = match graph.node_size(marker(neighbor)) {
                    Some(s) => s,
                    None => 1,
                };
                proof {
                    assert(size == enter_cost(g, neighbor as int));
                    assert(g.present(oend as int));
                }
                if size <= max_depth - cost {
                    let ndist = cost + size;
                    let better = match min_dist.get(&oend) {
                        Some(dd) => *dd > ndist,
                        None => true,
                    };
                    if better {
                        let ghost md0 = min_dist@;
                        let ghost fr0 = frontier@;
                        proof {
                            lemma_potential_insert(md0, n as int, cap, oend, ndist);
                            assert(reached(g, m as int, wpos + 1, oend as int, ndist as int)) by {
                                assert(g.has_edge(position as int, neighbor as int));
                            }
                        }
                        frontier.push((ndist, oend));
                        min_dist.insert(oend, ndist);
                        proof {
                            assert(frontier@[fr0.len() as int] == (ndist, oend));
                            assert forall|k: int| 0 <= k < fr0.len() implies #[trigger] frontier@[k] == fr0[k] by {}
                            assert forall|x: usize, c: int| pending_or_done(fr0, done, x, c) implies pending_or_done(
                                frontier@,
                                done,
                                x,
                                c,
                            ) by {
                                if !done.contains((x, c)) {
                                    let k = choose|k: int| 0 <= k < fr0.len() && #[trigger] fr0[k] == (c as usize, x) && 0 <= c <= usize::MAX;
                                    assert(frontier@[k] == fr0[k]);
                                }
                            }
                            assert(pending_or_done(frontier@, done, oend, ndist as int));
                            assert forall|k: int| 0 <= k < frontier@.len() implies {
                                &&& (#[trigger] frontier@[k]).1 < n
                                &&& g.present(frontier@[k].1 as int)
                                &&& frontier@[k].0 <= max_depth
                                &&& exists|j: nat| reached(g, m as int, j, frontier@[k].1 as int, frontier@[k].0 as int)
                            } by {
                                if k < fr0.len() {
                                    assert(frontier@[k] == fr0[k]);
                                } else {
                                    assert(reached(g, m as int, wpos + 1, frontier@[k].1 as int, frontier@[k].0 as int));
                                }
                            }
                        }
                    }
                }
            }
            j += 1;
        }
        proof {
            let d2 = done.insert(cur);
            assert forall|x: usize, c: int| pending_or_done(frontier@, done, x, c) || (x == position && c == cost) implies pending_or_done(
                frontier@,
                d2,
                x,
                c,
            ) by {}
            lemma_potential_nonneg(min_dist@, n as int, cap);
            assert forall|e: int| expanded(d2, e) implies (expanded(done, e) || e == position) by {
                let c = choose|c: int| #[trigger] d2.contains((e as usize, c)) && 0 <= e <= usize::MAX;
                if (e as usize, c) != cur {
                    assert(done.contains((e as usize, c)));
                }
            }
            assert forall|e: int| expanded(done, e) implies expanded(d2, e) by {
                let c = choose|c: int| #[trigger] done.contains((e as usize, c)) && 0 <= e <= usize::MAX;
                assert(d2.contains((e as usize, c)));
            }
            assert(d2.contains(((position as int) as usize, cost as int)));
            assert(expanded(d2, position as int));
            assert forall|p: (usize, int)| #[trigger] d2.contains(p) implies p.0 < n && g.present(p.0 as int) && 0 <= p.1
                <= d && exists|j: nat| reached(g, m as int, j, p.0 as int, p.1) by {
                if p == cur {
                    assert(reached(g, m as int, wpos, p.0 as int, p.1));
                } else {
                    assert(done.contains(p));
                }
            }
            assert forall|a: Adjacency| #[trigger] adjacencies@.contains(a) <==> exists|e: int, y: int|
                expanded(d2, e) && #[trigger] g.has_edge(e, y) && a == canonical_spec((e as usize, y as usize)) by {
                if exists|i: int| 0 <= i < nbrs@.len() && a == canonical_spec((position, #[trigger] nbrs@[i])) {
                    let i = choose|i: int| 0 <= i < nbrs@.len() && a == canonical_spec((position, #[trigger] nbrs@[i]));
                    assert(g.has_edge(position as int, nbrs@[i] as int));
                }
                if exists|e: int, y: int|
                    expanded(d2, e) && #[trigger] g.has_edge(e, y) && a == canonical_spec((e as usize, y as usize)) {
                    let (e, y) = choose|e: int, y: int|
                        expanded(d2, e) && #[trigger] g.has_edge(e, y) && a == canonical_spec((e as usize, y as usize));
                    if !expanded(done, e) {
                        assert(e == position);
                        let i = choose|i: int| 0 <= i < nbrs@.len() && nbrs@[i] == y as usize;
                        assert(a == canonical_spec((position, nbrs@[i])));
                    }
                }
            }
            assert forall|x: usize, c: int, y: int|
                #![trigger d2.contains((x, c)), g.has_edge(x as int, y)]
                d2.contains((x, c)) && g.has_edge(x as int, y) && y != 0 && c + enter_cost(g, y) <= d
                    implies min_dist@.contains_key(other_spec(y) as usize) && min_dist@[other_spec(y) as usize] <= c
                    + enter_cost(g, y) by {
                if (x, c) == cur && !done.contains((x, c)) {
                    let i = choose|i: int| 0 <= i < nbrs@.len() && nbrs@[i] == y as usize;
                    assert(nbrs@[i] != 0);
                }
            }
            done = d2;
        }
    }
    proof {
        assert forall|x: usize, c: int| pending_or_done(frontier@, done, x, c) implies done.contains((x, c)) by {}
        assert forall|a: Adjacency| adjacencies@.to_set().contains(a) <==> neighborhood(g, m as int, d).contains(a) by {
            if adjacencies@.contains(a) {
                let (e, y) = choose|e: int, y: int|
                    expanded(done, e) && #[trigger] g.has_edge(e, y) && a == canonical_spec((e as usize, y as usize));
                let c = choose|c: int| #[trigger] done.contains((e as usize, c)) && 0 <= e <= usize::MAX;
                assert(done.contains((e as usize, c)));
                let w = choose|w: nat| reached(g, m as int, w, e, c);
                assert(in_reach(g, m as int, d, e));
            }
            if neighborhood(g, m as int, d).contains(a) {
                let (e, y) = choose|e: int, y: int|
                    in_reach(g, m as int, d, e) && #[trigger] g.has_edge(e, y) && a == canonical_spec((e as usize, y as usize));
                let (k, c) = choose|k: nat, c: int| c <= d && #[trigger] reached(g, m as int, k, e, c);
                lemma_reached_expanded(g, m as int, d, done, min_dist@, k, e, c);
                let c2 = choose|c2: int| c2 <= c && #[trigger] done.contains((e as usize, c2));
                lemma_neighbor_present(g, e, y);
                assert(expanded(done, e));
            }
        }
        assert(adjacencies@.to_set() =~= neighborhood(g, m as int, d));
    }
    adjacencies
}

/// `r` holds a complexity for exactly the markers `dom` admits, each the CARP
/// index of a neighborhood of that marker at depth `d`.
pub open spec fn is_scan(g: GraphModel, d: int, r: Map<usize, usize>, dom: spec_fn(int) -> bool) -> bool {
    &&& forall|k: usize| #[trigger] r.contains_key(k) <==> dom(k as int)
    &&& forall|k: usize|
        #[trigger] r.contains_key(k) ==> exists|s: Seq<Adjacency>|
            is_neighborhood(g, k as int, d, s) && r[k] == count_contested_in(s, s)
}

/// The complexity of every active marker with id in `start .. end`: the CARP
/// index of its neighborhood at depth `max_depth`.
pub fn scan_enumerate(graph: &MBG, max_depth: usize, start: usize, end: usize, _thread_num: usize) -> (r:
    HashMap<Marker, usize>)
    requires
        graph.wf(),
    ensures
        is_scan(graph@, max_depth as int, r@, |k: int| start <= k < end && graph@.is_active(k)),
{
    broadcast use vstd::std_specs::hash::group_hash_axioms;

    let mut node_complexities: HashMap<Marker, usize> = HashMap::new();
    let mut m = start;
    while m < end
        invariant
            graph.wf(),
            m == start || start <= m <= end,
            is_scan(graph@, max_depth as int, node_complexities@, |k: int| start <= k < m && graph@.is_active(k)),
        decreases end - m,
    {
        if graph.is_active_marker(m) {
            let adjacencies = adjacency_neighborhood(m, max_depth, graph);
            let ci = carp_measure_from_adjacencies(&adjacencies);
            node_complexities.insert(m, ci);
            proof {
                assert(is_neighborhood(graph@, m as int, max_depth as int, adjacencies@));
            }
        }
        proof {
            assert forall|k: usize| #[trigger] node_complexities@.contains_key(k) <==> (start <= k < m + 1 && graph@.is_active(k as int)) by {}
        }
        m += 1;
    }
    node_complexities
}

/// The complexity of every active marker: the CARP index of its
/// neighborhood at depth `max_depth`.
pub fn scan_graph(graph: &MBG, max_depth: usize) -> (r: HashMap<Marker, usize>)
    requires
        graph.wf(),
    ensures
        is_scan(graph@, max_depth as int, r@, |k: int| graph@.is_active(k)),
{
    broadcast use vstd::std_specs::hash::group_hash_axioms;

    let markerlist = graph.markers();
    let mut node_complexities: HashMap<Marker, usize> = HashMap::new();
    let mut i: usize = 0;
    while i < markerlist.len()
        invariant
            graph.wf(),
            i <= markerlist@.len(),
            forall|k: usize| markerlist@.contains(k) <==> graph@.is_active(k as int),
            is_scan(graph@, max_depth as int, node_complexities@, |k: int| exists|j: int| 0 <= j < i && markerlist@[j] == k),
        decreases markerlist@.len() - i,
    {
        let m = markerlist[i];
        let adjacencies = adjacency_neighborhood(m, max_depth, graph);
        let ci = carp_measure_from_adjacencies(&adjacencies);
        node_complexities.insert(m, ci);
        proof {
            assert(is_neighborhood(graph@, m as int, max_depth as int, adjacencies@));
            assert forall|k: usize| #[trigger] node_complexities@.contains_key(k) <==> (exists|j: int| 0 <= j < i + 1 && markerlist@[j] == k) by {
                if k == m {
                    assert(markerlist@[i as int] == k);
                }
            }
        }
        i += 1;
    }
    proof {
        assert forall|k: usize| #[trigger] node_complexities@.contains_key(k) <==> graph@.is_active(k as int) by {
            if graph@.is_active(k as int) {
                assert(markerlist@.contains(k));
            }
        }
    }
    node_complexities
}

/// The complexity the scan reports for a marker is the CARP index of that
/// marker's neighborhood at the same depth.
pub proof fn lemma_scan_matches_neighborhood(
    g: GraphModel,
    d: int,
    r: Map<usize, usize>,
    dom: spec_fn(int) -> bool,
    m: usize,
    s: Seq<Adjacency>,
)
    requires
        is_scan(g, d, r, dom),
        r.contains_key(m),
        is_neighborhood(g, m as int, d, s),
    ensures
        r[m] == count_contested_in(s, s),
{
    let s2 = choose|s2: Seq<Adjacency>| is_neighborhood(g, m as int, d, s2) && r[m] == count_contested_in(s2, s2);
    lemma_carp_depends_on_set(s, s2);
}

proof fn lemma_product_fits(a: usize, b: usize)
    ensures
        (a as u128) * (b as u128) <= u128::MAX,
{
    assert(usize::MAX <= u64::MAX);
    assert((a as u128) * (b as u128) <= (u64::MAX as u128) * (u64::MAX as u128)) by (nonlinear_arith)
        requires
            a <= u64::MAX,
            b <= u64::MAX,
    ;
}

/// The keys in `s` whose value under `m` is below `v`.
pub open spec fn keys_below(m: Map<usize, usize>, s: Set<usize>, v: usize) -> Set<usize> {
    s.filter(|k: usize| m[k] < v)
}

/// How many markers have a complexity below `v`.
pub open spec fn below(m: Map<usize, usize>, v: usize) -> nat {
    keys_below(m, m.dom(), v).len()
}

/// Whether marker `u` falls in the band `[low, high)`: the share of all
/// markers whose complexity is below that of `u` is at least `low` and
/// less than `high` (fractions as numerator and denominator).
pub open spec fn in_band(m: Map<usize, usize>, u: usize, low: (usize, usize), high: (usize, usize)) -> bool {
    let b = below(m, m[u]) as int;
    let n = m.dom().len() as int;
    &&& m.contains_key(u)
    &&& b * low.1 >= low.0 * n
    &&& b * high.1 < high.0 * n
}

/// Number of markers whose complexity is below `v`.
fn count_below(node_complexities: &HashMap<Marker, usize>, v: usize) -> (r: usize)
    ensures
        r == below(node_complexities@, v),
{
    broadcast use vstd::std_specs::hash::group_hash_axioms;

    let ghost m = node_complexities@;
    let total = node_complexities.len();
    let mut count: usize = 0;
    let ghost mut done: Set<usize> = Set::empty();
    proof {
        assert(keys_below(m, done, v) =~= Set::empty());
    }
    for p in it: node_complexities.iter()
        invariant
            m == node_complexities@,
            m.dom().finite(),
            total == m.dom().len(),
            it.seq().no_duplicates(),
            forall|j: int| 0 <= j < it.seq().len() ==> m.contains_key(*(#[trigger] it.seq()[j]).0) && m[*it.seq()[j].0] == *it.seq()[j].1,
            done.subset_of(m.dom()),
            done.finite(),
            done.len() == it.index(),
            it.seq().len() == m.dom().len(),
            forall|k: usize| #[trigger] done.contains(k) <==> exists|j: int| 0 <= j < it.index() && *it.seq()[j].0 == k,
            count == keys_below(m, done, v).len(),
    {
        let (k, c) = p;
        let ghost i = it.index();
        proof {
            assert(it.seq()[i] == p);
            assert(!done.contains(*k)) by {
                if done.contains(*k) {
                    let j = choose|j: int| 0 <= j < i && *it.seq()[j].0 == *k;
                    assert(m[*it.seq()[j].0] == *it.seq()[j].1);
                    assert(it.seq()[j] == it.seq()[i]);
                }
            }
            vstd::set_lib::lemma_len_subset(keys_below(m, done, v), done);
            vstd::set_lib::lemma_len_subset(done.insert(*k), m.dom());
        }
        if *c < v {
            count += 1;
        }
        proof {
            let d2 = done.insert(*k);
            if *c < v {
                assert(keys_below(m, d2, v) =~= keys_below(m, done, v).insert(*k));
            } else {
                assert(keys_below(m, d2, v) =~= keys_below(m, done, v));
            }
            assert forall|k2: usize| #[trigger] d2.contains(k2) <==> exists|j: int| 0 <= j < i + 1 && *it.seq()[j].0 == k2 by {
                if k2 == *k {
                    assert(*it.seq()[i].0 == k2);
                }
                if exists|j: int| 0 <= j < i + 1 && *it.seq()[j].0 == k2 {
                    let j = choose|j: int| 0 <= j < i + 1 && *it.seq()[j].0 == k2;
                    if j < i {
                        assert(done.contains(k2));
                    }
                }
            }
            done = d2;
        }
    }
    proof {
        vstd::set_lib::lemma_subset_equality(done, m.dom());
        assert(done =~= m.dom());
    }
    count
}

/// The markers in the percentile band `[percentile_low, percentile_high)`:
/// those whose complexity has, below it, at least the low share and less
/// than the high share of all markers. Shares are given as (numerator,
/// denominator).
pub fn top_percentile(
    node_complexities: &HashMap<Marker, usize>,
    percentile_low: (usize, usize),
    percentile_high: (usize, usize),
) -> (r: Vec<Marker>)
    ensures
        forall|u: usize| #[trigger] r@.contains(u) <==> in_band(node_complexities@, u, percentile_low, percentile_high),
        r@.no_duplicates(),
{
    broadcast use vstd::std_specs::hash::group_hash_axioms;

    let ghost m = node_complexities@;
    let num_nodes = node_complexities.len();
    let mut below_cache: HashMap<usize, usize> = HashMap::new();
    let mut complex_nodes: Vec<Marker> = Vec::new();
    let ghost mut done: Set<usize> = Set::empty();
    for p in it: node_complexities.iter()
        invariant
            m == node_complexities@,
            num_nodes == m.dom().len(),
            it.seq().no_duplicates(),
            forall|j: int| 0 <= j < it.seq().len() ==> m.contains_key(*(#[trigger] it.seq()[j]).0) && m[*it.seq()[j].0] == *it.seq()[j].1,
            done.subset_of(m.dom()),
            done.finite(),
            done.len() == it.index(),
            it.seq().len() == m.dom().len(),
            forall|k: usize| #[trigger] done.contains(k) <==> exists|j: int| 0 <= j < it.index() && *it.seq()[j].0 == k,
            forall|v: usize| #[trigger] below_cache@.contains_key(v) ==> below_cache@[v] == below(m, v),
            forall|u: usize| #[trigger] complex_nodes@.contains(u) <==> (in_band(m, u, percentile_low, percentile_high)
                && done.contains(u)),
            complex_nodes@.no_duplicates(),
    {
        let (u, c) = p;
        let ghost i = it.index();
        proof {
            assert(it.seq()[i] == p);
            assert(!done.contains(*u)) by {
                if done.contains(*u) {
                    let j = choose|j: int| 0 <= j < i && *it.seq()[j].0 == *u;
                    assert(m[*it.seq()[j].0] == *it.seq()[j].1);
                    assert(it.seq()[j] == it.seq()[i]);
                }
            }
            vstd::set_lib::lemma_len_subset(done.insert(*u), m.dom());
        }
        let b = match below_cache.get(c) {
            Some(b) => *b,
            None => {
                let b = count_below(node_complexities, *c);
                below_cache.insert(*c, b);
                b
            },
        };
        proof {
            lemma_product_fits(b, percentile_low.1);
            lemma_product_fits(percentile_low.0, num_nodes);
            lemma_product_fits(b, percentile_high.1);
            lemma_product_fits(percentile_high.0, num_nodes);
        }
        let lo = (b as u128) * (percentile_low.1 as u128) >= (percentile_low.0 as u128) * (num_nodes as u128);
        let hi = (b as u128) * (percentile_high.1 as u128) < (percentile_high.0 as u128) * (num_nodes as u128);
        proof {
            assert(b == below(m, m[*u]));
        }
        let ghost before = complex_nodes@;
        if lo && hi {
            proof {
                lemma_push_no_dup(before, *u);
            }
            complex_nodes.push(*u);
        }
        proof {
            assert(in_band(m, *u, percentile_low, percentile_high) == (lo && hi));
            let d2 = done.insert(*u);
            assert forall|w: usize| #[trigger] complex_nodes@.contains(w) <==> (in_band(m, w, percentile_low, percentile_high)
                && d2.contains(w)) by {
                lemma_push_contains(before, *u, w);
            }
            assert forall|k2: usize| #[trigger] d2.contains(k2) <==> exists|j: int| 0 <= j < i + 1 && *it.seq()[j].0 == k2 by {
                if k2 == *u {
                    assert(*it.seq()[i].0 == k2);
                }
                if exists|j: int| 0 <= j < i + 1 && *it.seq()[j].0 == k2 {
                    let j = choose|j: int| 0 <= j < i + 1 && *it.seq()[j].0 == k2;
                    if j < i {
                        assert(done.contains(k2));
                    }
                }
            }
            done = d2;
        }
    }
    proof {
        vstd::set_lib::lemma_subset_equality(done, m.dom());
        assert(done =~= m.dom());
    }
    complex_nodes
}

} // verus!
