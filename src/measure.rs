use vstd::prelude::*;

use crate::mbg::{GraphModel, MBG, lemma_degree_fits, lemma_neighbor_present, lemma_push_contains, lemma_push_no_dup};
use crate::rearrangement::{Adjacency, Extremity, TELOMERE, canonicize};
use crate::util::{is_my_adjacency, is_my_adjacency_spec, lemma_one_owner};

verus! {

/// The end of a canonical adjacency that owns it.
pub open spec fn owner(a: Adjacency) -> usize {
    if is_my_adjacency_spec(a) {
        a.0
    } else {
        a.1
    }
}

/// The end of a canonical adjacency that does not own it.
pub open spec fn non_owner(a: Adjacency) -> usize {
    if is_my_adjacency_spec(a) {
        a.1
    } else {
        a.0
    }
}

/// The canonical form of `(x, y)` is owned by `x` exactly when `(x, y)` is.
proof fn lemma_canonical_owner(x: usize, y: usize)
    ensures
        is_my_adjacency_spec((x, y)) ==> owner(crate::rearrangement::canonical_spec((x, y))) == x
            && non_owner(crate::rearrangement::canonical_spec((x, y))) == y,
        owner(crate::rearrangement::canonical_spec((x, y))) == x ==> is_my_adjacency_spec((x, y)),
{
    lemma_one_owner(x, y);
    lemma_one_owner(y, x);
}

/// Classifies every adjacency owned by one of `extremities` as contested or
/// uncontested; each is emitted once, in canonical form.
pub fn calc_partial_measure(graph: &MBG, extremities: &[Extremity], _threadnum: usize) -> (r: (
    Vec<Adjacency>,
    Vec<Adjacency>,
))
    requires
        graph.wf(),
        forall|i: int| 0 <= i < extremities@.len() ==> graph@.present(#[trigger] extremities@[i] as int),
        extremities@.no_duplicates(),
    ensures
        forall|a: Adjacency|
            #![trigger r.0@.contains(a)]
            r.0@.contains(a) <==> (graph@.adjacency_set().contains(a) && graph@.contested(a)
                && extremities@.contains(owner(a))),
        forall|a: Adjacency|
            #![trigger r.1@.contains(a)]
            r.1@.contains(a) <==> (graph@.adjacency_set().contains(a) && !graph@.contested(a)
                && extremities@.contains(owner(a))),
        r.0@.no_duplicates(),
        r.1@.no_duplicates(),
{
    let ghost g = graph@;
    let mut contested: Vec<Adjacency> = Vec::new();
    let mut uncontested: Vec<Adjacency> = Vec::new();
    let mut i: usize = 0;
    while i < extremities.len()
        invariant
            graph.wf(),
            g == graph@,
            i <= extremities@.len(),
            forall|k: int| 0 <= k < extremities@.len() ==> graph@.present(#[trigger] extremities@[k] as int),
            extremities@.no_duplicates(),
            forall|a: Adjacency|
                #![trigger contested@.contains(a)]
                contested@.contains(a) <==> (g.adjacency_set().contains(a) && g.contested(a)
                    && extremities@.take(i as int).contains(owner(a))),
            forall|a: Adjacency|
                #![trigger uncontested@.contains(a)]
                uncontested@.contains(a) <==> (g.adjacency_set().contains(a) && !g.contested(a)
                    && extremities@.take(i as int).contains(owner(a))),
            contested@.no_duplicates(),
            uncontested@.no_duplicates(),
        decreases extremities@.len() - i,
    {
        let x = extremities[i];
        let degx = match graph.degree(x) {
            Some(d) => d,
            None => 0,
        };
        let nbrs = match graph.adj_neighbors(x) {
            Some(v) => v,
            None => Vec::new(),
        };
        proof {
            lemma_degree_fits(g, x as int);
            assert(extremities@.contains(x));
            assert(!extremities@.take(i as int).contains(x)) by {
                if extremities@.take(i as int).contains(x) {
                    let k = choose|k: int| 0 <= k < i && extremities@.take(i as int)[k] == x;
                    assert(extremities@[k] == extremities@[i as int]);
                }
            }
            assert(extremities@.take(i + 1) =~= extremities@.take(i as int).push(x));
        }
        let mut j: usize = 0;
        while j < nbrs.len()
            invariant
                graph.wf(),
                g == graph@,
                i < extremities@.len(),
                x == extremities@[i as int],
                g.present(x as int),
                degx == g.degree(x as int),
                nbrs@ == g.adj[x as int],
                j <= nbrs@.len(),
                !extremities@.take(i as int).contains(x),
                forall|a: Adjacency|
                    #![trigger contested@.contains(a)]
                    contested@.contains(a) <==> (g.adjacency_set().contains(a) && g.contested(a) && (
                    extremities@.take(i as int).contains(owner(a)) || (owner(a) == x && nbrs@.take(
                        j as int,
                    ).contains(non_owner(a))))),
                forall|a: Adjacency|
                    #![trigger uncontested@.contains(a)]
                    uncontested@.contains(a) <==> (g.adjacency_set().contains(a) && !g.contested(a) && (
                    extremities@.take(i as int).contains(owner(a)) || (owner(a) == x && nbrs@.take(
                        j as int,
                    ).contains(non_owner(a))))),
                contested@.no_duplicates(),
                uncontested@.no_duplicates(),
            decreases nbrs@.len() - j,
        {
            let y = nbrs[j];
            proof {
                assert(g.has_edge(x as int, y as int));
                lemma_neighbor_present(g, x as int, y as int);
                assert(nbrs@.no_duplicates());
                assert(nbrs@.take(j + 1) =~= nbrs@.take(j as int).push(y));
                assert(!nbrs@.take(j as int).contains(y)) by {
                    if nbrs@.take(j as int).contains(y) {
                        let k = choose|k: int| 0 <= k < j && nbrs@.take(j as int)[k] == y;
                        assert(nbrs@[k] == nbrs@[j as int]);
                    }
                }
                lemma_canonical_owner(x, y);
                lemma_one_owner(x, y);
            }
            let mine = is_my_adjacency((x, y));
            let ghost c0 = contested@;
            let ghost u0 = uncontested@;
            let ghost p = crate::rearrangement::canonical_spec((x, y));
            if mine {
                let degy = match graph.degree(y) {
                    Some(d) => d,
                    None => 0,
                };
                let e = canonicize((x, y));
                proof {
                    lemma_degree_fits(g, y as int);
                    assert(g.adjacency_set().contains(p));
                    assert(owner(p) == x && non_owner(p) == y);
                }
                let is_contested = x == y || (x != TELOMERE && y != TELOMERE && (degx > 1 || degy > 1));
                proof {
                    assert(is_contested == g.contested(p));
                }
                if is_contested {
                    proof {
                        assert(!c0.contains(p));
                        lemma_push_no_dup(c0, p);
                    }
                    contested.push(e);
                } else {
                    proof {
                        assert(!u0.contains(p));
                        lemma_push_no_dup(u0, p);
                    }
                    uncontested.push(e);
                }
            }
            proof {
                assert forall|a: Adjacency| #[trigger] contested@.contains(a) <==> (g.adjacency_set().contains(a) && g.contested(a) && (
                    extremities@.take(i as int).contains(owner(a)) || (owner(a) == x && nbrs@.take(
                        j + 1,
                    ).contains(non_owner(a))))) by {
                    lemma_push_contains(nbrs@.take(j as int), y, non_owner(a));
                    lemma_push_contains(c0, p, a);
                    if owner(a) == x && non_owner(a) == y && g.adjacency_set().contains(a) {
                        assert(a == p);
                    }
                }
                assert forall|a: Adjacency| #[trigger] uncontested@.contains(a) <==> (g.adjacency_set().contains(a) && !g.contested(a) && (
                    extremities@.take(i as int).contains(owner(a)) || (owner(a) == x && nbrs@.take(
                        j + 1,
                    ).contains(non_owner(a))))) by {
                    lemma_push_contains(nbrs@.take(j as int), y, non_owner(a));
                    lemma_push_contains(u0, p, a);
                    if owner(a) == x && non_owner(a) == y && g.adjacency_set().contains(a) {
                        assert(a == p);
                    }
                }
            }
            j += 1;
        }
        proof {
            assert(nbrs@.take(nbrs@.len() as int) =~= nbrs@);
            assert forall|a: Adjacency| g.adjacency_set().contains(a) && owner(a) == x implies nbrs@.contains(non_owner(a)) by {
                assert(g.has_edge(a.0 as int, a.1 as int));
                lemma_neighbor_present(g, a.0 as int, a.1 as int);
            }
            assert forall|a: Adjacency| extremities@.take(i + 1).contains(owner(a)) <==> (extremities@.take(i as int).contains(owner(a)) || owner(a) == x) by {
                lemma_push_contains(extremities@.take(i as int), x, owner(a));
            }
        }
        i += 1;
    }
    proof {
        assert(extremities@.take(extremities@.len() as int) =~= extremities@);
    }
    (contested, uncontested)
}

impl GraphModel {
    /// The contested adjacencies of the graph.
    pub open spec fn contested_set(self) -> Set<Adjacency> {
        self.adjacency_set().filter(|a: Adjacency| self.contested(a))
    }

    /// The uncontested adjacencies of the graph.
    pub open spec fn uncontested_set(self) -> Set<Adjacency> {
        self.adjacency_set().filter(|a: Adjacency| !self.contested(a))
    }
}

/// Every adjacency of a well-formed graph is owned by a present extremity.
proof fn lemma_owner_present(g: GraphModel, a: Adjacency)
    requires
        g.wf(),
        g.adjacency_set().contains(a),
    ensures
        g.present(owner(a) as int),
{
    lemma_neighbor_present(g, a.0 as int, a.1 as int);
}

/// Classifies every adjacency of the graph, splitting the present extremities
/// into `n_threads` contiguous slices of `len / n_threads + 1` each and
/// measuring slice by slice; the result does not depend on `n_threads`.
pub fn calc_carp_measure_multithread(graph: &MBG, n_threads: usize) -> (r: (Vec<Adjacency>, Vec<Adjacency>))
    requires
        graph.wf(),
        n_threads >= 1,
    ensures
        r.0@.to_set() == graph@.contested_set(),
        r.1@.to_set() == graph@.uncontested_set(),
        r.0@.no_duplicates(),
        r.1@.no_duplicates(),
{
    let ghost g = graph@;
    let extremities = graph.extremities();
    let tot = extremities.len();
    proof {
        assert forall|k: int| 0 <= k < extremities@.len() implies (#[trigger] extremities@[k]) < g.adj.len() by {
            assert(extremities@.contains(extremities@[k]));
        }
        crate::mbg::lemma_seq_bounded(extremities@, g.adj.len());
    }
    let slice_len = tot / n_threads + 1;
    let mut contested: Vec<Adjacency> = Vec::new();
    let mut uncontested: Vec<Adjacency> = Vec::new();
    let mut lb: usize = 0;
    let mut i: usize = 0;
    while i < n_threads
        invariant
            graph.wf(),
            g == graph@,
            forall|x: usize| extremities@.contains(x) <==> g.present(x as int),
            extremities@.no_duplicates(),
            tot == extremities@.len(),
            slice_len == tot / n_threads + 1,
            i <= n_threads,
            lb as int == if i * slice_len <= tot { i * slice_len } else { tot as int },
            forall|a: Adjacency|
                #![trigger contested@.contains(a)]
                contested@.contains(a) <==> (g.adjacency_set().contains(a) && g.contested(a)
                    && extremities@.take(lb as int).contains(owner(a))),
            forall|a: Adjacency|
                #![trigger uncontested@.contains(a)]
                uncontested@.contains(a) <==> (g.adjacency_set().contains(a) && !g.contested(a)
                    && extremities@.take(lb as int).contains(owner(a))),
            contested@.no_duplicates(),
            uncontested@.no_duplicates(),
        decreases n_threads - i,
    {
        let rb = if tot - lb <= slice_len {
            tot
        } else {
            lb + slice_len
        };
        proof {
            assert((i + 1) * slice_len == i * slice_len + slice_len) by (nonlinear_arith);
        }
        let part = vstd::slice::slice_subrange(extremities.as_slice(), lb, rb);
        let ghost sub = extremities@.subrange(lb as int, rb as int);
        proof {
            assert(part@ == sub);
            assert forall|k: int| 0 <= k < sub.len() implies g.present(#[trigger] sub[k] as int) by {
                assert(extremities@.contains(sub[k]));
            }
            assert(sub.no_duplicates()) by {
                assert forall|a: int, b: int| 0 <= a < b < sub.len() implies sub[a] != sub[b] by {
                    assert(sub[a] == extremities@[lb + a] && sub[b] == extremities@[lb + b]);
                }
            }
        }
        let (mut c, mut u) = calc_partial_measure(graph, part, i);
        let ghost c0 = contested@;
        let ghost u0 = uncontested@;
        let ghost cp = c@;
        let ghost up = u@;
        proof {
            assert(extremities@.take(rb as int) =~= extremities@.take(lb as int) + sub);
            assert forall|e: usize| extremities@.take(lb as int).contains(e) implies !sub.contains(e) by {
                let k1 = choose|k: int| 0 <= k < lb && extremities@.take(lb as int)[k] == e;
                if sub.contains(e) {
                    let k2 = choose|k: int| 0 <= k < sub.len() && sub[k] == e;
                    assert(extremities@[k1] == extremities@[lb + k2]);
                }
            }
            assert forall|e: usize| extremities@.take(rb as int).contains(e) <==> (extremities@.take(lb as int).contains(e) || sub.contains(e)) by {
                let t = extremities@.take(lb as int);
                if extremities@.take(rb as int).contains(e) {
                    let k = choose|k: int| 0 <= k < rb && extremities@.take(rb as int)[k] == e;
                    if k < lb {
                        assert(t[k] == e);
                    } else {
                        assert(sub[k - lb] == e);
                    }
                }
                if t.contains(e) {
                    let k = choose|k: int| 0 <= k < lb && t[k] == e;
                    assert(extremities@.take(rb as int)[k] == e);
                }
                if sub.contains(e) {
                    let k = choose|k: int| 0 <= k < sub.len() && sub[k] == e;
                    assert(extremities@.take(rb as int)[lb + k] == e);
                }
            }
            assert forall|a: int, b: int| 0 <= a < c0.len() && 0 <= b < cp.len() implies c0[a] != cp[b] by {
                assert(c0.contains(c0[a]));
                assert(cp.contains(cp[b]));
            }
            assert forall|a: int, b: int| 0 <= a < u0.len() && 0 <= b < up.len() implies u0[a] != up[b] by {
                assert(u0.contains(u0[a]));
                assert(up.contains(up[b]));
            }
            vstd::seq_lib::lemma_no_dup_in_concat(c0, cp);
            vstd::seq_lib::lemma_no_dup_in_concat(u0, up);
        }
        contested.append(&mut c);
        uncontested.append(&mut u);
        proof {
            assert(contested@ == c0 + cp);
            assert(uncontested@ == u0 + up);
            assert forall|a: Adjacency| #[trigger] contested@.contains(a) <==> (c0.contains(a) || cp.contains(a)) by {
                if contested@.contains(a) {
                    let k = choose|k: int| 0 <= k < contested@.len() && contested@[k] == a;
                    if k < c0.len() {
                        assert(c0[k] == a);
                    } else {
                        assert(cp[k - c0.len()] == a);
                    }
                }
                if c0.contains(a) {
                    let k = choose|k: int| 0 <= k < c0.len() && c0[k] == a;
                    assert(contested@[k] == a);
                }
                if cp.contains(a) {
                    let k = choose|k: int| 0 <= k < cp.len() && cp[k] == a;
                    assert(contested@[c0.len() + k] == a);
                }
            }
            assert forall|a: Adjacency| #[trigger] uncontested@.contains(a) <==> (u0.contains(a) || up.contains(a)) by {
                if uncontested@.contains(a) {
                    let k = choose|k: int| 0 <= k < uncontested@.len() && uncontested@[k] == a;
                    if k < u0.len() {
                        assert(u0[k] == a);
                    } else {
                        assert(up[k - u0.len()] == a);
                    }
                }
                if u0.contains(a) {
                    let k = choose|k: int| 0 <= k < u0.len() && u0[k] == a;
                    assert(uncontested@[k] == a);
                }
                if up.contains(a) {
                    let k = choose|k: int| 0 <= k < up.len() && up[k] == a;
                    assert(uncontested@[u0.len() + k] == a);
                }
            }
        }
        lb = rb;
        i += 1;
    }
    proof {
        assert(n_threads * slice_len > tot) by (nonlinear_arith)
            requires
                slice_len == tot / n_threads + 1,
                n_threads >= 1,
        {
            vstd::arithmetic::div_mod::lemma_fundamental_div_mod(tot as int, n_threads as int);
        }
        assert(lb == tot);
        assert(extremities@.take(tot as int) =~= extremities@);
        assert forall|a: Adjacency| g.adjacency_set().contains(a) implies extremities@.contains(owner(a)) by {
            lemma_owner_present(g, a);
        }
        assert(contested@.to_set() =~= g.contested_set());
        assert(uncontested@.to_set() =~= g.uncontested_set());
    }
    (contested, uncontested)
}

/// The measure splits the adjacency set into two disjoint parts, contested and
/// uncontested, that together make up all of it.
pub proof fn lemma_measure_partition(g: GraphModel)
    requires
        g.wf(),
    ensures
        g.contested_set().disjoint(g.uncontested_set()),
        g.contested_set() + g.uncontested_set() == g.adjacency_set(),
{
    assert(g.contested_set() + g.uncontested_set() =~= g.adjacency_set());
}

/// How often `x` occurs as an end in `s`; a self-adjacency counts twice.
pub open spec fn end_count(s: Seq<Adjacency>, x: usize) -> nat
    decreases s.len(),
{
    if s.len() == 0 {
        0
    } else {
        end_count(s.drop_last(), x) + (if s.last().0 == x {
            1nat
        } else {
            0nat
        }) + (if s.last().1 == x {
            1nat
        } else {
            0nat
        })
    }
}

/// Whether `a` is contested within the adjacency list `s`.
pub open spec fn contested_in(s: Seq<Adjacency>, a: Adjacency) -> bool {
    a.0 != TELOMERE && a.1 != TELOMERE && (end_count(s, a.0) > 1 || end_count(s, a.1) > 1)
}

/// How many members of `t` are contested within `s`.
pub open spec fn count_contested_in(s: Seq<Adjacency>, t: Seq<Adjacency>) -> nat
    decreases t.len(),
{
    if t.len() == 0 {
        0
    } else {
        count_contested_in(s, t.drop_last()) + if contested_in(s, t.last()) {
            1nat
        } else {
            0nat
        }
    }
}

/// A count, saturated at the largest `usize`.
pub open spec fn capped(n: nat) -> usize {
    if n >= usize::MAX {
        usize::MAX
    } else {
        n as usize
    }
}

/// How many members of `s` satisfy `p`.
pub open spec fn seq_count(s: Seq<Adjacency>, p: spec_fn(Adjacency) -> bool) -> nat
    decreases s.len(),
{
    if s.len() == 0 {
        0
    } else {
        seq_count(s.drop_last(), p) + if p(s.last()) {
            1nat
        } else {
            0nat
        }
    }
}

pub open spec fn first_is(x: usize) -> spec_fn(Adjacency) -> bool {
    |a: Adjacency| a.0 == x
}

pub open spec fn second_is(x: usize) -> spec_fn(Adjacency) -> bool {
    |a: Adjacency| a.1 == x
}

pub open spec fn contested_by(s: Seq<Adjacency>) -> spec_fn(Adjacency) -> bool {
    |a: Adjacency| contested_in(s, a)
}

/// Counting over a duplicate-free sequence is counting over its set.
proof fn lemma_seq_count_set(s: Seq<Adjacency>, p: spec_fn(Adjacency) -> bool)
    requires
        s.no_duplicates(),
    ensures
        s.to_set().filter(p).finite(),
        seq_count(s, p) == s.to_set().filter(p).len(),
    decreases s.len(),
{
    vstd::seq_lib::seq_to_set_is_finite(s);
    vstd::set_lib::lemma_len_subset(s.to_set().filter(p), s.to_set());
    if s.len() == 0 {
        assert(s.to_set().filter(p) =~= Set::empty());
    } else {
        let t = s.drop_last();
        let x = s.last();
        assert(t.no_duplicates()) by {
            assert forall|i: int, j: int| 0 <= i < j < t.len() implies t[i] != t[j] by {
                assert(t[i] == s[i] && t[j] == s[j]);
            }
        }
        lemma_seq_count_set(t, p);
        assert(s =~= t.push(x));
        assert(s.to_set() =~= t.to_set().insert(x)) by {
            assert forall|a: Adjacency| s.to_set().contains(a) <==> t.to_set().contains(a) || a == x by {
                crate::mbg::lemma_push_contains(t, x, a);
            }
        }
        assert(!t.to_set().contains(x)) by {
            if t.contains(x) {
                let i = choose|i: int| 0 <= i < t.len() && t[i] == x;
                assert(s[i] == s[s.len() - 1]);
            }
        }
        if p(x) {
            assert(s.to_set().filter(p) =~= t.to_set().filter(p).insert(x));
        } else {
            assert(s.to_set().filter(p) =~= t.to_set().filter(p));
        }
    }
}

proof fn lemma_end_count_split(s: Seq<Adjacency>, x: usize)
    ensures
        end_count(s, x) == seq_count(s, first_is(x)) + seq_count(s, second_is(x)),
    decreases s.len(),
{
    if s.len() > 0 {
        lemma_end_count_split(s.drop_last(), x);
    }
}

proof fn lemma_count_as_seq_count(s: Seq<Adjacency>, t: Seq<Adjacency>)
    ensures
        count_contested_in(s, t) == seq_count(t, contested_by(s)),
    decreases t.len(),
{
    if t.len() > 0 {
        lemma_count_as_seq_count(s, t.drop_last());
    }
}

/// The CARP index of a duplicate-free adjacency list depends only on the set
/// of adjacencies it lists.
pub proof fn lemma_carp_depends_on_set(s1: Seq<Adjacency>, s2: Seq<Adjacency>)
    requires
        s1.no_duplicates(),
        s2.no_duplicates(),
        s1.to_set() == s2.to_set(),
    ensures
        count_contested_in(s1, s1) == count_contested_in(s2, s2),
{
    assert forall|x: usize| end_count(s1, x) == end_count(s2, x) by {
        lemma_end_count_split(s1, x);
        lemma_end_count_split(s2, x);
        lemma_seq_count_set(s1, first_is(x));
        lemma_seq_count_set(s2, first_is(x));
        lemma_seq_count_set(s1, second_is(x));
        lemma_seq_count_set(s2, second_is(x));
    }
    assert(contested_by(s1) =~= contested_by(s2));
    lemma_count_as_seq_count(s1, s1);
    lemma_count_as_seq_count(s2, s2);
    lemma_seq_count_set(s1, contested_by(s1));
    lemma_seq_count_set(s2, contested_by(s2));
}

/// The CARP index of an adjacency set: the number of its members that touch
/// no telomere and have an end of degree above one within the set.
pub fn carp_measure_from_adjacencies(adjacencies: &Vec<Adjacency>) -> (r: usize)
    ensures
        r == count_contested_in(adjacencies@, adjacencies@),
{
    broadcast use vstd::std_specs::hash::group_hash_axioms;

    let ghost s = adjacencies@;
    let mut degrees: std::collections::HashMap<Extremity, usize> = std::collections::HashMap::new();
    let mut i: usize = 0;
    while i < adjacencies.len()
        invariant
            s == adjacencies@,
            i <= s.len(),
            forall|x: usize| #[trigger] degrees@.contains_key(x) ==> degrees@[x] == capped(end_count(s.take(i as int), x)),
            forall|x: usize| !#[trigger] degrees@.contains_key(x) ==> end_count(s.take(i as int), x) == 0,
        decreases s.len() - i,
    {
        let (x, y) = adjacencies[i];
        proof {
            assert(s.take(i + 1).drop_last() =~= s.take(i as int));
        }
        let dx = match degrees.get(&x) {
            Some(d) => *d,
            None => 0,
        };
        degrees.insert(x, dx.saturating_add(1));
        let dy = match degrees.get(&y) {
            Some(d) => *d,
            None => 0,
        };
        degrees.insert(y, dy.saturating_add(1));
        i += 1;
    }
    proof {
        assert(s.take(s.len() as int) =~= s);
    }
    let mut carp: usize = 0;
    let mut j: usize = 0;
    while j < adjacencies.len()
        invariant
            s == adjacencies@,
            j <= s.len(),
            forall|x: usize| #[trigger] degrees@.contains_key(x) ==> degrees@[x] == capped(end_count(s, x)),
            forall|x: usize| !#[trigger] degrees@.contains_key(x) ==> end_count(s, x) == 0,
            carp == count_contested_in(s, s.take(j as int)),
            carp <= j,
        decreases s.len() - j,
    {
        let (x, y) = adjacencies[j];
        let dx = match degrees.get(&x) {
            Some(d) => *d,
            None => 0,
        };
        let dy = match degrees.get(&y) {
            Some(d) => *d,
            None => 0,
        };
        proof {
            assert(s.take(j + 1).drop_last() =~= s.take(j as int));
        }
        if (dx > 1 || dy > 1) && x != TELOMERE && y != TELOMERE {
            carp += 1;
        }
        j += 1;
    }
    proof {
        assert(s.take(s.len() as int) =~= s);
    }
    carp
}

/// Removes `a` from a duplicate-free adjacency list.
fn remove_adjacency(v: &mut Vec<Adjacency>, a: Adjacency)
    requires
        old(v)@.no_duplicates(),
    ensures
        final(v)@.no_duplicates(),
        forall|z: Adjacency| #[trigger] final(v)@.contains(z) <==> (old(v)@.contains(z) && z != a),
{
    let mut k: usize = 0;
    while k < v.len()
        invariant
            v@ == old(v)@,
            v@.no_duplicates(),
            k <= v@.len(),
            forall|i: int| 0 <= i < k ==> v@[i] != a,
        decreases v@.len() - k,
    {
        if v[k].0 == a.0 && v[k].1 == a.1 {
            let ghost s = v@;
            v.remove(k);
            proof {
                s.remove_ensures(k as int);
                assert forall|z: Adjacency| #[trigger] v@.contains(z) <==> (s.contains(z) && z != a) by {
                    if v@.contains(z) {
                        let i = choose|i: int| 0 <= i < v@.len() && v@[i] == z;
                        if i < k {
                            assert(s[i] == z);
                            assert(s[i] != s[k as int]);
                        } else {
                            assert(s[i + 1] == z);
                            assert(s[i + 1] != s[k as int]);
                        }
                    }
                    if s.contains(z) && z != a {
                        let i = choose|i: int| 0 <= i < s.len() && s[i] == z;
                        if i < k {
                            assert(v@[i] == z);
                        } else {
                            assert(i != k);
                            assert(v@[i - 1] == z);
                        }
                    }
                }
                assert forall|x: int, y: int| 0 <= x < y < v@.len() implies v@[x] != v@[y] by {
                    let x2 = if x < k { x } else { x + 1 };
                    let y2 = if y < k { y } else { y + 1 };
                    assert(v@[x] == s[x2] && v@[y] == s[y2]);
                    assert(s[x2] != s[y2]);
                }
            }
            return;
        }
        k += 1;
    }
    proof {
        assert forall|z: Adjacency| #[trigger] v@.contains(z) implies z != a by {
            let i = choose|i: int| 0 <= i < v@.len() && v@[i] == z;
        }
    }
}

/// Adds `a` to a duplicate-free adjacency list unless it is there already.
fn insert_adjacency(v: &mut Vec<Adjacency>, a: Adjacency)
    requires
        old(v)@.no_duplicates(),
    ensures
        final(v)@.no_duplicates(),
        forall|z: Adjacency| #[trigger] final(v)@.contains(z) <==> (old(v)@.contains(z) || z == a),
{
    if !crate::scan::contains_adjacency(v, a) {
        let ghost s = v@;
        v.push(a);
        proof {
            lemma_push_no_dup(s, a);
            assert forall|z: Adjacency| #[trigger] v@.contains(z) <==> (s.contains(z) || z == a) by {
                lemma_push_contains(s, a, z);
            }
        }
    }
}

/// Whether `a` has already been found contested when the extremities in
/// `done` have been handled, and, of extremity `x`, the neighbors in `part`.
pub open spec fn seen_contested(g: GraphModel, done: Seq<usize>, x: usize, part: Seq<usize>, a: Adjacency) -> bool {
    &&& g.adjacency_set().contains(a)
    &&& a.0 != TELOMERE
    &&& ((done.contains(a.0) && g.degree(a.0 as int) > 1) || (done.contains(a.1) && g.degree(a.1 as int) > 1) || (
    g.degree(x as int) > 1 && touches(a, x, part)))
}

/// Whether `a` has already been met, and not found contested, in the same state.
pub open spec fn seen_uncontested(g: GraphModel, done: Seq<usize>, x: usize, part: Seq<usize>, a: Adjacency) -> bool {
    &&& g.adjacency_set().contains(a)
    &&& !seen_contested(g, done, x, part, a)
    &&& ((a.0 == TELOMERE && done.contains(TELOMERE)) || (a.0 != TELOMERE && (done.contains(a.0) || done.contains(a.1)
        || touches(a, x, part))))
}

/// Whether `a` joins `x` to one of `part`.
pub open spec fn touches(a: Adjacency, x: usize, part: Seq<usize>) -> bool {
    (a.0 == x && part.contains(a.1)) || (a.1 == x && part.contains(a.0))
}

/// Classifies every adjacency in one pass over the present extremities: an
/// adjacency met at an end of degree above one is contested, and moves there
/// if it was met as uncontested before; adjacencies of the telomere stay
/// uncontested.
pub fn calc_carp_measure_naive(graph: &MBG) -> (r: (Vec<Adjacency>, Vec<Adjacency>))
    requires
        graph.wf(),
    ensures
        r.0@.to_set() == graph@.contested_set(),
        r.1@.to_set() == graph@.uncontested_set(),
        r.0@.no_duplicates(),
        r.1@.no_duplicates(),
{
    let ghost g = graph@;
    let mut contested: Vec<Adjacency> = Vec::new();
    let mut uncontested: Vec<Adjacency> = Vec::new();
    let xs = graph.extremities();
    let mut i: usize = 0;
    let ghost empty = Seq::<usize>::empty();
    while i < xs.len()
        invariant
            graph.wf(),
            g == graph@,
            i <= xs@.len(),
            forall|x: usize| xs@.contains(x) <==> g.present(x as int),
            xs@.no_duplicates(),
            forall|a: Adjacency| #[trigger] contested@.contains(a) <==> seen_contested(g, xs@.take(i as int), 0, empty, a),
            forall|a: Adjacency| #[trigger] uncontested@.contains(a) <==> seen_uncontested(g, xs@.take(i as int), 0, empty, a),
            contested@.no_duplicates(),
            uncontested@.no_duplicates(),
        decreases xs@.len() - i,
    {
        let x = xs[i];
        let ghost done = xs@.take(i as int);
        proof {
            assert(xs@.contains(x));
            assert(g.present(x as int));
            assert(xs@.take(i + 1) =~= done.push(x));
            lemma_degree_fits(g, x as int);
        }
        let nbrs = match graph.adj_neighbors(x) {
            Some(v) => v,
            None => Vec::new(),
        };
        let degx = match graph.degree(x) {
            Some(d) => d,
            None => 0,
        };
        let is_contested = x > 1 && degx > 1;
        let mut j: usize = 0;
        while j < nbrs.len()
            invariant
                graph.wf(),
                g == graph@,
                g.present(x as int),
                nbrs@ == g.adj[x as int],
                degx == g.degree(x as int),
                is_contested == (x > 1 && degx > 1),
                j <= nbrs@.len(),
                forall|a: Adjacency| #[trigger] contested@.contains(a) <==> seen_contested(g, done, x, if x == TELOMERE { empty } else { nbrs@.take(j as int) }, a),
                forall|a: Adjacency| #[trigger] uncontested@.contains(a) <==> (seen_uncontested(g, done, x, if x == TELOMERE { empty } else { nbrs@.take(j as int) }, a)
                    || (x == TELOMERE && a.0 == TELOMERE && g.has_edge(0, a.1 as int) && nbrs@.take(j as int).contains(a.1))),
                contested@.no_duplicates(),
                uncontested@.no_duplicates(),
            decreases nbrs@.len() - j,
        {
            let y = nbrs[j];
            proof {
                assert(g.has_edge(x as int, y as int));
                lemma_neighbor_present(g, x as int, y as int);
                lemma_degree_fits(g, y as int);
                assert(nbrs@.take(j + 1) =~= nbrs@.take(j as int).push(y));
            }
            let ghost c0 = contested@;
            let ghost u0 = uncontested@;
            if x <= 1 {
                insert_adjacency(&mut uncontested, (x, y));
                proof {
                    assert forall|a: Adjacency| #[trigger] uncontested@.contains(a) <==> (seen_uncontested(g, done, x, empty, a)
                        || (x == TELOMERE && a.0 == TELOMERE && g.has_edge(0, a.1 as int) && nbrs@.take(j + 1).contains(a.1))) by {
                        lemma_push_contains(nbrs@.take(j as int), y, a.1);
                    }
                }
            } else if y > 1 {
                let e = canonicize((y, x));
                proof {
                    assert(g.adjacency_set().contains(e));
                }
                if is_contested {
                    insert_adjacency(&mut contested, e);
                    remove_adjacency(&mut uncontested, e);
                } else {
                    if !crate::scan::contains_adjacency(&contested, e) {
                        insert_adjacency(&mut uncontested, e);
                    }
                }
                proof {
                    assert forall|a: Adjacency| seen_contested(g, done, x, nbrs@.take(j + 1), a) <==> (seen_contested(g, done, x, nbrs@.take(j as int), a) || (is_contested && a == e)) by {
                        lemma_push_contains(nbrs@.take(j as int), y, a.0);
                        lemma_push_contains(nbrs@.take(j as int), y, a.1);
                    }
                    assert forall|a: Adjacency| a.0 <= a.1 implies (touches(a, x, nbrs@.take(j + 1)) <==> (touches(a, x, nbrs@.take(j as int)) || a == e)) by {
                        lemma_push_contains(nbrs@.take(j as int), y, a.0);
                        lemma_push_contains(nbrs@.take(j as int), y, a.1);
                    }
                }
            } else {
                proof {
                    assert(y == 0);
                    assert forall|a: Adjacency| a.0 <= a.1 implies (touches(a, x, nbrs@.take(j + 1)) && a.0 != TELOMERE <==> touches(a, x, nbrs@.take(j as int)) && a.0 != TELOMERE) by {
                        lemma_push_contains(nbrs@.take(j as int), y, a.0);
                        lemma_push_contains(nbrs@.take(j as int), y, a.1);
                    }
                    assert forall|a: Adjacency| seen_contested(g, done, x, nbrs@.take(j + 1), a) <==> seen_contested(g, done, x, nbrs@.take(j as int), a) by {
                        lemma_push_contains(nbrs@.take(j as int), y, a.0);
                        lemma_push_contains(nbrs@.take(j as int), y, a.1);
                    }
                    assert forall|a: Adjacency| seen_uncontested(g, done, x, nbrs@.take(j + 1), a) <==> seen_uncontested(g, done, x, nbrs@.take(j as int), a) by {
                        lemma_push_contains(nbrs@.take(j as int), y, a.0);
                        lemma_push_contains(nbrs@.take(j as int), y, a.1);
                    }
                }
            }
            j += 1;
        }
        proof {
            assert(nbrs@.take(nbrs@.len() as int) =~= nbrs@);
            let d2 = xs@.take(i + 1);
            assert forall|e: usize| d2.contains(e) <==> (done.contains(e) || e == x) by {
                lemma_push_contains(done, x, e);
            }
            assert forall|a: Adjacency| g.adjacency_set().contains(a) implies (touches(a, x, nbrs@) <==> (a.0 == x || a.1 == x)) by {
                lemma_neighbor_present(g, a.0 as int, a.1 as int);
            }
            assert forall|a: Adjacency| #[trigger] contested@.contains(a) <==> seen_contested(g, d2, 0, empty, a) by {}
            assert forall|a: Adjacency| #[trigger] uncontested@.contains(a) <==> seen_uncontested(g, d2, 0, empty, a) by {}
        }
        i += 1;
    }
    proof {
        assert(xs@.take(xs@.len() as int) =~= xs@);
        assert forall|a: Adjacency| g.adjacency_set().contains(a) implies xs@.contains(a.0) && xs@.contains(a.1) by {
            lemma_neighbor_present(g, a.0 as int, a.1 as int);
        }
        assert(contested@.to_set() =~= g.contested_set());
        assert(uncontested@.to_set() =~= g.uncontested_set());
    }
    (contested, uncontested)
}

} // verus!
