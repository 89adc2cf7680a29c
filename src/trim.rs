use std::collections::HashSet;
use vstd::prelude::*;

use crate::mbg::{GraphModel, MBG, TrimError, lemma_neighbor_present, vec_contains};
use crate::rearrangement::{Extremity, Marker, TELOMERE, marker, other, other_spec};

verus! {

/// The edge relation of a graph, as a predicate on pairs of extremities.
pub type EdgeRel = spec_fn(int, int) -> bool;

/// A pair that may be joined when marker `m` is spliced out: neither end
/// belongs to `m` and it is not telomere to telomere.
pub open spec fn splice_ok(m: int, x: int, y: int) -> bool {
    x != 2 * m && x != 2 * m + 1 && y != 2 * m && y != 2 * m + 1 && !(x == 0 && y == 0)
}

/// Whether `z` is a neighbor of end `e` of marker `m` that is not itself an end of `m`.
pub open spec fn outer(e: EdgeRel, end: int, m: int, z: int) -> bool {
    e(end, z) && z != 2 * m && z != 2 * m + 1
}

/// The edges after marker `m` is spliced out of edge relation `e`: edges away
/// from `m` stay; every outer tail neighbor is joined to every outer head
/// neighbor; a self-adjacency on the head joins the tail neighbors among
/// themselves, and one on the tail the head neighbors.
///
/// This settles an open point of the splice rule: a path that enters `m` at
/// its tail can only come back out at the tail after turning on a head
/// self-adjacency, hence the head loop joins tail neighbors (and vice versa).
/// An edge between the tail and the head of `m` itself joins nothing new. A
/// resulting self-adjacency is stored once and counts twice toward degree.
pub open spec fn splice(e: EdgeRel, m: int) -> EdgeRel {
    |x: int, y: int|
        {
            let t = 2 * m;
            let h = 2 * m + 1;
            &&& splice_ok(m, x, y)
            &&& {
                ||| e(x, y)
                ||| outer(e, t, m, x) && outer(e, h, m, y)
                ||| outer(e, h, m, x) && outer(e, t, m, y)
                ||| e(h, h) && outer(e, t, m, x) && outer(e, t, m, y)
                ||| e(t, t) && outer(e, h, m, x) && outer(e, h, m, y)
            }
        }
}

impl GraphModel {
    /// The edge relation of the graph.
    pub open spec fn edges(self) -> EdgeRel {
        |x: int, y: int| self.has_edge(x, y)
    }

    /// `new` is `self` with marker `m` masked and spliced out.
    pub open spec fn marker_removed(self, m: int, new: GraphModel) -> bool {
        &&& new.sizes == self.sizes
        &&& new.names == self.names
        &&& new.masked == self.masked.update(m, true)
        &&& forall|x: int, y: int| #[trigger] new.has_edge(x, y) == splice(self.edges(), m)(x, y)
    }
}

/// Whether `(x, y)` pairs an entry of `l1` with an entry of `l2` before
/// position `(i, j)`, and may be joined when marker `m` is spliced out.
pub open spec fn pair_before(l1: Seq<usize>, l2: Seq<usize>, i: int, j: int, m: int, x: int, y: int) -> bool {
    splice_ok(m, x, y) && exists|a: int, b: int|
        0 <= a < l1.len() && 0 <= b < l2.len() && (a < i || (a == i && b < j)) && #[trigger] l1[a] == x
            && #[trigger] l2[b] == y
}

pub open spec fn pairs(l1: Seq<usize>, l2: Seq<usize>, m: int, x: int, y: int) -> bool {
    splice_ok(m, x, y) && 0 <= x <= usize::MAX && 0 <= y <= usize::MAX && l1.contains(x as usize)
        && l2.contains(y as usize)
}

proof fn lemma_pair_before_all(l1: Seq<usize>, l2: Seq<usize>, m: int, x: int, y: int)
    ensures
        pair_before(l1, l2, l1.len() as int, 0, m, x, y) <==> pairs(l1, l2, m, x, y),
{
    if pairs(l1, l2, m, x, y) {
        let a = choose|a: int| 0 <= a < l1.len() && l1[a] == x as usize;
        let b = choose|b: int| 0 <= b < l2.len() && l2[b] == y as usize;
        assert(l1[a] == x && l2[b] == y);
    }
    if pair_before(l1, l2, l1.len() as int, 0, m, x, y) {
        let (a, b) = choose|a: int, b: int|
            0 <= a < l1.len() && 0 <= b < l2.len() && (a < l1.len() || (a == l1.len() && b < 0))
                && #[trigger] l1[a] == x && #[trigger] l2[b] == y;
        assert(l1.contains(l1[a]));
        assert(l2.contains(l2[b]));
    }
}

/// Removes every edge at extremity `e`.
fn detach_end(g: &mut MBG, e: Extremity)
    requires
        old(g).wf(),
        old(g)@.present(e as int),
    ensures
        final(g).wf(),
        final(g)@.sizes == old(g)@.sizes,
        final(g)@.masked == old(g)@.masked,
        final(g)@.names == old(g)@.names,
        forall|z: int| 0 <= z < old(g)@.adj.len() && z != e && !old(g)@.has_edge(e as int, z) ==> #[trigger] final(g)@.adj[z] == old(g)@.adj[z],
        forall|x: int, y: int|
            #![trigger final(g)@.has_edge(x, y)]
            final(g)@.has_edge(x, y) <==> (old(g)@.has_edge(x, y) && x != e && y != e),
{
    let ghost g0 = g@;
    let l = match g.adj_neighbors(e) {
        Some(v) => v,
        None => Vec::new(),
    };
    let mut i: usize = 0;
    while i < l.len()
        invariant
            g.wf(),
            g0.wf(),
            l@ == g0.adj[e as int],
            0 <= e < g0.adj.len(),
            i <= l@.len(),
            g@.sizes == g0.sizes,
            g@.masked == g0.masked,
            g@.names == g0.names,
            g@.adj.len() == g0.adj.len(),
            forall|z: int| 0 <= z < g0.adj.len() && z != e && !g0.has_edge(e as int, z) ==> #[trigger] g@.adj[z] == g0.adj[z],
            forall|x: int, y: int|
                #![trigger g@.has_edge(x, y)]
                g@.has_edge(x, y) <==> (g0.has_edge(x, y) && !(x == e && l@.take(i as int).contains(y as usize))
                    && !(y == e && l@.take(i as int).contains(x as usize))),
        decreases l@.len() - i,
    {
        let z = l[i];
        proof {
            assert(g0.has_edge(e as int, z as int));
            lemma_neighbor_present(g0, e as int, z as int);
            assert(l@.take(i + 1) =~= l@.take(i as int).push(z));
        }
        let ghost g1 = g@;
        g.remove_edge(e, z);
        proof {
            assert forall|x: int, y: int|
                #![trigger g@.has_edge(x, y)]
                g@.has_edge(x, y) <==> (g0.has_edge(x, y) && !(x == e && l@.take(i + 1).contains(y as usize))
                    && !(y == e && l@.take(i + 1).contains(x as usize))) by {
                crate::mbg::lemma_push_contains(l@.take(i as int), z, y as usize);
                crate::mbg::lemma_push_contains(l@.take(i as int), z, x as usize);
                assert(g1.has_edge(x, y) == (g0.has_edge(x, y) && !(x == e && l@.take(i as int).contains(y as usize))
                    && !(y == e && l@.take(i as int).contains(x as usize))));
            }
        }
        i += 1;
    }
    proof {
        assert(l@.take(l@.len() as int) =~= l@);
        assert forall|x: int, y: int|
            #![trigger g@.has_edge(x, y)]
            g@.has_edge(x, y) <==> (g0.has_edge(x, y) && x != e && y != e) by {
            if g0.has_edge(x, y) && y == e {
                lemma_neighbor_present(g0, x, y);
            }
        }
    }
}

/// Joins every entry of `l1` to every entry of `l2`, leaving out the pairs
/// that touch an end of marker `m` or join the telomere to itself.
fn connect_all(g: &mut MBG, l1: &Vec<Extremity>, l2: &Vec<Extremity>, m: Marker)
    requires
        old(g).wf(),
        (m as int) < old(g)@.slots(),
        forall|i: int| 0 <= i < l1@.len() && l1@[i] != 2 * m && l1@[i] != 2 * m + 1 ==> old(g)@.present(#[trigger] l1@[i] as int),
        forall|i: int| 0 <= i < l2@.len() && l2@[i] != 2 * m && l2@[i] != 2 * m + 1 ==> old(g)@.present(#[trigger] l2@[i] as int),
    ensures
        final(g).wf(),
        final(g)@.sizes == old(g)@.sizes,
        final(g)@.masked == old(g)@.masked,
        final(g)@.names == old(g)@.names,
        forall|z: int| 0 <= z < old(g)@.adj.len() && !(l1@.contains(z as usize) || l2@.contains(z as usize)) ==> #[trigger] final(g)@.adj[z] == old(g)@.adj[z],
        forall|x: int, y: int|
            #![trigger final(g)@.has_edge(x, y)]
            final(g)@.has_edge(x, y) <==> (old(g)@.has_edge(x, y) || pairs(l1@, l2@, m as int, x, y)
                || pairs(l1@, l2@, m as int, y, x)),
{
    let ghost g0 = g@;
    let mut i: usize = 0;
    while i < l1.len()
        invariant
            g.wf(),
            g0.wf(),
            (m as int) < g0.slots(),
            i <= l1@.len(),
            g@.sizes == g0.sizes,
            g@.masked == g0.masked,
            g@.names == g0.names,
            forall|z: int| 0 <= z < g0.adj.len() && !(l1@.contains(z as usize) || l2@.contains(z as usize)) ==> #[trigger] g@.adj[z] == g0.adj[z],
            forall|k: int| 0 <= k < l1@.len() && l1@[k] != 2 * m && l1@[k] != 2 * m + 1 ==> g0.present(#[trigger] l1@[k] as int),
            forall|k: int| 0 <= k < l2@.len() && l2@[k] != 2 * m && l2@[k] != 2 * m + 1 ==> g0.present(#[trigger] l2@[k] as int),
            forall|x: int, y: int|
                #![trigger g@.has_edge(x, y)]
                g@.has_edge(x, y) <==> (g0.has_edge(x, y) || pair_before(l1@, l2@, i as int, 0, m as int, x, y)
                    || pair_before(l1@, l2@, i as int, 0, m as int, y, x)),
        decreases l1@.len() - i,
    {
        let a = l1[i];
        let mut j: usize = 0;
        while j < l2.len()
            invariant
                g.wf(),
                g0.wf(),
                (m as int) < g0.slots(),
                i < l1@.len(),
                a == l1@[i as int],
                j <= l2@.len(),
                g@.sizes == g0.sizes,
                g@.masked == g0.masked,
                g@.names == g0.names,
                forall|z: int| 0 <= z < g0.adj.len() && !(l1@.contains(z as usize) || l2@.contains(z as usize)) ==> #[trigger] g@.adj[z] == g0.adj[z],
                forall|k: int| 0 <= k < l1@.len() && l1@[k] != 2 * m && l1@[k] != 2 * m + 1 ==> g0.present(#[trigger] l1@[k] as int),
                forall|k: int| 0 <= k < l2@.len() && l2@[k] != 2 * m && l2@[k] != 2 * m + 1 ==> g0.present(#[trigger] l2@[k] as int),
                forall|x: int, y: int|
                    #![trigger g@.has_edge(x, y)]
                    g@.has_edge(x, y) <==> (g0.has_edge(x, y) || pair_before(l1@, l2@, i as int, j as int, m as int, x, y)
                        || pair_before(l1@, l2@, i as int, j as int, m as int, y, x)),
            decreases l2@.len() - j,
        {
            let b = l2[j];
            let ghost g1 = g@;
            let ok = a != 2 * m && a != 2 * m + 1 && b != 2 * m && b != 2 * m + 1 && !(a == 0 && b == 0);
            if ok {
                proof {
                    assert(g@.present(a as int) == g0.present(a as int));
                    assert(g@.present(b as int) == g0.present(b as int));
                }
                g.add_edge(a, b);
            }
            proof {
                assert forall|x: int, y: int|
                    pair_before(l1@, l2@, i as int, j + 1, m as int, x, y) <==> (pair_before(l1@, l2@, i as int, j as int, m as int, x, y)
                        || (ok && x == a && y == b)) by {
                    if ok && x == a && y == b {
                        assert(l1@[i as int] == x && l2@[j as int] == y);
                    }
                    if pair_before(l1@, l2@, i as int, j + 1, m as int, x, y) {
                        let (p, q) = choose|p: int, q: int|
                            0 <= p < l1@.len() && 0 <= q < l2@.len() && (p < i || (p == i && q < j + 1))
                                && #[trigger] l1@[p] == x && #[trigger] l2@[q] == y;
                        if !(p == i && q == j) {
                            assert(pair_before(l1@, l2@, i as int, j as int, m as int, x, y));
                        }
                    }
                }
            }
            j += 1;
        }
        proof {
            assert forall|x: int, y: int|
                pair_before(l1@, l2@, i + 1, 0, m as int, x, y) <==> pair_before(l1@, l2@, i as int, j as int, m as int, x, y) by {
                if pair_before(l1@, l2@, i + 1, 0, m as int, x, y) {
                    let (p, q) = choose|p: int, q: int|
                        0 <= p < l1@.len() && 0 <= q < l2@.len() && (p < i + 1 || (p == i + 1 && q < 0))
                            && #[trigger] l1@[p] == x && #[trigger] l2@[q] == y;
                    assert(pair_before(l1@, l2@, i as int, j as int, m as int, x, y));
                }
                if pair_before(l1@, l2@, i as int, j as int, m as int, x, y) {
                    let (p, q) = choose|p: int, q: int|
                        0 <= p < l1@.len() && 0 <= q < l2@.len() && (p < i || (p == i && q < j))
                            && #[trigger] l1@[p] == x && #[trigger] l2@[q] == y;
                    assert(pair_before(l1@, l2@, i + 1, 0, m as int, x, y));
                }
            }
        }
        i += 1;
    }
    proof {
        assert forall|x: int, y: int|
            #![trigger g@.has_edge(x, y)]
            g@.has_edge(x, y) <==> (g0.has_edge(x, y) || pairs(l1@, l2@, m as int, x, y)
                || pairs(l1@, l2@, m as int, y, x)) by {
            lemma_pair_before_all(l1@, l2@, m as int, x, y);
            lemma_pair_before_all(l1@, l2@, m as int, y, x);
        }
    }
}

impl MBG {
    /// Masks the active marker `m` and splices it out: its ends lose all
    /// edges, and its former neighbors are joined so that paths through `m`
    /// stay connected. Neighbor lists of extremities away from `m` are left
    /// as they are. A marker that is not active leaves the graph unchanged.
    pub fn remove_marker(&mut self, m: Marker)
        requires
            old(self).wf(),
        ensures
            final(self).wf(),
            !old(self)@.is_active(m as int) ==> final(self)@ == old(self)@,
            old(self)@.is_active(m as int) ==> old(self)@.marker_removed(m as int, final(self)@),
            old(self)@.is_active(m as int) ==> forall|z: int|
                0 <= z < old(self)@.adj.len() && z != 2 * m && z != 2 * m + 1 && !old(self)@.has_edge(2 * m as int, z)
                    && !old(self)@.has_edge(2 * m + 1, z) ==> #[trigger] final(self)@.adj[z] == old(self)@.adj[z],
    {
        if !self.is_active_marker(m) {
            return;
        }
        let ghost g0 = self@;
        let t = 2 * m;
        let h = 2 * m + 1;
        let tl = match self.adj_neighbors(t) {
            Some(v) => v,
            None => Vec::new(),
        };
        let hl = match self.adj_neighbors(h) {
            Some(v) => v,
            None => Vec::new(),
        };
        let h_loop = vec_contains(&hl, h);
        let t_loop = vec_contains(&tl, t);
        detach_end(self, t);
        let ghost gd1 = self@;
        detach_end(self, h);
        let ghost gd = self@;
        proof {
            crate::mbg::lemma_empty_list(self@, t as int);
            crate::mbg::lemma_empty_list(self@, h as int);
        }
        self.mask_marker(m);
        let ghost g1 = self@;
        proof {
            assert forall|i: int| 0 <= i < tl@.len() && tl@[i] != 2 * m && tl@[i] != 2 * m + 1 implies g1.present(#[trigger] tl@[i] as int) by {
                assert(g0.has_edge(t as int, tl@[i] as int));
                lemma_neighbor_present(g0, t as int, tl@[i] as int);
            }
            assert forall|i: int| 0 <= i < hl@.len() && hl@[i] != 2 * m && hl@[i] != 2 * m + 1 implies g1.present(#[trigger] hl@[i] as int) by {
                assert(g0.has_edge(h as int, hl@[i] as int));
                lemma_neighbor_present(g0, h as int, hl@[i] as int);
            }
        }
        connect_all(self, &tl, &hl, m);
        let ghost g2 = self@;
        if h_loop {
            connect_all(self, &tl, &tl, m);
        }
        let ghost g3 = self@;
        if t_loop {
            connect_all(self, &hl, &hl, m);
        }
        proof {
            assert forall|z: int|
                0 <= z < g0.adj.len() && z != 2 * m && z != 2 * m + 1 && !g0.has_edge(2 * m as int, z)
                    && !g0.has_edge(2 * m + 1, z) implies #[trigger] self@.adj[z] == g0.adj[z] by {
                if 0 <= z <= usize::MAX {
                    if tl@.contains(z as usize) {
                        assert(g0.has_edge(2 * m as int, z));
                    }
                    if hl@.contains(z as usize) {
                        assert(g0.has_edge(2 * m + 1, z));
                    }
                }
                assert(gd1.adj[z] == g0.adj[z]);
                assert(!gd1.has_edge(h as int, z));
                assert(gd.adj[z] == gd1.adj[z]);
                assert(g1.adj[z] == gd.adj[z]);
                assert(g2.adj[z] == g1.adj[z]);
                assert(g3.adj[z] == g2.adj[z]);
            }
            let e = g0.edges();
            assert forall|x: int, y: int| #[trigger] self@.has_edge(x, y) == splice(e, m as int)(x, y) by {
                assert(pairs(tl@, hl@, m as int, x, y) == (splice_ok(m as int, x, y) && outer(e, 2 * m, m as int, x) && outer(e, 2 * m + 1, m as int, y)));
                assert(pairs(tl@, hl@, m as int, y, x) == (splice_ok(m as int, x, y) && outer(e, 2 * m + 1, m as int, x) && outer(e, 2 * m, m as int, y)));
                assert(pairs(tl@, tl@, m as int, x, y) == (splice_ok(m as int, x, y) && outer(e, 2 * m, m as int, x) && outer(e, 2 * m, m as int, y)));
                assert(pairs(hl@, hl@, m as int, x, y) == (splice_ok(m as int, x, y) && outer(e, 2 * m + 1, m as int, x) && outer(e, 2 * m + 1, m as int, y)));
                assert(h_loop == e(2 * m + 1, 2 * m + 1));
                assert(t_loop == e(2 * m, 2 * m));
                if g0.has_edge(x, y) && x == 0 && y == 0 {
                    assert(g0.adj[0].contains(0usize));
                }
                assert(gd.has_edge(x, y) == (g0.has_edge(x, y) && x != t && y != t && x != h && y != h));
                assert(g1.has_edge(x, y) == gd.has_edge(x, y));
                assert(g2.has_edge(x, y) == (g1.has_edge(x, y) || pairs(tl@, hl@, m as int, x, y) || pairs(tl@, hl@, m as int, y, x)));
                assert(g3.has_edge(x, y) == (g2.has_edge(x, y) || (h_loop && (pairs(tl@, tl@, m as int, x, y) || pairs(tl@, tl@, m as int, y, x)))));
                assert(self@.has_edge(x, y) == (g3.has_edge(x, y) || (t_loop && (pairs(hl@, hl@, m as int, x, y) || pairs(hl@, hl@, m as int, y, x)))));
            }
        }
    }
}

/// The edge relation after splicing out, in increasing id order, every marker
/// below `k` that is active and smaller than `min_size`.
pub open spec fn trimmed_edges(g: GraphModel, min_size: int, k: int) -> EdgeRel
    decreases k,
{
    if k <= 1 {
        g.edges()
    } else {
        let e = trimmed_edges(g, min_size, k - 1);
        if g.is_active(k - 1) && g.sizes[k - 1] < min_size {
            splice(e, k - 1)
        } else {
            e
        }
    }
}

impl GraphModel {
    /// `new` is `self` after trimming at `min_size`: the active markers
    /// smaller than `min_size` are masked and spliced out one by one in
    /// increasing id order.
    pub open spec fn trimmed(self, min_size: int, new: GraphModel) -> bool {
        &&& new.sizes == self.sizes
        &&& new.names == self.names
        &&& forall|m: int| #[trigger] new.is_active(m) <==> (self.is_active(m) && self.sizes[m] >= min_size)
        &&& forall|x: int, y: int| #[trigger] new.has_edge(x, y) == trimmed_edges(self, min_size, self.slots())(x, y)
    }
}

/// Markers that are not trimmed leave the edge relation as it is.
proof fn lemma_trim_skip(g: GraphModel, min_size: int, k1: int, k2: int)
    requires
        1 <= k1 <= k2,
        forall|m: int| k1 <= m < k2 ==> !(g.is_active(m) && g.sizes[m] < min_size),
    ensures
        trimmed_edges(g, min_size, k1) == trimmed_edges(g, min_size, k2),
    decreases k2 - k1,
{
    if k1 < k2 {
        lemma_trim_skip(g, min_size, k1, k2 - 1);
    }
}

impl MBG {
    /// The markers with ids in `from .. to` (and below the number of marker
    /// slots) whose size is below `min_size`, in increasing order.
    fn identify_removal_nodes_in_range(&self, min_size: usize, from: Marker, to: Marker) -> (r: Vec<Marker>)
        requires
            self.wf(),
        ensures
            forall|i: int, j: int| 0 <= i < j < r@.len() ==> r@[i] < r@[j],
            forall|i: int| 0 <= i < r@.len() ==> from <= #[trigger] r@[i] < to && r@[i] < self@.slots(),
            forall|m: int|
                from <= m < to && m < self@.slots() && self@.sizes[m] < min_size ==> r@.contains(m as usize),
            forall|i: int| 0 <= i < r@.len() ==> self@.sizes[#[trigger] r@[i] as int] < min_size,
    {
        let mut to_remove: Vec<Marker> = Vec::new();
        let n = self.num_slots();
        let end = if to < n {
            to
        } else {
            n
        };
        let mut m = from;
        while m < end
            invariant
                self.wf(),
                end <= self@.slots(),
                end <= to,
                from <= m,
                forall|i: int, j: int| 0 <= i < j < to_remove@.len() ==> to_remove@[i] < to_remove@[j],
                forall|i: int| 0 <= i < to_remove@.len() ==> from <= #[trigger] to_remove@[i] < m && to_remove@[i] < end,
                forall|i: int| 0 <= i < to_remove@.len() ==> self@.sizes[#[trigger] to_remove@[i] as int] < min_size,
                forall|k: int| from <= k < m && k < end && self@.sizes[k] < min_size ==> to_remove@.contains(k as usize),
            decreases end - m,
        {
            let ghost before = to_remove@;
            if self.size_at(m) < min_size {
                to_remove.push(m);
                proof {
                    assert forall|k: int| from <= k < m + 1 && k < end && self@.sizes[k] < min_size implies to_remove@.contains(k as usize) by {
                        if k == m {
                            assert(to_remove@[before.len() as int] == m);
                        } else {
                            let i = choose|i: int| 0 <= i < before.len() && before[i] == k as usize;
                            assert(to_remove@[i] == k);
                        }
                    }
                }
            }
            m += 1;
        }
        to_remove
    }

    /// The markers whose size is below `min_size`, in increasing order.
    fn identify_removal_nodes(&self, min_size: usize) -> (r: Vec<Marker>)
        requires
            self.wf(),
        ensures
            forall|i: int, j: int| 0 <= i < j < r@.len() ==> r@[i] < r@[j],
            forall|i: int| 0 <= i < r@.len() ==> 1 <= #[trigger] r@[i] < self@.slots(),
            forall|m: int| 1 <= m < self@.slots() && self@.sizes[m] < min_size ==> r@.contains(m as usize),
            forall|i: int| 0 <= i < r@.len() ==> self@.sizes[#[trigger] r@[i] as int] < min_size,
    {
        let n = self.num_slots();
        self.identify_removal_nodes_in_range(min_size, 1, n)
    }

    /// Masks and splices out, in the given increasing order, the listed
    /// markers that are still active: exactly those smaller than `min_size`.
    fn remove_all(&mut self, to_remove: &Vec<Marker>, Ghost(min_size): Ghost<int>)
        requires
            old(self).wf(),
            forall|i: int, j: int| 0 <= i < j < to_remove@.len() ==> to_remove@[i] < to_remove@[j],
            forall|i: int| 0 <= i < to_remove@.len() ==> 1 <= #[trigger] to_remove@[i] < old(self)@.slots(),
            forall|m: int| 1 <= m < old(self)@.slots() && old(self)@.sizes[m] < min_size ==> to_remove@.contains(m as usize),
            forall|i: int| 0 <= i < to_remove@.len() ==> old(self)@.sizes[#[trigger] to_remove@[i] as int] < min_size,
        ensures
            final(self).wf(),
            old(self)@.trimmed(min_size, final(self)@),
    {
        let ghost g0 = self@;
        let mut i: usize = 0;
        proof {
            let nx = if to_remove@.len() > 0 { to_remove@[0] as int } else { g0.slots() };
            assert forall|m: int| 1 <= m < nx implies !(g0.is_active(m) && g0.sizes[m] < min_size) by {
                if g0.is_active(m) && g0.sizes[m] < min_size {
                    let k = choose|k: int| 0 <= k < to_remove@.len() && to_remove@[k] == m as usize;
                    if k > 0 {
                        assert(to_remove@[0] < to_remove@[k]);
                    }
                }
            }
            lemma_trim_skip(g0, min_size, 1, nx);
        }
        while i < to_remove.len()
            invariant
                self.wf(),
                g0.wf(),
                i <= to_remove@.len(),
                forall|a: int, b: int| 0 <= a < b < to_remove@.len() ==> to_remove@[a] < to_remove@[b],
                forall|a: int| 0 <= a < to_remove@.len() ==> 1 <= #[trigger] to_remove@[a] < g0.slots(),
                forall|m: int| 1 <= m < g0.slots() && g0.sizes[m] < min_size ==> to_remove@.contains(m as usize),
                forall|a: int| 0 <= a < to_remove@.len() ==> g0.sizes[#[trigger] to_remove@[a] as int] < min_size,
                self@.sizes == g0.sizes,
                self@.names == g0.names,
                forall|m: int|
                    #[trigger] self@.is_active(m) <==> (g0.is_active(m) && !(m < (if i < to_remove@.len() {
                        to_remove@[i as int] as int
                    } else {
                        g0.slots()
                    }) && g0.sizes[m] < min_size)),
                forall|x: int, y: int|
                    #[trigger] self@.has_edge(x, y) == trimmed_edges(g0, min_size, if i < to_remove@.len() {
                        to_remove@[i as int] as int
                    } else {
                        g0.slots()
                    })(x, y),
            decreases to_remove@.len() - i,
        {
            let m = to_remove[i];
            let ghost nx = if i + 1 < to_remove@.len() { to_remove@[i + 1] as int } else { g0.slots() };
            proof {
                assert(m < nx);
                assert forall|k: int| m + 1 <= k < nx implies !(g0.is_active(k) && g0.sizes[k] < min_size) by {
                    if g0.is_active(k) && g0.sizes[k] < min_size {
                        let a = choose|a: int| 0 <= a < to_remove@.len() && to_remove@[a] == k as usize;
                        if a <= i {
                            if a < i {
                                assert(to_remove@[a] < to_remove@[i as int]);
                            }
                        } else if a > i + 1 {
                            assert(to_remove@[i + 1] < to_remove@[a]);
                        }
                    }
                }
                lemma_trim_skip(g0, min_size, m + 1, nx);
                assert(self@.is_active(m as int) == g0.is_active(m as int));
            }
            let ghost g1 = self@;
            let act = self.is_active_marker(m);
            if act {
                self.remove_marker(m);
                proof {
                    assert forall|x: int, y: int| #[trigger] self@.has_edge(x, y) == trimmed_edges(g0, min_size, nx)(x, y) by {
                        assert(g1.edges() == trimmed_edges(g0, min_size, m as int)) by {
                            assert(forall|x: int, y: int| #[trigger] g1.edges()(x, y) == trimmed_edges(g0, min_size, m as int)(x, y));
                            assert(g1.edges() =~= trimmed_edges(g0, min_size, m as int));
                        }
                    }
                }
            } else {
                proof {
                    assert(trimmed_edges(g0, min_size, m + 1) == trimmed_edges(g0, min_size, m as int));
                }
            }
            i += 1;
            proof {
                assert forall|k: int| #[trigger] self@.is_active(k) <==> (g0.is_active(k) && !(k < nx && g0.sizes[k] < min_size)) by {
                    if act {
                        assert(self@.masked == g1.masked.update(m as int, true));
                    } else {
                        assert(self@ == g1);
                    }
                    assert(g1.is_active(k) <==> (g0.is_active(k) && !(k < m && g0.sizes[k] < min_size)));
                    if m < k < nx {
                        assert(!(g0.is_active(k) && g0.sizes[k] < min_size));
                    }
                    if k == m {
                        assert(g0.sizes[k] < min_size);
                    }
                }
            }
        }
        proof {
            assert forall|m: int| #[trigger] self@.is_active(m) <==> (g0.is_active(m) && g0.sizes[m] >= min_size) by {}
        }
    }

    /// Trims the graph sequentially: every active marker smaller than
    /// `min_size` is spliced out, in increasing id order.
    pub fn trim_singlethread(&mut self, min_size: usize)
        requires
            old(self).wf(),
        ensures
            final(self).wf(),
            old(self)@.trimmed(min_size as int, final(self)@),
    {
        let to_remove = self.identify_removal_nodes(min_size);
        self.remove_all(&to_remove, Ghost(min_size as int));
    }
}

impl MBG {
    /// The markers whose size is below `min_size`, found slice by slice over
    /// `n_threads` contiguous ranges of `slots / n_threads + 1` ids each.
    fn identify_removal_nodes_mthread(&self, min_size: usize, n_threads: usize) -> (r: Vec<Marker>)
        requires
            self.wf(),
            n_threads >= 1,
        ensures
            forall|i: int, j: int| 0 <= i < j < r@.len() ==> r@[i] < r@[j],
            forall|i: int| 0 <= i < r@.len() ==> 1 <= #[trigger] r@[i] < self@.slots(),
            forall|m: int| 1 <= m < self@.slots() && self@.sizes[m] < min_size ==> r@.contains(m as usize),
            forall|i: int| 0 <= i < r@.len() ==> self@.sizes[#[trigger] r@[i] as int] < min_size,
    {
        let nmarkers = self.num_slots();
        let slice_size = nmarkers / n_threads + 1;
        let mut to_remove: Vec<Marker> = Vec::new();
        let mut lb: usize = 0;
        let mut i: usize = 0;
        while i < n_threads
            invariant
                self.wf(),
                nmarkers == self@.slots(),
                slice_size == nmarkers / n_threads + 1,
                i <= n_threads,
                lb as int == if i * slice_size <= nmarkers { i * slice_size } else { nmarkers as int },
                forall|a: int, b: int| 0 <= a < b < to_remove@.len() ==> to_remove@[a] < to_remove@[b],
                forall|a: int| 0 <= a < to_remove@.len() ==> 1 <= #[trigger] to_remove@[a] < lb,
                forall|m: int| 1 <= m < lb && self@.sizes[m] < min_size ==> to_remove@.contains(m as usize),
                forall|a: int| 0 <= a < to_remove@.len() ==> self@.sizes[#[trigger] to_remove@[a] as int] < min_size,
            decreases n_threads - i,
        {
            let rb = if nmarkers - lb <= slice_size {
                nmarkers
            } else {
                lb + slice_size
            };
            proof {
                assert((i + 1) * slice_size == i * slice_size + slice_size) by (nonlinear_arith);
            }
            let from = if lb == 0 {
                1
            } else {
                lb
            };
            let part = self.identify_removal_nodes_in_range(min_size, from, rb);
            let ghost before = to_remove@;
            let mut k: usize = 0;
            while k < part.len()
                invariant
                    k <= part@.len(),
                    forall|a: int, b: int| 0 <= a < b < part@.len() ==> part@[a] < part@[b],
                    forall|a: int| 0 <= a < part@.len() ==> from <= #[trigger] part@[a] < rb,
                    forall|a: int| 0 <= a < part@.len() ==> self@.sizes[#[trigger] part@[a] as int] < min_size,
                    from >= 1,
                    from >= lb,
                    to_remove@ == before + part@.take(k as int),
                    forall|a: int, b: int| 0 <= a < b < before.len() ==> before[a] < before[b],
                    forall|a: int| 0 <= a < before.len() ==> 1 <= #[trigger] before[a] < lb,
                    forall|a: int| 0 <= a < before.len() ==> self@.sizes[#[trigger] before[a] as int] < min_size,
                    self.wf(),
                decreases part@.len() - k,
            {
                to_remove.push(part[k]);
                proof {
                    assert(part@.take(k + 1) =~= part@.take(k as int).push(part@[k as int]));
                }
                k += 1;
            }
            proof {
                assert(part@.take(part@.len() as int) =~= part@);
                assert forall|m: int| 1 <= m < rb && self@.sizes[m] < min_size implies to_remove@.contains(m as usize) by {
                    if m < lb {
                        let a = choose|a: int| 0 <= a < before.len() && before[a] == m as usize;
                        assert(to_remove@[a] == m);
                    } else {
                        let a = choose|a: int| 0 <= a < part@.len() && part@[a] == m as usize;
                        assert(to_remove@[before.len() + a] == m);
                    }
                }
                assert forall|a: int, b: int| 0 <= a < b < to_remove@.len() implies to_remove@[a] < to_remove@[b] by {
                    if b >= before.len() && a < before.len() {
                        assert(to_remove@[a] == before[a]);
                        assert(to_remove@[b] == part@[b - before.len()]);
                    }
                    if a >= before.len() {
                        assert(to_remove@[a] == part@[a - before.len()]);
                        assert(to_remove@[b] == part@[b - before.len()]);
                    }
                }
                assert forall|a: int| 0 <= a < to_remove@.len() implies 1 <= #[trigger] to_remove@[a] < rb && self@.sizes[to_remove@[a] as int] < min_size by {
                    if a >= before.len() {
                        assert(to_remove@[a] == part@[a - before.len()]);
                    } else {
                        assert(to_remove@[a] == before[a]);
                    }
                }
            }
            lb = rb;
            i += 1;
        }
        proof {
            assert(n_threads * slice_size > nmarkers) by (nonlinear_arith)
                requires
                    slice_size == nmarkers / n_threads + 1,
                    n_threads >= 1,
            {
                vstd::arithmetic::div_mod::lemma_fundamental_div_mod(nmarkers as int, n_threads as int);
            }
        }
        to_remove
    }

    /// Trims the graph in the partitioned way: the extremity range is split
    /// into `n_threads` contiguous slices of `len / n_threads + 1` ids, a
    /// worker (`trim_vertices`) reads each slice of the untouched graph, and
    /// their results are applied afterwards. With one thread or none it
    /// trims sequentially.
    pub fn trim_multithread(&mut self, min_size: usize, n_threads: usize)
        requires
            old(self).wf(),
        ensures
            final(self).wf(),
            n_threads <= 1 ==> old(self)@.trimmed(min_size as int, final(self)@),
            n_threads > 1 ==> old(self)@.path_trimmed(min_size as int, final(self)@),
    {
        if n_threads <= 1 {
            self.trim_singlethread(min_size);
            return;
        }
        let ghost g = self@;
        let ghost t = min_size as int;
        let max_xt = self.num_slots() * 2;
        let slice_size = max_xt / n_threads + 1;
        let mut results: Vec<TrimResult> = Vec::new();
        let mut lb: usize = 0;
        let mut i: usize = 0;
        while i < n_threads
            invariant
                self.wf(),
                g == self@,
                t == min_size,
                max_xt == g.adj.len(),
                slice_size == max_xt / n_threads + 1,
                i <= n_threads,
                lb as int == if i * slice_size <= max_xt { i * slice_size } else { max_xt as int },
                forall|q: int, j: int|
                    0 <= q < results@.len() && 0 <= j < results@[q].0@.len() ==> g.is_active(#[trigger] results@[q].0@[j] as int)
                        && g.sizes[results@[q].0@[j] as int] < t,
                forall|m: int|
                    #[trigger] g.is_active(m) && g.sizes[m] < t && 2 * m < lb ==> exists|q: int|
                        0 <= q < results@.len() && #[trigger] results@[q].0@.contains(m as usize),
                forall|q: int, k: int|
                    0 <= q < results@.len() && 0 <= k < results@[q].1@.len() ==> {
                        let x = (#[trigger] results@[q].1@[k]).0 as int;
                        &&& solid(g, t, x)
                        &&& near_removed(g, t, x)
                        &&& worker_list(g, t, x, results@[q].1@[k].1@)
                    },
                forall|x: int|
                    solid(g, t, x) && #[trigger] near_removed(g, t, x) && x < lb ==> exists|q: int, k: int|
                        0 <= q < results@.len() && 0 <= k < results@[q].1@.len() && (#[trigger] results@[q].1@[k]).0 == x,
            decreases n_threads - i,
        {
            let rb = if max_xt - lb <= slice_size {
                max_xt
            } else {
                lb + slice_size
            };
            proof {
                assert((i + 1) * slice_size == i * slice_size + slice_size) by (nonlinear_arith);
            }
            let part = trim_vertices(self, lb, rb, min_size);
            let ghost r0 = results@;
            results.push(part);
            proof {
                let nq = r0.len() as int;
                assert(results@[nq] == part);
                assert forall|q: int| 0 <= q < r0.len() implies #[trigger] results@[q] == r0[q] by {}
                assert forall|q: int, j: int|
                    0 <= q < results@.len() && 0 <= j < results@[q].0@.len() implies g.is_active(#[trigger] results@[q].0@[j] as int)
                        && g.sizes[results@[q].0@[j] as int] < t by {
                    if q == nq {
                        let m = part.0@[j];
                        assert(part.0@.contains(m));
                        let x = choose|x: int| lb <= x < rb && x / 2 == m && #[trigger] g.is_active(x / 2) && g.sizes[x / 2] < t;
                    } else {
                        assert(results@[q] == r0[q]);
                    }
                }
                assert forall|m: int|
                    #[trigger] g.is_active(m) && g.sizes[m] < t && 2 * m < rb implies exists|q: int|
                        0 <= q < results@.len() && #[trigger] results@[q].0@.contains(m as usize) by {
                    if 2 * m < lb {
                        let q = choose|q: int| 0 <= q < r0.len() && #[trigger] r0[q].0@.contains(m as usize);
                        assert(results@[q] == r0[q]);
                    } else {
                        assert(lb <= 2 * m < rb && (2 * m) / 2 == m);
                        assert(part.0@.contains(m as usize));
                        assert(results@[nq].0@.contains(m as usize));
                    }
                }
                assert forall|x: int|
                    solid(g, t, x) && #[trigger] near_removed(g, t, x) && x < rb implies exists|q: int, k: int|
                        0 <= q < results@.len() && 0 <= k < results@[q].1@.len() && (#[trigger] results@[q].1@[k]).0 == x by {
                    if x < lb {
                        let (q, k) = choose|q: int, k: int|
                            0 <= q < r0.len() && 0 <= k < r0[q].1@.len() && (#[trigger] r0[q].1@[k]).0 == x;
                        assert(results@[q] == r0[q]);
                    } else {
                        let y = choose|y: int| #[trigger] g.has_edge(x, y) && removed_end(g, t, y);
                        let k = choose|k: int| 0 <= k < part.1@.len() && (#[trigger] part.1@[k]).0 == x;
                        assert(results@[nq].1@[k].0 == x);
                    }
                }
            }
            lb = rb;
            i += 1;
        }
        proof {
            assert(n_threads * slice_size > max_xt) by (nonlinear_arith)
                requires
                    slice_size == max_xt / n_threads + 1,
                    n_threads >= 1,
            {
                vstd::arithmetic::div_mod::lemma_fundamental_div_mod(max_xt as int, n_threads as int);
            }
            assert(lb == max_xt);
            assert forall|m: int|
                #[trigger] g.is_active(m) && g.sizes[m] < t implies exists|q: int|
                    0 <= q < results@.len() && #[trigger] results@[q].0@.contains(m as usize) by {
                assert(2 * m < lb);
            }
            assert forall|x: int|
                solid(g, t, x) && #[trigger] near_removed(g, t, x) implies exists|q: int, k: int|
                    0 <= q < results@.len() && 0 <= k < results@[q].1@.len() && (#[trigger] results@[q].1@[k]).0 == x by {
                let y = choose|y: int| #[trigger] g.has_edge(x, y) && removed_end(g, t, y);
                assert(x < lb);
            }
            assert(worker_results(g, t, results@));
        }
        self.apply_trim_results(&results, min_size);
    }

    /// Trims with one thread, or finds the removal set over `n_threads`
    /// slices and, when it holds a tenth of the markers or more, applies it
    /// directly instead of starting over with `trim_multithread`.
    pub fn trim_any(&mut self, min_size: usize, n_threads: usize)
        requires
            old(self).wf(),
        ensures
            final(self).wf(),
            old(self)@.trimmed(min_size as int, final(self)@) || old(self)@.path_trimmed(min_size as int, final(self)@),
    {
        if n_threads <= 1 {
            self.trim_singlethread(min_size);
            return;
        }
        let rm = self.identify_removal_nodes_mthread(min_size, n_threads);
        if rm.len() >= self.num_markers() / 10 {
            self.remove_all(&rm, Ghost(min_size as int));
            return;
        }
        self.trim_multithread(min_size, n_threads);
    }
}

/// Sequential trimming is determined by the graph and the threshold: two
/// graphs trimmed sequentially from the same graph at the same threshold have
/// the same adjacencies and the same markers with the same sizes.
pub proof fn lemma_trim_equivalence(g: GraphModel, min_size: int, g1: GraphModel, g2: GraphModel)
    requires
        g.trimmed(min_size, g1),
        g.trimmed(min_size, g2),
    ensures
        g1.adjacency_set() == g2.adjacency_set(),
        forall|m: int| g1.is_active(m) <==> g2.is_active(m),
        forall|m: int| g1.is_active(m) ==> g1.sizes[m] == g2.sizes[m],
{
    assert forall|x: int, y: int| g1.has_edge(x, y) == g2.has_edge(x, y) by {
        assert(g1.has_edge(x, y) == trimmed_edges(g, min_size, g.slots())(x, y));
        assert(g2.has_edge(x, y) == trimmed_edges(g, min_size, g.slots())(x, y));
    }
    assert(g1.adjacency_set() =~= g2.adjacency_set());
    assert forall|m: int| g1.is_active(m) <==> g2.is_active(m) by {
        assert(g1.is_active(m) <==> (g.is_active(m) && g.sizes[m] >= min_size));
        assert(g2.is_active(m) <==> (g.is_active(m) && g.sizes[m] >= min_size));
    }
}

/// An end of a marker that trimming at `t` removes.
pub open spec fn removed_end(g: GraphModel, t: int, y: int) -> bool {
    y != 0 && g.is_active(y / 2) && g.sizes[y / 2] < t
}

/// An extremity that trimming at `t` keeps: the telomere or an end of a
/// present marker of size at least `t`.
pub open spec fn solid(g: GraphModel, t: int, y: int) -> bool {
    y == 0 || (g.present(y) && g.sizes[y / 2] >= t)
}

/// Whether the search from `a` gets to extremity `u` in at most `k` steps,
/// each step going from a reached extremity over a neighboring removed end
/// to the other end of that marker.
pub open spec fn walk_reach(g: GraphModel, t: int, a: int, k: nat, u: int) -> bool
    decreases k,
{
    u == a || (k > 0 && exists|v: int, y: int|
        #[trigger] g.has_edge(v, y) && removed_end(g, t, y) && u == other_spec(y) && walk_reach(
            g,
            t,
            a,
            (k - 1) as nat,
            v,
        ))
}

/// Whether `b` is a solid neighbor of `a` once markers smaller than `t` are
/// stepped over: a solid extremity adjacent to one that the search from `a` reaches.
pub open spec fn solid_reach(g: GraphModel, t: int, a: int, b: int) -> bool {
    exists|k: nat, u: int| #[trigger] walk_reach(g, t, a, k, u) && g.has_edge(u, b) && solid(g, t, b)
}

proof fn lemma_walk_visited(g: GraphModel, t: int, a: int, vis: Set<usize>, k: nat, u: int)
    requires
        g.wf(),
        walk_reach(g, t, a, k, u),
        0 <= a <= usize::MAX,
        vis.contains(a as usize),
        forall|v: usize, y: int|
            #![trigger vis.contains(v), g.has_edge(v as int, y)]
            vis.contains(v) && g.has_edge(v as int, y) && removed_end(g, t, y) ==> vis.contains(other_spec(y) as usize),
    ensures
        0 <= u <= usize::MAX,
        vis.contains(u as usize),
    decreases k,
{
    if u != a {
        let (v, y) = choose|v: int, y: int|
            #[trigger] g.has_edge(v, y) && removed_end(g, t, y) && u == other_spec(y) && walk_reach(
                g,
                t,
                a,
                (k - 1) as nat,
                v,
            );
        lemma_walk_visited(g, t, a, vis, (k - 1) as nat, v);
        lemma_neighbor_present(g, v, y);
        assert(g.has_edge((v as usize) as int, y));
        assert(0 <= y < g.adj.len());
    }
}

/// The solid extremities reachable from `start` by stepping over the
/// markers smaller than `size_threshold`: a depth-first search over removed
/// markers, entering each at one end and leaving by the other.
pub fn find_solid_neighbors(graph: &MBG, start: Extremity, size_threshold: usize) -> (r: Vec<Extremity>)
    requires
        graph.wf(),
        graph@.present(start as int),
    ensures
        r@.no_duplicates(),
        forall|y: usize| #[trigger] r@.contains(y) <==> solid_reach(graph@, size_threshold as int, start as int, y as int),
{
    broadcast use vstd::std_specs::hash::group_hash_axioms;

    let ghost g = graph@;
    let ghost t = size_threshold as int;
    let n = graph.num_slots() * 2;
    let mut stack: Vec<Extremity> = Vec::new();
    let mut visited: HashSet<Extremity> = HashSet::new();
    let mut solid_neighbors: Vec<Extremity> = Vec::new();
    stack.push(start);
    proof {
        assert(walk_reach(g, t, start as int, 0, start as int));
        assert(stack@[0] == start);
    }
    while stack.len() > 0
        invariant
            graph.wf(),
            g == graph@,
            t == size_threshold,
            n == g.adj.len(),
            g.present(start as int),
            forall|k: int|
                0 <= k < stack@.len() ==> (#[trigger] stack@[k]) < n && g.present(stack@[k] as int) && exists|j: nat|
                    walk_reach(g, t, start as int, j, stack@[k] as int),
            forall|v: usize|
                #[trigger] visited@.contains(v) ==> v < n && g.present(v as int) && exists|j: nat|
                    walk_reach(g, t, start as int, j, v as int),
            forall|v: usize, y: int|
                #![trigger visited@.contains(v), g.has_edge(v as int, y)]
                visited@.contains(v) && g.has_edge(v as int, y) && solid(g, t, y) ==> solid_neighbors@.contains(
                    y as usize,
                ),
            forall|v: usize, y: int|
                #![trigger visited@.contains(v), g.has_edge(v as int, y)]
                visited@.contains(v) && g.has_edge(v as int, y) && removed_end(g, t, y) ==> (visited@.contains(
                    other_spec(y) as usize,
                ) || stack@.contains(other_spec(y) as usize)),
            visited@.contains(start) || stack@.contains(start),
            forall|y: usize| #[trigger] solid_neighbors@.contains(y) ==> solid_reach(g, t, start as int, y as int),
            solid_neighbors@.no_duplicates(),
        decreases n - visited@.len(), stack@.len(),
    {
        let ghost s0 = stack@;
        let x = stack.pop().unwrap();
        proof {
            assert(s0 == stack@.push(x));
            assert forall|e: usize| s0.contains(e) implies stack@.contains(e) || e == x by {
                crate::mbg::lemma_push_contains(stack@, x, e);
            }
            assert(s0[s0.len() - 1] == x);
        }
        if !visited.contains(&x) {
            let ghost v0 = visited@;
            visited.insert(x);
            proof {
                assert(!v0.contains(x));
                assert(visited@ == v0.insert(x));
            }
            let ghost wx = choose|j: nat| walk_reach(g, t, start as int, j, x as int);
            let nbrs = match graph.adj_neighbors(x) {
                Some(v) => v,
                None => Vec::new(),
            };
            let mut j: usize = 0;
            while j < nbrs.len()
                invariant
                    graph.wf(),
                    g == graph@,
                    t == size_threshold,
                    n == g.adj.len(),
                    g.present(start as int),
                    x < n,
                    g.present(x as int),
                    walk_reach(g, t, start as int, wx, x as int),
                    nbrs@ == g.adj[x as int],
                    j <= nbrs@.len(),
                    visited@.contains(x),
                    visited@ == v0.insert(x),
                    !v0.contains(x),
                    forall|k: int|
                        0 <= k < stack@.len() ==> (#[trigger] stack@[k]) < n && g.present(stack@[k] as int) && exists|j: nat|
                            walk_reach(g, t, start as int, j, stack@[k] as int),
                    forall|v: usize|
                        #[trigger] visited@.contains(v) ==> v < n && g.present(v as int) && exists|j: nat|
                            walk_reach(g, t, start as int, j, v as int),
                    forall|v: usize, y: int|
                        #![trigger visited@.contains(v), g.has_edge(v as int, y)]
                        visited@.contains(v) && v != x && g.has_edge(v as int, y) && solid(g, t, y) ==> solid_neighbors@.contains(
                            y as usize,
                        ),
                    forall|v: usize, y: int|
                        #![trigger visited@.contains(v), g.has_edge(v as int, y)]
                        visited@.contains(v) && v != x && g.has_edge(v as int, y) && removed_end(g, t, y) ==> (visited@.contains(
                            other_spec(y) as usize,
                        ) || stack@.contains(other_spec(y) as usize)),
                    forall|i: int| 0 <= i < j && solid(g, t, #[trigger] nbrs@[i] as int) ==> solid_neighbors@.contains(nbrs@[i]),
                    forall|i: int|
                        0 <= i < j && removed_end(g, t, #[trigger] nbrs@[i] as int) ==> (visited@.contains(
                            other_spec(nbrs@[i] as int) as usize,
                        ) || stack@.contains(other_spec(nbrs@[i] as int) as usize)),
                    visited@.contains(start) || stack@.contains(start),
                    forall|y: usize| #[trigger] solid_neighbors@.contains(y) ==> solid_reach(g, t, start as int, y as int),
                    solid_neighbors@.no_duplicates(),
                decreases nbrs@.len() - j,
            {
                let y = nbrs[j];
                proof {
                    assert(g.has_edge(x as int, y as int));
                    lemma_neighbor_present(g, x as int, y as int);
                }
                let z = other(y);
                let size = match graph.node_size(marker(y)) {
                    Some(sz) => sz,
                    None => 0,
                };
                let ghost st0 = stack@;
                if size >= size_threshold || z == TELOMERE {
                    proof {
                        assert(solid(g, t, y as int));
                        assert(walk_reach(g, t, start as int, wx, x as int) && g.has_edge(x as int, y as int));
                        assert(solid_reach(g, t, start as int, y as int));
                    }
                    let ghost sn0 = solid_neighbors@;
                    if !vec_contains(&solid_neighbors, y) {
                        solid_neighbors.push(y);
                        proof {
                            crate::mbg::lemma_push_no_dup(sn0, y);
                        }
                    }
                    proof {
                        assert forall|w: usize| #[trigger] solid_neighbors@.contains(w) <==> (sn0.contains(w) || w == y) by {
                            if solid_neighbors@ != sn0 {
                                crate::mbg::lemma_push_contains(sn0, y, w);
                            }
                        }
                    }
                } else {
                    proof {
                        assert(removed_end(g, t, y as int));
                        assert(!solid(g, t, y as int));
                        assert(walk_reach(g, t, start as int, wx + 1, z as int));
                    }
                    if !visited.contains(&z) {
                        stack.push(z);
                        proof {
                            assert(stack@[stack@.len() - 1] == z);
                            assert forall|k: int| 0 <= k < st0.len() implies #[trigger] stack@[k] == st0[k] by {}
                            assert forall|e: usize| st0.contains(e) implies stack@.contains(e) by {
                                crate::mbg::lemma_push_contains(st0, z, e);
                            }
                        }
                    }
                }
                j += 1;
            }
            proof {
                crate::mbg::lemma_range_set_len(n as nat);
                assert(v0.subset_of(Set::new(|y: usize| (y as nat) < n)));
                vstd::set_lib::lemma_len_subset(v0, Set::new(|y: usize| (y as nat) < n));
                assert(visited@.len() == v0.len() + 1);
                assert forall|v: usize, y: int|
                    #![trigger visited@.contains(v), g.has_edge(v as int, y)]
                    visited@.contains(v) && g.has_edge(v as int, y) && solid(g, t, y) implies solid_neighbors@.contains(
                        y as usize,
                    ) by {
                    if v == x {
                        let i = choose|i: int| 0 <= i < nbrs@.len() && nbrs@[i] == y as usize;
                        assert(solid(g, t, nbrs@[i] as int));
                    }
                }
                assert forall|v: usize, y: int|
                    #![trigger visited@.contains(v), g.has_edge(v as int, y)]
                    visited@.contains(v) && g.has_edge(v as int, y) && removed_end(g, t, y) implies (visited@.contains(
                        other_spec(y) as usize,
                    ) || stack@.contains(other_spec(y) as usize)) by {
                    if v == x {
                        let i = choose|i: int| 0 <= i < nbrs@.len() && nbrs@[i] == y as usize;
                        assert(removed_end(g, t, nbrs@[i] as int));
                    }
                }
            }
        }
        proof {
            crate::mbg::lemma_range_set_len(n as nat);
            assert(visited@.subset_of(Set::new(|y: usize| (y as nat) < n)));
            vstd::set_lib::lemma_len_subset(visited@, Set::new(|y: usize| (y as nat) < n));
        }
    }
    proof {
        assert(visited@.contains(start) || stack@.contains(start));
        assert(visited@.contains(start));
        assert forall|y: usize| #[trigger] solid_neighbors@.contains(y) <==> solid_reach(g, t, start as int, y as int) by {
            if solid_reach(g, t, start as int, y as int) {
                let (k, u) = choose|k: nat, u: int| #[trigger] walk_reach(g, t, start as int, k, u) && g.has_edge(u, y as int) && solid(g, t, y as int);
                lemma_walk_visited(g, t, start as int, visited@, k, u);
                assert(g.has_edge((u as usize) as int, y as int));
            }
        }
    }
    solid_neighbors
}

/// Whether `x` has a neighbor on a marker that trimming at `t` removes.
pub open spec fn near_removed(g: GraphModel, t: int, x: int) -> bool {
    exists|y: int| #[trigger] g.has_edge(x, y) && removed_end(g, t, y)
}

/// What one worker reports for extremity `x`: its solid neighbors, without
/// the telomere when `x` is the telomere.
pub open spec fn worker_list(g: GraphModel, t: int, x: int, l: Seq<Extremity>) -> bool {
    &&& l.no_duplicates()
    &&& forall|y: usize| #[trigger] l.contains(y) <==> (solid_reach(g, t, x, y as int) && !(x == 0 && y == 0))
}

/// Whether a present extremity has a neighbor on a marker smaller than `size_threshold`.
pub fn has_deleted_neighbor(graph: &MBG, extremity: Extremity, size_threshold: usize) -> (r: bool)
    requires
        graph.wf(),
        graph@.present(extremity as int),
    ensures
        r == near_removed(graph@, size_threshold as int, extremity as int),
{
    let ghost g = graph@;
    let nbrs = match graph.adj_neighbors(extremity) {
        Some(v) => v,
        None => Vec::new(),
    };
    let mut i: usize = 0;
    while i < nbrs.len()
        invariant
            graph.wf(),
            g == graph@,
            g.present(extremity as int),
            nbrs@ == g.adj[extremity as int],
            i <= nbrs@.len(),
            forall|k: int| 0 <= k < i ==> !removed_end(g, size_threshold as int, #[trigger] nbrs@[k] as int),
        decreases nbrs@.len() - i,
    {
        let x = nbrs[i];
        proof {
            assert(g.adj[extremity as int][i as int] == x);
            assert(g.has_edge(extremity as int, x as int));
            lemma_neighbor_present(g, extremity as int, x as int);
        }
        if x != TELOMERE {
            if let Some(sz) = graph.node_size(marker(x)) {
                if sz < size_threshold {
                    return true;
                }
            }
        }
        i += 1;
    }
    proof {
        if near_removed(g, size_threshold as int, extremity as int) {
            let y = choose|y: int| #[trigger] g.has_edge(extremity as int, y) && removed_end(g, size_threshold as int, y);
            let k = choose|k: int| 0 <= k < nbrs@.len() && nbrs@[k] == y as usize;
            assert(!removed_end(g, size_threshold as int, nbrs@[k] as int));
        }
    }
    false
}

/// One worker's share of partitioned trimming over the extremities
/// `from .. to`: the markers there that are smaller than `size_threshold`,
/// and, for each kept extremity there next to such a marker, its solid
/// neighbors. It only reads the graph.
pub fn trim_vertices(graph: &MBG, from: Extremity, to: Extremity, size_threshold: usize) -> (r: (
    Vec<Marker>,
    Vec<(Extremity, Vec<Extremity>)>,
))
    requires
        graph.wf(),
    ensures
        forall|m: usize|
            #[trigger] r.0@.contains(m) <==> exists|x: int|
                from <= x < to && x / 2 == m && #[trigger] graph@.is_active(x / 2) && graph@.sizes[x / 2]
                    < size_threshold,
        r.0@.no_duplicates(),
        forall|k: int|
            0 <= k < r.1@.len() ==> {
                let x = (#[trigger] r.1@[k]).0 as int;
                &&& from <= x < to
                &&& solid(graph@, size_threshold as int, x)
                &&& near_removed(graph@, size_threshold as int, x)
                &&& worker_list(graph@, size_threshold as int, x, r.1@[k].1@)
            },
        forall|x: int|
            from <= x < to && solid(graph@, size_threshold as int, x) && near_removed(graph@, size_threshold as int, x)
                ==> exists|k: int| 0 <= k < r.1@.len() && (#[trigger] r.1@[k]).0 == x,
        forall|a: int, b: int| 0 <= a < b < r.1@.len() ==> r.1@[a].0 < r.1@[b].0,
{
    let ghost g = graph@;
    let ghost t = size_threshold as int;
    let n = graph.num_slots() * 2;
    let mut masked: Vec<Marker> = Vec::new();
    let mut adjacencies: Vec<(Extremity, Vec<Extremity>)> = Vec::new();
    let end = if to < n {
        to
    } else {
        n
    };
    let mut i = from;
    while i < end
        invariant
            graph.wf(),
            g == graph@,
            t == size_threshold,
            n == g.adj.len(),
            end <= n,
            end <= to,
            end == n || end == to,
            from <= i,
            i <= end || i == from,
            forall|m: usize|
                #[trigger] masked@.contains(m) <==> exists|x: int|
                    from <= x < i && x / 2 == m && #[trigger] g.is_active(x / 2) && g.sizes[x / 2] < t,
            forall|a: int| 0 <= a < masked@.len() ==> (#[trigger] masked@[a]) as int <= (i - 1) / 2,
            masked@.no_duplicates(),
            forall|k: int|
                0 <= k < adjacencies@.len() ==> {
                    let x = (#[trigger] adjacencies@[k]).0 as int;
                    &&& from <= x < i
                    &&& solid(g, t, x)
                    &&& near_removed(g, t, x)
                    &&& worker_list(g, t, x, adjacencies@[k].1@)
                },
            forall|x: int|
                from <= x < i && solid(g, t, x) && near_removed(g, t, x) ==> exists|k: int|
                    0 <= k < adjacencies@.len() && (#[trigger] adjacencies@[k]).0 == x,
            forall|a: int, b: int| 0 <= a < b < adjacencies@.len() ==> adjacencies@[a].0 < adjacencies@[b].0,
        decreases end - i,
    {
        let m = marker(i);
        let ghost mk0 = masked@;
        let ghost ad0 = adjacencies@;
        let present = graph.is_present(i);
        if present && i != TELOMERE && graph.size_at(m) < size_threshold {
            if i % 2 == 0 || i == from {
                proof {
                    assert(!mk0.contains(m)) by {
                        if mk0.contains(m) {
                            let a = choose|a: int| 0 <= a < mk0.len() && mk0[a] == m;
                            assert(mk0[a] as int <= (i - 1) / 2);
                        }
                    }
                    crate::mbg::lemma_push_no_dup(mk0, m);
                }
                masked.push(m);
            } else {
                proof {
                    assert(g.is_active((i - 1) / 2) && (i - 1) / 2 == m);
                    assert(mk0.contains(m));
                }
            }
            proof {
                assert forall|mm: usize| #[trigger] masked@.contains(mm) <==> exists|x: int|
                    from <= x < i + 1 && x / 2 == mm && #[trigger] g.is_active(x / 2) && g.sizes[x / 2] < t by {
                    crate::mbg::lemma_push_contains(mk0, m, mm);
                    if mm == m {
                        assert(from <= i < i + 1 && (i as int) / 2 == mm && g.is_active((i as int) / 2));
                    }
                    if exists|x: int| from <= x < i + 1 && x / 2 == mm && #[trigger] g.is_active(x / 2) && g.sizes[x / 2] < t {
                        let x = choose|x: int| from <= x < i + 1 && x / 2 == mm && #[trigger] g.is_active(x / 2) && g.sizes[x / 2] < t;
                        if x < i {
                            assert(mk0.contains(mm));
                        }
                    }
                }
                assert(!solid(g, t, i as int));
            }
        } else if present && has_deleted_neighbor(graph, i, size_threshold) {
            let sn = find_solid_neighbors(graph, i, size_threshold);
            let mut locadj: Vec<Extremity> = Vec::new();
            let mut j: usize = 0;
            while j < sn.len()
                invariant
                    graph.wf(),
                    g == graph@,
                    j <= sn@.len(),
                    sn@.no_duplicates(),
                    locadj@.no_duplicates(),
                    forall|y: usize| #[trigger] locadj@.contains(y) <==> (sn@.take(j as int).contains(y) && !(i == 0 && y == 0)),
                decreases sn@.len() - j,
            {
                let y = sn[j];
                let ghost l0 = locadj@;
                proof {
                    assert(sn@.take(j + 1) =~= sn@.take(j as int).push(y));
                    assert(!sn@.take(j as int).contains(y)) by {
                        if sn@.take(j as int).contains(y) {
                            let k = choose|k: int| 0 <= k < j && sn@.take(j as int)[k] == y;
                            assert(sn@[k] == sn@[j as int]);
                        }
                    }
                }
                if !(i == TELOMERE && y == TELOMERE) {
                    locadj.push(y);
                    proof {
                        crate::mbg::lemma_push_no_dup(l0, y);
                    }
                }
                proof {
                    assert forall|w: usize| #[trigger] locadj@.contains(w) <==> (sn@.take(j + 1).contains(w) && !(i == 0 && w == 0)) by {
                        crate::mbg::lemma_push_contains(sn@.take(j as int), y, w);
                        crate::mbg::lemma_push_contains(l0, y, w);
                    }
                }
                j += 1;
            }
            proof {
                assert(sn@.take(sn@.len() as int) =~= sn@);
                assert(solid(g, t, i as int)) by {
                    if i != 0 {
                        assert(!(g.sizes[m as int] < t));
                    }
                }
            }
            adjacencies.push((i, locadj));
            proof {
                assert(adjacencies@[ad0.len() as int].0 == i);
                assert forall|x: int| from <= x < i + 1 && solid(g, t, x) && near_removed(g, t, x) implies exists|k: int|
                    0 <= k < adjacencies@.len() && (#[trigger] adjacencies@[k]).0 == x by {
                    if x < i {
                        let k = choose|k: int| 0 <= k < ad0.len() && (#[trigger] ad0[k]).0 == x;
                        assert(adjacencies@[k] == ad0[k]);
                    }
                }
                assert forall|k: int| 0 <= k < adjacencies@.len() implies {
                    let x = (#[trigger] adjacencies@[k]).0 as int;
                    &&& from <= x < i + 1
                    &&& solid(g, t, x)
                    &&& near_removed(g, t, x)
                    &&& worker_list(g, t, x, adjacencies@[k].1@)
                } by {
                    if k < ad0.len() {
                        assert(adjacencies@[k] == ad0[k]);
                    }
                }
            }
        } else {
            proof {
                assert forall|x: int| from <= x < i + 1 && solid(g, t, x) && near_removed(g, t, x) implies exists|k: int|
                    0 <= k < adjacencies@.len() && (#[trigger] adjacencies@[k]).0 == x by {
                    if x == i {
                        let y = choose|y: int| #[trigger] g.has_edge(x, y) && removed_end(g, t, y);
                        lemma_neighbor_present(g, x, y);
                        assert(false);
                    } else {
                        let k = choose|k: int| 0 <= k < adjacencies@.len() && (#[trigger] adjacencies@[k]).0 == x;
                    }
                }
                assert forall|mm: usize| #[trigger] masked@.contains(mm) <==> exists|x: int|
                    from <= x < i + 1 && x / 2 == mm && #[trigger] g.is_active(x / 2) && g.sizes[x / 2] < t by {
                    if exists|x: int| from <= x < i + 1 && x / 2 == mm && #[trigger] g.is_active(x / 2) && g.sizes[x / 2] < t {
                        let x = choose|x: int| from <= x < i + 1 && x / 2 == mm && #[trigger] g.is_active(x / 2) && g.sizes[x / 2] < t;
                        if x == i {
                            assert(present && i != 0);
                        }
                    }
                }
            }
        }
        i += 1;
    }
    proof {
        assert forall|mm: usize| #[trigger] masked@.contains(mm) <==> exists|x: int|
            from <= x < to && x / 2 == mm && #[trigger] g.is_active(x / 2) && g.sizes[x / 2] < t by {
            if exists|x: int| from <= x < to && x / 2 == mm && #[trigger] g.is_active(x / 2) && g.sizes[x / 2] < t {
                let x = choose|x: int| from <= x < to && x / 2 == mm && #[trigger] g.is_active(x / 2) && g.sizes[x / 2] < t;
                assert(x < end);
                assert(x < i);
            }
        }
        assert forall|x: int| from <= x < to && solid(g, t, x) && near_removed(g, t, x) implies exists|k: int|
            0 <= k < adjacencies@.len() && (#[trigger] adjacencies@[k]).0 == x by {
            let y = choose|y: int| #[trigger] g.has_edge(x, y) && removed_end(g, t, y);
            assert(x < end);
            assert(x < i);
        }
        assert forall|x: int|
            from <= x < to && solid(graph@, size_threshold as int, x) && near_removed(graph@, size_threshold as int, x)
                implies exists|k: int| 0 <= k < adjacencies@.len() && (#[trigger] adjacencies@[k]).0 == x by {
            let y = choose|y: int| #[trigger] g.has_edge(x, y) && removed_end(g, t, y);
            assert(x < end);
            assert(x < i);
            let k = choose|k: int| 0 <= k < adjacencies@.len() && (#[trigger] adjacencies@[k]).0 == x;
        }
    }
    let res = (masked, adjacencies);
    proof {
        assert forall|x: int|
            from <= x < to && solid(graph@, size_threshold as int, x) && near_removed(graph@, size_threshold as int, x)
                implies exists|k: int| 0 <= k < res.1@.len() && (#[trigger] res.1@[k]).0 == x by {
            let k = choose|k: int| 0 <= k < res.1@.len() && (#[trigger] res.1@[k]).0 == x;
            assert(res.1@[k].0 == x);
        }
    }
    res
}

/// Whether one of `es` lists `b` as a neighbor of `a`.
pub open spec fn entry_pair(es: Seq<(Extremity, Vec<Extremity>)>, a: int, b: int) -> bool {
    exists|k: int| 0 <= k < es.len() && (#[trigger] es[k]).0 == a && 0 <= b <= usize::MAX && es[k].1@.contains(b as usize)
}

impl MBG {
    /// Joins `x` to every entry of `l`.
    fn connect_list(&mut self, x: Extremity, l: &Vec<Extremity>)
        requires
            old(self).wf(),
            old(self)@.present(x as int),
            forall|i: int| 0 <= i < l@.len() ==> old(self)@.present(#[trigger] l@[i] as int) && !(x == 0 && l@[i] == 0),
        ensures
            final(self).wf(),
            final(self)@.sizes == old(self)@.sizes,
            final(self)@.masked == old(self)@.masked,
            final(self)@.names == old(self)@.names,
            forall|a: int, b: int|
                #![trigger final(self)@.has_edge(a, b)]
                final(self)@.has_edge(a, b) <==> (old(self)@.has_edge(a, b) || (a == x && 0 <= b <= usize::MAX && l@.contains(b as usize))
                    || (b == x && 0 <= a <= usize::MAX && l@.contains(a as usize))),
    {
        let ghost g0 = self@;
        let mut j: usize = 0;
        while j < l.len()
            invariant
                self.wf(),
                j <= l@.len(),
                self@.sizes == g0.sizes,
                self@.masked == g0.masked,
                self@.names == g0.names,
                g0.present(x as int),
                forall|i: int| 0 <= i < l@.len() ==> g0.present(#[trigger] l@[i] as int) && !(x == 0 && l@[i] == 0),
                forall|a: int, b: int|
                    #![trigger self@.has_edge(a, b)]
                    self@.has_edge(a, b) <==> (g0.has_edge(a, b) || (a == x && 0 <= b <= usize::MAX && l@.take(j as int).contains(
                        b as usize,
                    )) || (b == x && 0 <= a <= usize::MAX && l@.take(j as int).contains(a as usize))),
            decreases l@.len() - j,
        {
            let y = l[j];
            proof {
                assert(self@.present(y as int) == g0.present(y as int));
                assert(self@.present(x as int) == g0.present(x as int));
                assert(l@.take(j + 1) =~= l@.take(j as int).push(y));
            }
            self.add_edge(x, y);
            proof {
                assert forall|a: int, b: int|
                    #![trigger self@.has_edge(a, b)]
                    self@.has_edge(a, b) <==> (g0.has_edge(a, b) || (a == x && 0 <= b <= usize::MAX && l@.take(j + 1).contains(
                        b as usize,
                    )) || (b == x && 0 <= a <= usize::MAX && l@.take(j + 1).contains(a as usize))) by {
                    crate::mbg::lemma_push_contains(l@.take(j as int), y, b as usize);
                    crate::mbg::lemma_push_contains(l@.take(j as int), y, a as usize);
                }
            }
            j += 1;
        }
        proof {
            assert(l@.take(l@.len() as int) =~= l@);
        }
    }

    /// Joins every listed extremity to its listed neighbors.
    fn connect_entries(&mut self, es: &Vec<(Extremity, Vec<Extremity>)>)
        requires
            old(self).wf(),
            forall|k: int| 0 <= k < es@.len() ==> old(self)@.present((#[trigger] es@[k]).0 as int),
            forall|k: int, i: int|
                0 <= k < es@.len() && 0 <= i < es@[k].1@.len() ==> old(self)@.present(#[trigger] es@[k].1@[i] as int)
                    && !(es@[k].0 == 0 && es@[k].1@[i] == 0),
        ensures
            final(self).wf(),
            final(self)@.sizes == old(self)@.sizes,
            final(self)@.masked == old(self)@.masked,
            final(self)@.names == old(self)@.names,
            forall|a: int, b: int|
                #![trigger final(self)@.has_edge(a, b)]
                final(self)@.has_edge(a, b) <==> (old(self)@.has_edge(a, b) || entry_pair(es@, a, b) || entry_pair(
                    es@,
                    b,
                    a,
                )),
    {
        let ghost g0 = self@;
        let mut k: usize = 0;
        while k < es.len()
            invariant
                self.wf(),
                k <= es@.len(),
                self@.sizes == g0.sizes,
                self@.masked == g0.masked,
                self@.names == g0.names,
                forall|k: int| 0 <= k < es@.len() ==> g0.present((#[trigger] es@[k]).0 as int),
                forall|k: int, i: int|
                    0 <= k < es@.len() && 0 <= i < es@[k].1@.len() ==> g0.present(#[trigger] es@[k].1@[i] as int)
                        && !(es@[k].0 == 0 && es@[k].1@[i] == 0),
                forall|a: int, b: int|
                    #![trigger self@.has_edge(a, b)]
                    self@.has_edge(a, b) <==> (g0.has_edge(a, b) || entry_pair(es@.take(k as int), a, b) || entry_pair(
                        es@.take(k as int),
                        b,
                        a,
                    )),
            decreases es@.len() - k,
        {
            let x = es[k].0;
            proof {
                assert(es@[k as int] == (x, es@[k as int].1));
                assert forall|i: int| 0 <= i < es[k as int].1@.len() implies self@.present(#[trigger] es@[k as int].1@[i] as int)
                    && !(x == 0 && es@[k as int].1@[i] == 0) by {
                    assert(g0.present(es@[k as int].1@[i] as int));
                }
            }
            self.connect_list(x, &es[k].1);
            proof {
                let t0 = es@.take(k as int);
                let t1 = es@.take(k + 1);
                assert forall|a: int, b: int| entry_pair(t1, a, b) <==> (entry_pair(t0, a, b) || (a == x && 0 <= b <= usize::MAX
                    && es@[k as int].1@.contains(b as usize))) by {
                    if entry_pair(t1, a, b) {
                        let q = choose|q: int| 0 <= q < t1.len() && (#[trigger] t1[q]).0 == a && 0 <= b <= usize::MAX && t1[q].1@.contains(b as usize);
                        if q < k {
                            assert(t0[q] == t1[q]);
                        }
                    }
                    if entry_pair(t0, a, b) {
                        let q = choose|q: int| 0 <= q < t0.len() && (#[trigger] t0[q]).0 == a && 0 <= b <= usize::MAX && t0[q].1@.contains(b as usize);
                        assert(t1[q] == t0[q]);
                    }
                    if a == x && 0 <= b <= usize::MAX && es@[k as int].1@.contains(b as usize) {
                        assert(t1[k as int] == es@[k as int]);
                    }
                }
            }
            k += 1;
        }
        proof {
            assert(es@.take(es@.len() as int) =~= es@);
        }
    }
}

impl MBG {
    /// Masks the listed markers and drops every edge at their ends, without
    /// joining their neighbors.
    fn remove_markers(&mut self, ms: &Vec<Marker>)
        requires
            old(self).wf(),
        ensures
            final(self).wf(),
            final(self)@.sizes == old(self)@.sizes,
            final(self)@.names == old(self)@.names,
            forall|m: int| #[trigger] final(self)@.is_active(m) <==> (old(self)@.is_active(m) && !(0 <= m <= usize::MAX
                && ms@.contains(m as usize))),
            forall|a: int, b: int|
                #![trigger final(self)@.has_edge(a, b)]
                final(self)@.has_edge(a, b) <==> (old(self)@.has_edge(a, b) && final(self)@.present(a)
                    && final(self)@.present(b)),
    {
        let ghost g0 = self@;
        let mut i: usize = 0;
        while i < ms.len()
            invariant
                self.wf(),
                g0.wf(),
                i <= ms@.len(),
                self@.sizes == g0.sizes,
                self@.names == g0.names,
                forall|m: int| #[trigger] self@.is_active(m) <==> (g0.is_active(m) && !(0 <= m <= usize::MAX
                    && ms@.take(i as int).contains(m as usize))),
                forall|a: int, b: int|
                    #![trigger self@.has_edge(a, b)]
                    self@.has_edge(a, b) <==> (g0.has_edge(a, b) && self@.present(a) && self@.present(b)),
            decreases ms@.len() - i,
        {
            let m = ms[i];
            let ghost s0 = self@;
            proof {
                assert(ms@.take(i + 1) =~= ms@.take(i as int).push(m));
            }
            if self.is_active_marker(m) {
                detach_end(self, 2 * m);
                detach_end(self, 2 * m + 1);
                proof {
                    crate::mbg::lemma_empty_list(self@, 2 * m as int);
                    crate::mbg::lemma_empty_list(self@, 2 * m + 1);
                }
                let ghost s1 = self@;
                self.mask_marker(m);
                proof {
                    assert forall|a: int, b: int|
                        #![trigger self@.has_edge(a, b)]
                        self@.has_edge(a, b) <==> (s0.has_edge(a, b) && self@.present(a) && self@.present(b)) by {
                        assert(self@.has_edge(a, b) == s1.has_edge(a, b));
                        assert(s1.has_edge(a, b) <==> (s0.has_edge(a, b) && a != 2 * m && b != 2 * m && a != 2 * m + 1
                            && b != 2 * m + 1));
                        if s0.has_edge(a, b) {
                            lemma_neighbor_present(s0, a, b);
                        }
                    }
                }
            }
            proof {
                assert forall|mm: int| #[trigger] self@.is_active(mm) <==> (g0.is_active(mm) && !(0 <= mm <= usize::MAX
                    && ms@.take(i + 1).contains(mm as usize))) by {
                    if 0 <= mm <= usize::MAX {
                        crate::mbg::lemma_push_contains(ms@.take(i as int), m, mm as usize);
                    }
                    assert(s0.is_active(mm) <==> (g0.is_active(mm) && !(0 <= mm <= usize::MAX
                        && ms@.take(i as int).contains(mm as usize))));
                }
                assert forall|a: int, b: int|
                    #![trigger self@.has_edge(a, b)]
                    self@.has_edge(a, b) <==> (g0.has_edge(a, b) && self@.present(a) && self@.present(b)) by {
                    assert(s0.has_edge(a, b) <==> (g0.has_edge(a, b) && s0.present(a) && s0.present(b)));
                    if self@.has_edge(a, b) {
                        lemma_neighbor_present(self@, a, b);
                    }
                    if g0.has_edge(a, b) && self@.present(a) && self@.present(b) {
                        assert(s0.present(a) && s0.present(b));
                    }
                }
            }
            i += 1;
        }
        proof {
            assert(ms@.take(ms@.len() as int) =~= ms@);
        }
    }
}

/// The result of one worker over a slice of extremities: the markers there
/// to remove, and the solid neighbors of the kept extremities there that
/// touch a removed marker.
pub type TrimResult = (Vec<Marker>, Vec<(Extremity, Vec<Extremity>)>);

/// Whether `rs`, taken together, is what the workers report over all
/// extremity slots of `g` when trimming at `t`.
pub open spec fn worker_results(g: GraphModel, t: int, rs: Seq<TrimResult>) -> bool {
    &&& forall|i: int, j: int|
        0 <= i < rs.len() && 0 <= j < rs[i].0@.len() ==> g.is_active(#[trigger] rs[i].0@[j] as int) && g.sizes[rs[i].0@[j] as int] < t
    &&& forall|m: int|
        #[trigger] g.is_active(m) && g.sizes[m] < t ==> exists|i: int| 0 <= i < rs.len() && #[trigger] rs[i].0@.contains(m as usize)
    &&& forall|i: int, k: int|
        0 <= i < rs.len() && 0 <= k < rs[i].1@.len() ==> {
            let x = (#[trigger] rs[i].1@[k]).0 as int;
            &&& solid(g, t, x)
            &&& near_removed(g, t, x)
            &&& worker_list(g, t, x, rs[i].1@[k].1@)
        }
    &&& forall|x: int|
        solid(g, t, x) && #[trigger] near_removed(g, t, x) ==> exists|i: int, k: int|
            0 <= i < rs.len() && 0 <= k < rs[i].1@.len() && (#[trigger] rs[i].1@[k]).0 == x
}

impl GraphModel {
    /// `new` is `self` after partitioned trimming at `t`: the active markers
    /// smaller than `t` are masked, and two kept extremities are adjacent
    /// exactly when one is a solid neighbor of the other.
    pub open spec fn path_trimmed(self, t: int, new: GraphModel) -> bool {
        &&& new.sizes == self.sizes
        &&& new.names == self.names
        &&& forall|m: int| #[trigger] new.is_active(m) <==> (self.is_active(m) && self.sizes[m] >= t)
        &&& forall|a: int, b: int|
            #[trigger] new.has_edge(a, b) <==> (0 <= a <= usize::MAX && 0 <= b <= usize::MAX && solid(self, t, a) && solid(
                self,
                t,
                b,
            ) && !(a == 0 && b == 0) && (solid_reach(self, t, a, b) || solid_reach(self, t, b, a)))
    }
}

/// Without a removed neighbor the search from `a` goes nowhere else.
proof fn lemma_walk_stays(g: GraphModel, t: int, a: int, k: nat, u: int)
    requires
        walk_reach(g, t, a, k, u),
        !near_removed(g, t, a),
    ensures
        u == a,
    decreases k,
{
    if u != a {
        let (v, y) = choose|v: int, y: int|
            #[trigger] g.has_edge(v, y) && removed_end(g, t, y) && u == other_spec(y) && walk_reach(
                g,
                t,
                a,
                (k - 1) as nat,
                v,
            );
        lemma_walk_stays(g, t, a, (k - 1) as nat, v);
        assert(g.has_edge(a, y));
    }
}

impl MBG {
    /// Applies the workers' results of partitioned trimming: masks the
    /// reported markers, drops their edges, and joins each reported
    /// extremity to its solid neighbors.
    pub fn apply_trim_results(&mut self, rs: &Vec<TrimResult>, min_size: usize)
        requires
            old(self).wf(),
            worker_results(old(self)@, min_size as int, rs@),
        ensures
            final(self).wf(),
            old(self)@.path_trimmed(min_size as int, final(self)@),
    {
        let ghost t = min_size as int;
        let ghost g0 = self@;
        let mut i: usize = 0;
        while i < rs.len()
            invariant
                self.wf(),
                g0.wf(),
                worker_results(g0, t, rs@),
                i <= rs@.len(),
                self@.sizes == g0.sizes,
                self@.names == g0.names,
                forall|m: int| #[trigger] self@.is_active(m) <==> (g0.is_active(m) && !(0 <= m <= usize::MAX
                    && exists|q: int| 0 <= q < i && #[trigger] rs@[q].0@.contains(m as usize))),
                forall|a: int, b: int|
                    #![trigger self@.has_edge(a, b)]
                    self@.has_edge(a, b) <==> (g0.has_edge(a, b) && self@.present(a) && self@.present(b)),
            decreases rs@.len() - i,
        {
            let ghost s0 = self@;
            self.remove_markers(&rs[i].0);
            proof {
                assert forall|m: int| #[trigger] self@.is_active(m) <==> (g0.is_active(m) && !(0 <= m <= usize::MAX
                    && exists|q: int| 0 <= q < i + 1 && #[trigger] rs@[q].0@.contains(m as usize))) by {
                    if 0 <= m <= usize::MAX && exists|q: int| 0 <= q < i + 1 && #[trigger] rs@[q].0@.contains(m as usize) {
                        let q = choose|q: int| 0 <= q < i + 1 && #[trigger] rs@[q].0@.contains(m as usize);
                        if q < i {
                            assert(exists|q: int| 0 <= q < i && #[trigger] rs@[q].0@.contains(m as usize));
                        }
                    }
                }
                assert forall|a: int, b: int|
                    #![trigger self@.has_edge(a, b)]
                    self@.has_edge(a, b) <==> (g0.has_edge(a, b) && self@.present(a) && self@.present(b)) by {
                    if self@.present(a) && self@.present(b) {
                        assert(s0.present(a) && s0.present(b));
                    }
                }
            }
            i += 1;
        }
        let ghost g1 = self@;
        proof {
            assert forall|m: int| #[trigger] g1.is_active(m) <==> (g0.is_active(m) && g0.sizes[m] >= t) by {
                if g0.is_active(m) && g0.sizes[m] < t {
                    let q = choose|q: int| 0 <= q < rs@.len() && #[trigger] rs@[q].0@.contains(m as usize);
                }
                if g0.is_active(m) && 0 <= m <= usize::MAX && exists|q: int| 0 <= q < rs@.len() && #[trigger] rs@[q].0@.contains(m as usize) {
                    let q = choose|q: int| 0 <= q < rs@.len() && #[trigger] rs@[q].0@.contains(m as usize);
                    let j = choose|j: int| 0 <= j < rs@[q].0@.len() && rs@[q].0@[j] == m as usize;
                    assert(g0.sizes[rs@[q].0@[j] as int] < t);
                }
            }
            assert forall|x: int| #[trigger] g1.present(x) <==> solid(g0, t, x) by {}
        }
        let mut i: usize = 0;
        while i < rs.len()
            invariant
                self.wf(),
                g0.wf(),
                worker_results(g0, t, rs@),
                i <= rs@.len(),
                self@.sizes == g0.sizes,
                self@.names == g0.names,
                self@.masked == g1.masked,
                forall|x: int| #[trigger] g1.present(x) <==> solid(g0, t, x),
                forall|a: int, b: int|
                    #![trigger self@.has_edge(a, b)]
                    self@.has_edge(a, b) <==> (g1.has_edge(a, b) || exists|q: int|
                        0 <= q < i && (entry_pair(#[trigger] rs@[q].1@, a, b) || entry_pair(rs@[q].1@, b, a))),
            decreases rs@.len() - i,
        {
            let ghost s0 = self@;
            proof {
                assert forall|k: int| 0 <= k < rs@[i as int].1@.len() implies self@.present((#[trigger] rs@[i as int].1@[k]).0 as int) by {
                    assert(solid(g0, t, rs@[i as int].1@[k].0 as int));
                    assert(g1.present(rs@[i as int].1@[k].0 as int));
                }
                assert forall|k: int, j: int|
                    0 <= k < rs@[i as int].1@.len() && 0 <= j < rs@[i as int].1@[k].1@.len() implies self@.present(
                        #[trigger] rs@[i as int].1@[k].1@[j] as int,
                    ) && !(rs@[i as int].1@[k].0 == 0 && rs@[i as int].1@[k].1@[j] == 0) by {
                    let x = rs@[i as int].1@[k].0;
                    let y = rs@[i as int].1@[k].1@[j];
                    assert(worker_list(g0, t, x as int, rs@[i as int].1@[k].1@));
                    assert(rs@[i as int].1@[k].1@.contains(y));
                    assert(solid_reach(g0, t, x as int, y as int));
                    assert(g1.present(y as int));
                }
            }
            self.connect_entries(&rs[i].1);
            proof {
                assert forall|a: int, b: int|
                    #![trigger self@.has_edge(a, b)]
                    self@.has_edge(a, b) <==> (g1.has_edge(a, b) || exists|q: int|
                        0 <= q < i + 1 && (entry_pair(#[trigger] rs@[q].1@, a, b) || entry_pair(rs@[q].1@, b, a))) by {
                    if exists|q: int| 0 <= q < i + 1 && (entry_pair(#[trigger] rs@[q].1@, a, b) || entry_pair(rs@[q].1@, b, a)) {
                        let q = choose|q: int| 0 <= q < i + 1 && (entry_pair(#[trigger] rs@[q].1@, a, b) || entry_pair(rs@[q].1@, b, a));
                        if q < i {
                            assert(exists|q: int| 0 <= q < i && (entry_pair(#[trigger] rs@[q].1@, a, b) || entry_pair(rs@[q].1@, b, a)));
                        }
                    }
                }
            }
            i += 1;
        }
        proof {
            assert forall|a: int, b: int|
                #[trigger] self@.has_edge(a, b) <==> (0 <= a <= usize::MAX && 0 <= b <= usize::MAX && solid(g0, t, a)
                    && solid(g0, t, b) && !(a == 0 && b == 0) && (solid_reach(g0, t, a, b) || solid_reach(g0, t, b, a))) by {
                lemma_entry_pair_reach(g0, t, rs@, a, b);
                lemma_entry_pair_reach(g0, t, rs@, b, a);
                if g0.has_edge(a, b) {
                    lemma_neighbor_present(g0, a, b);
                    assert(walk_reach(g0, t, a, 0, a));
                    assert(walk_reach(g0, t, b, 0, b));
                }
                if solid(g0, t, a) && solid(g0, t, b) && !(a == 0 && b == 0) && 0 <= a <= usize::MAX && 0 <= b <= usize::MAX {
                    if solid_reach(g0, t, a, b) && !near_removed(g0, t, a) {
                        let (k, u) = choose|k: nat, u: int| #[trigger] walk_reach(g0, t, a, k, u) && g0.has_edge(u, b) && solid(g0, t, b);
                        lemma_walk_stays(g0, t, a, k, u);
                        assert(g1.has_edge(a, b));
                    }
                    if solid_reach(g0, t, b, a) && !near_removed(g0, t, b) {
                        let (k, u) = choose|k: nat, u: int| #[trigger] walk_reach(g0, t, b, k, u) && g0.has_edge(u, a) && solid(g0, t, a);
                        lemma_walk_stays(g0, t, b, k, u);
                        lemma_neighbor_present(g0, b, a);
                        assert(g1.has_edge(a, b));
                    }
                }
                if self@.has_edge(a, b) {
                    lemma_neighbor_present(self@, a, b);
                }
            }
            assert forall|m: int| #[trigger] self@.is_active(m) <==> (g0.is_active(m) && g0.sizes[m] >= t) by {
                assert(self@.is_active(m) == g1.is_active(m));
            }
        }
    }
}

/// A reported pair is a pair of solid neighbors, and every solid neighbor of
/// an extremity next to a removed marker is reported.
proof fn lemma_entry_pair_reach(g: GraphModel, t: int, rs: Seq<TrimResult>, a: int, b: int)
    requires
        worker_results(g, t, rs),
    ensures
        (exists|q: int| 0 <= q < rs.len() && #[trigger] entry_pair(rs[q].1@, a, b)) <==> (solid(g, t, a) && near_removed(
            g,
            t,
            a,
        ) && 0 <= b <= usize::MAX && solid_reach(g, t, a, b) && !(a == 0 && b == 0)),
{
    if exists|q: int| 0 <= q < rs.len() && #[trigger] entry_pair(rs[q].1@, a, b) {
        let q = choose|q: int| 0 <= q < rs.len() && #[trigger] entry_pair(rs[q].1@, a, b);
        let k = choose|k: int| 0 <= k < rs[q].1@.len() && (#[trigger] rs[q].1@[k]).0 == a && 0 <= b <= usize::MAX
            && rs[q].1@[k].1@.contains(b as usize);
        assert(worker_list(g, t, a, rs[q].1@[k].1@));
    }
    if solid(g, t, a) && near_removed(g, t, a) && 0 <= b <= usize::MAX && solid_reach(g, t, a, b) && !(a == 0 && b == 0) {
        let (q, k) = choose|q: int, k: int| 0 <= q < rs.len() && 0 <= k < rs[q].1@.len() && (#[trigger] rs[q].1@[k]).0 == a;
        assert(worker_list(g, t, a, rs[q].1@[k].1@));
        assert(rs[q].1@[k].1@.contains(b as usize));
        assert(entry_pair(rs[q].1@, a, b));
    }
}

impl MBG {
    /// Trims at `min_size` with `n_threads` workers. Splicing neighbors
    /// together is only sound when adjacent segments do not overlap: in
    /// strict mode a graph with overlap is refused and left unchanged;
    /// otherwise its overlap is treated as zero from then on.
    pub fn trim_checked(&mut self, min_size: usize, n_threads: usize, strict: bool) -> (r: Result<(), TrimError>)
        requires
            old(self).wf(),
        ensures
            final(self).wf(),
            r is Err <==> (strict && old(self)@.overlap > 0),
            r is Err ==> final(self)@ == old(self)@,
            r is Ok ==> final(self)@.overlap == 0,
            r is Ok ==> old(self)@.trimmed(min_size as int, final(self)@) || old(self)@.path_trimmed(
                min_size as int,
                final(self)@,
            ),
    {
        if self.overlap() > 0 && strict {
            return Err(TrimError::Overlap);
        }
        let ghost g0 = self@;
        self.trim_any(min_size, n_threads);
        let ghost g1 = self@;
        self.set_overlap(0);
        proof {
            assert forall|x: int, y: int| #[trigger] self@.has_edge(x, y) == g1.has_edge(x, y) by {}
            assert forall|m: int| #[trigger] self@.is_active(m) == g1.is_active(m) by {}
        }
        Ok(())
    }
}

/// Partitioned trimming does not depend on the partition: two graphs trimmed
/// that way from the same graph at the same threshold, with any numbers of
/// workers, have the same adjacencies and the same markers with the same sizes.
pub proof fn lemma_path_trim_equivalence(g: GraphModel, min_size: int, g1: GraphModel, g2: GraphModel)
    requires
        g.path_trimmed(min_size, g1),
        g.path_trimmed(min_size, g2),
    ensures
        g1.adjacency_set() == g2.adjacency_set(),
        forall|m: int| g1.is_active(m) <==> g2.is_active(m),
        forall|m: int| g1.is_active(m) ==> g1.sizes[m] == g2.sizes[m],
{
    assert forall|x: int, y: int| g1.has_edge(x, y) == g2.has_edge(x, y) by {}
    assert(g1.adjacency_set() =~= g2.adjacency_set());
    assert forall|m: int| g1.is_active(m) <==> g2.is_active(m) by {}
}

} // verus!
