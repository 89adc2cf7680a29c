use std::collections::HashMap;
use vstd::prelude::*;
use vstd::string::StringExecFns;

use crate::rearrangement::{Adjacency, Extremity, Marker, TELOMERE, marker};

verus! {

/// The mathematical content of a marker graph: dense per-marker sizes and
/// mask flags, one neighbor list per extremity slot, and the name table.
pub struct GraphModel {
    pub sizes: Seq<usize>,
    pub adj: Seq<Seq<usize>>,
    pub masked: Seq<bool>,
    pub names: Seq<(Seq<char>, usize)>,
    /// Overlap between adjacent segments that the input declared.
    pub overlap: usize,
}

impl GraphModel {
    /// Number of marker slots (marker ids `0 .. slots`).
    pub open spec fn slots(self) -> int {
        self.sizes.len() as int
    }

    /// A marker that is neither the telomere slot nor masked.
    pub open spec fn is_active(self, m: int) -> bool {
        1 <= m < self.slots() && !self.masked[m]
    }

    /// An extremity that queries answer for: the telomere or an end of an active marker.
    pub open spec fn present(self, x: int) -> bool {
        x == 0 || (0 <= x < 2 * self.slots() && self.is_active(x / 2))
    }

    /// Whether `y` is in the neighbor list of `x`.
    pub open spec fn has_edge(self, x: int, y: int) -> bool {
        0 <= x < self.adj.len() && 0 <= y <= usize::MAX && self.adj[x].contains(y as usize)
    }

    /// Neighbor-list length, where a self-adjacency counts twice.
    pub open spec fn degree(self, x: int) -> int {
        self.adj[x].len() + if self.adj[x].contains(x as usize) {
            1int
        } else {
            0int
        }
    }

    /// The canonical adjacency set: each edge once, smaller end first.
    pub open spec fn adjacency_set(self) -> Set<Adjacency> {
        Set::new(|a: Adjacency| a.0 <= a.1 && self.has_edge(a.0 as int, a.1 as int))
    }

    /// Number of active markers among ids `1 .. k`.
    pub open spec fn active_below(self, k: int) -> nat
        decreases k,
    {
        if k <= 1 {
            0
        } else {
            self.active_below(k - 1) + if self.is_active(k - 1) {
                1nat
            } else {
                0nat
            }
        }
    }

    pub open spec fn num_markers(self) -> nat {
        self.active_below(self.slots())
    }

    pub open spec fn num_extremities(self) -> nat {
        2 * self.num_markers() + if self.degree(0) > 0 {
            1nat
        } else {
            0nat
        }
    }

    /// Representation invariant: symmetric, duplicate-free neighbor lists that
    /// only hold present extremities, empty lists on absent ones, and no
    /// telomere-telomere edge.
    pub open spec fn wf(self) -> bool {
        &&& 1 <= self.slots()
        &&& 2 * self.slots() < usize::MAX
        &&& self.masked.len() == self.slots()
        &&& self.adj.len() == 2 * self.slots()
        &&& self.masked[0]
        &&& forall|x: int| 0 <= x < self.adj.len() ==> (#[trigger] self.adj[x]).no_duplicates()
        &&& forall|x: int, i: int|
            0 <= x < self.adj.len() && 0 <= i < self.adj[x].len() ==> {
                &&& (#[trigger] self.adj[x][i]) < self.adj.len()
                &&& self.adj[self.adj[x][i] as int].contains(x as usize)
            }
        &&& forall|x: int|
            0 <= x < self.adj.len() && !self.present(x) ==> (#[trigger] self.adj[x]).len() == 0
        &&& !self.adj[0].contains(0usize)
        &&& forall|i: int| 0 <= i < self.names.len() ==> (#[trigger] self.names[i]).1 < self.slots()
    }
}

/// Marker graph over dense arrays indexed by marker and extremity id, with
/// soft-deleted (masked) markers that keep their slots.
#[derive(Clone)]
pub struct MBG {
    node_sizes: Vec<usize>,
    adjacencies: Vec<Vec<Extremity>>,
    masked: Vec<bool>,
    node_ids: Vec<(String, Marker)>,
    overlap: usize,
}

pub open spec fn name_view(p: (String, Marker)) -> (Seq<char>, usize) {
    (p.0@, p.1)
}

pub open spec fn names_of(v: Seq<(String, Marker)>) -> Seq<(Seq<char>, usize)> {
    v.map_values(|p: (String, Marker)| name_view(p))
}

impl View for MBG {
    type V = GraphModel;

    closed spec fn view(&self) -> GraphModel {
        GraphModel {
            sizes: self.node_sizes@,
            adj: self.adjacencies@.map_values(|v: Vec<Extremity>| v@),
            masked: self.masked@,
            names: names_of(self.node_ids@),
            overlap: self.overlap,
        }
    }
}

/// Whether `v` holds `y`.
pub(crate) fn vec_contains(v: &Vec<usize>, y: usize) -> (r: bool)
    ensures
        r == v@.contains(y),
{
    let mut i: usize = 0;
    while i < v.len()
        invariant
            i <= v@.len(),
            forall|j: int| 0 <= j < i ==> v@[j] != y,
        decreases v@.len() - i,
    {
        if v[i] == y {
            return true;
        }
        i += 1;
    }
    false
}

/// Removes `y` from a duplicate-free list.
pub(crate) fn remove_value(v: &mut Vec<usize>, y: usize)
    requires
        old(v)@.no_duplicates(),
    ensures
        final(v)@.no_duplicates(),
        forall|z: usize| final(v)@.contains(z) <==> (old(v)@.contains(z) && z != y),
{
    let mut k: usize = 0;
    while k < v.len()
        invariant
            v@ == old(v)@,
            v@.no_duplicates(),
            k <= v@.len(),
            forall|i: int| 0 <= i < k ==> v@[i] != y,
        decreases v@.len() - k,
    {
        if v[k] == y {
            let ghost s = v@;
            assert(s.no_duplicates());
            v.remove(k);
            proof {
                assert(v@ == s.remove(k as int));
                s.remove_ensures(k as int);
                assert(s[k as int] == y);
                assert forall|z: usize| v@.contains(z) <==> (s.contains(z) && z != y) by {
                    if v@.contains(z) {
                        let i = choose|i: int| 0 <= i < v@.len() && v@[i] == z;
                        if i < k {
                            assert(s[i] == z);
                            assert(s[i] != s[k as int]);
                        } else {
                            assert(s[i + 1] == z);
                            assert(s[i + 1] != s[k as int]);
                        }
                    }
                    if s.contains(z) && z != y {
                        let i = choose|i: int| 0 <= i < s.len() && s[i] == z;
                        if i < k {
                            assert(v@[i] == z);
                        } else {
                            assert(i != k);
                            assert(v@[i - 1] == z);
                        }
                    }
                }
                assert forall|a: int, b: int| 0 <= a < b < v@.len() implies v@[a] != v@[b] by {
                    let a2 = if a < k { a } else { a + 1 };
                    let b2 = if b < k { b } else { b + 1 };
                    assert(v@[a] == s[a2] && v@[b] == s[b2]);
                    assert(a2 < b2);
                    assert(s[a2] != s[b2]);
                }
            }
            return;
        }
        k += 1;
    }
    proof {
        assert forall|z: usize| v@.contains(z) implies z != y by {
            let i = choose|i: int| 0 <= i < v@.len() && v@[i] == z;
        }
    }
}

impl MBG {
    pub open spec fn wf(&self) -> bool {
        self@.wf()
    }

    /// Degree of an extremity: `None` when it is not present (its marker is
    /// masked or unknown), the neighbor-list length otherwise, with a
    /// self-adjacency counted twice.
    pub fn degree(&self, n: Extremity) -> (r: Option<usize>)
        requires
            self.wf(),
        ensures
            r == if self@.present(n as int) {
                Some(self@.degree(n as int) as usize)
            } else {
                None::<usize>
            },
    {
        if !self.is_present(n) {
            return None;
        }
        let l = &self.adjacencies[n];
        proof {
            assert(self@.adj[n as int] == l@);
            if l@.contains(n) {
                assert(l@.len() < usize::MAX) by {
                    lemma_list_bounded(self@, n as int);
                }
            }
        }
        if vec_contains(l, n) {
            Some(l.len() + 1)
        } else {
            Some(l.len())
        }
    }

    pub(crate) fn is_present(&self, n: Extremity) -> (r: bool)
        requires
            self.wf(),
        ensures
            r == self@.present(n as int),
    {
        if n == TELOMERE {
            return true;
        }
        if n >= self.adjacencies.len() {
            return false;
        }
        let m = marker(n);
        m >= 1 && !self.masked[m]
    }

    /// The neighbors of an extremity, or `None` when it is not present.
    pub fn adj_neighbors(&self, n: Extremity) -> (r: Option<Vec<Extremity>>)
        requires
            self.wf(),
        ensures
            match r {
                Some(v) => self@.present(n as int) && v@ == self@.adj[n as int],
                None => !self@.present(n as int),
            },
    {
        if !self.is_present(n) {
            return None;
        }
        let v = self.adjacencies[n].clone();
        proof {
            assert(v@ =~= self.adjacencies@[n as int]@);
        }
        Some(v)
    }

    /// Size of a marker: `None` for the telomere, a masked or an unknown marker.
    pub fn node_size(&self, n: Marker) -> (r: Option<usize>)
        requires
            self.wf(),
        ensures
            r == if self@.is_active(n as int) {
                Some(self@.sizes[n as int])
            } else {
                None::<usize>
            },
    {
        if n == TELOMERE || n >= self.node_sizes.len() || self.masked[n] {
            None
        } else {
            Some(self.node_sizes[n])
        }
    }
}

impl MBG {
    /// The active markers, in increasing id order.
    pub fn markers(&self) -> (r: Vec<Marker>)
        requires
            self.wf(),
        ensures
            forall|m: usize| r@.contains(m) <==> self@.is_active(m as int),
            r@.no_duplicates(),
            r@.len() == self@.num_markers(),
            forall|i: int, j: int| 0 <= i < j < r@.len() ==> r@[i] < r@[j],
    {
        let mut r: Vec<Marker> = Vec::new();
        let mut m: usize = 1;
        while m < self.node_sizes.len()
            invariant
                self.wf(),
                1 <= m <= self@.slots(),
                forall|k: usize| r@.contains(k) <==> (k < m && self@.is_active(k as int)),
                forall|i: int| 0 <= i < r@.len() ==> r@[i] < m,
                forall|i: int, j: int| 0 <= i < j < r@.len() ==> r@[i] < r@[j],
                r@.len() == self@.active_below(m as int),
            decreases self@.slots() - m,
        {
            let ghost before = r@;
            if !self.masked[m] {
                r.push(m);
                proof {
                    assert forall|k: usize| r@.contains(k) implies before.contains(k) || k == m by {
                        let j = choose|j: int| 0 <= j < r@.len() && r@[j] == k;
                        if j < before.len() {
                            assert(before[j] == k);
                        }
                    }
                    assert(r@[r@.len() - 1] == m);
                    assert forall|k: usize| before.contains(k) implies r@.contains(k) by {
                        let j = choose|j: int| 0 <= j < before.len() && before[j] == k;
                        assert(r@[j] == k);
                    }
                }
            }
            m += 1;
        }
        r
    }

    /// Number of active markers.
    pub fn num_markers(&self) -> (r: usize)
        requires
            self.wf(),
        ensures
            r == self@.num_markers(),
    {
        let mut r: usize = 0;
        let mut m: usize = 1;
        while m < self.node_sizes.len()
            invariant
                self.wf(),
                1 <= m <= self@.slots(),
                r == self@.active_below(m as int),
                r < m,
            decreases self@.slots() - m,
        {
            if !self.masked[m] {
                r += 1;
            }
            m += 1;
        }
        r
    }

    /// Twice the number of active markers, plus one when the telomere has a neighbor.
    pub fn num_extremities(&self) -> (r: usize)
        requires
            self.wf(),
        ensures
            r == self@.num_extremities(),
    {
        let n = self.num_markers();
        let d = self.degree(TELOMERE);
        proof {
            assert(self@.present(0));
            lemma_list_bounded(self@, 0);
            lemma_active_below_bounded(self@, self@.slots());
        }
        match d {
            Some(k) => {
                if k > 0 {
                    2 * n + 1
                } else {
                    2 * n
                }
            },
            None => 2 * n,
        }
    }

    /// The present extremities: both ends of every active marker, then the telomere.
    pub fn extremities(&self) -> (r: Vec<Extremity>)
        requires
            self.wf(),
        ensures
            forall|x: usize| r@.contains(x) <==> self@.present(x as int),
            r@.no_duplicates(),
    {
        let ms = self.markers();
        let mut r: Vec<Extremity> = Vec::new();
        let mut i: usize = 0;
        while i < ms.len()
            invariant
                self.wf(),
                0 <= i <= ms@.len(),
                forall|m: usize| ms@.contains(m) <==> self@.is_active(m as int),
                forall|a: int, b: int| 0 <= a < b < ms@.len() ==> ms@[a] < ms@[b],
                r@.len() == 2 * i,
                forall|k: int| 0 <= k < r@.len() ==> #[trigger] r@[k] == 2 * ms@[k / 2] + k % 2,
            decreases ms@.len() - i,
        {
            let m = ms[i];
            proof {
                assert(ms@.contains(m));
            }
            r.push(2 * m);
            r.push(2 * m + 1);
            i += 1;
        }
        proof {
            assert forall|x: usize| r@.contains(x) <==> (x != 0 && self@.present(x as int)) by {
                if r@.contains(x) {
                    let k = choose|k: int| 0 <= k < r@.len() && r@[k] == x;
                    assert(r@[k] == 2 * ms@[k / 2] + k % 2);
                    assert(ms@.contains(ms@[k / 2]));
                    assert(x / 2 == ms@[k / 2]);
                }
                if x != 0 && self@.present(x as int) {
                    assert(ms@.contains((x / 2) as usize));
                    let j = choose|j: int| 0 <= j < ms@.len() && ms@[j] == (x / 2) as usize;
                    let k = 2 * j + x % 2;
                    assert(k / 2 == j);
                    assert(r@[k] == 2 * ms@[k / 2] + k % 2);
                }
            }
            assert forall|a: int, b: int| 0 <= a < b < r@.len() implies r@[a] != r@[b] by {
                assert(r@[a] == 2 * ms@[a / 2] + a % 2);
                assert(r@[b] == 2 * ms@[b / 2] + b % 2);
                if a / 2 < b / 2 {
                    assert(ms@[a / 2] < ms@[b / 2]);
                }
            }
        }
        let ghost before = r@;
        r.push(TELOMERE);
        proof {
            assert(r@[r@.len() - 1] == 0);
            assert forall|x: usize| r@.contains(x) implies self@.present(x as int) by {
                if x != 0 {
                    let k = choose|k: int| 0 <= k < r@.len() && r@[k] == x;
                    assert(before[k] == x);
                    assert(before.contains(x));
                }
            }
            assert forall|x: usize| self@.present(x as int) implies r@.contains(x) by {
                if x != 0 {
                    assert(before.contains(x));
                    let k = choose|k: int| 0 <= k < before.len() && before[k] == x;
                    assert(r@[k] == x);
                }
            }
            assert forall|a: int, b: int| 0 <= a < b < r@.len() implies r@[a] != r@[b] by {
                if b == r@.len() - 1 {
                    assert(!before.contains(0usize));
                    assert(before[a] == r@[a]);
                } else {
                    assert(before[a] == r@[a] && before[b] == r@[b]);
                }
            }
        }
        r
    }
}

impl MBG {
    /// Adds the symmetric edge `x`-`y` (a self-adjacency is stored once).
    pub(crate) fn add_edge(&mut self, x: Extremity, y: Extremity)
        requires
            old(self).wf(),
            old(self)@.present(x as int),
            old(self)@.present(y as int),
            !(x == 0 && y == 0),
        ensures
            final(self).wf(),
            final(self)@.sizes == old(self)@.sizes,
            final(self)@.masked == old(self)@.masked,
            final(self)@.names == old(self)@.names,
            final(self)@.adj.len() == old(self)@.adj.len(),
            forall|z: int| 0 <= z < old(self)@.adj.len() && z != x && z != y ==> #[trigger] final(self)@.adj[z] == old(self)@.adj[z],
            forall|z: int, w: int|
                #![trigger final(self)@.has_edge(z, w)]
                final(self)@.has_edge(z, w) <==> (old(self)@.has_edge(z, w) || (z == x && w == y)
                    || (z == y && w == x)),
    {
        let ghost g0 = self@;
        let c1 = vec_contains(&self.adjacencies[x], y);
        if !c1 {
            self.adjacencies[x].push(y);
        }
        let ghost g1 = self@;
        proof {
            if !c1 {
                assert(g1.adj[x as int] == g0.adj[x as int].push(y));
            } else {
                assert(g1.adj[x as int] == g0.adj[x as int]);
            }
            assert(g1.adj =~= g0.adj.update(x as int, g1.adj[x as int]));
            assert forall|z: int, w: int| g1.has_edge(z, w) <==> (g0.has_edge(z, w) || (z == x && w == y)) by {
                if z == x && 0 <= w <= usize::MAX && !c1 {
                    lemma_push_contains(g0.adj[z], y, w as usize);
                }
            }
        }
        let c2 = x == y || vec_contains(&self.adjacencies[y], x);
        if !c2 {
            self.adjacencies[y].push(x);
        }
        let ghost g2 = self@;
        proof {
            if !c2 {
                assert(g2.adj[y as int] == g1.adj[y as int].push(x));
            } else {
                assert(g2.adj[y as int] == g1.adj[y as int]);
            }
            assert(g2.adj =~= g1.adj.update(y as int, g2.adj[y as int]));
            assert forall|z: int, w: int| g2.has_edge(z, w) <==> (g1.has_edge(z, w) || (z == y && w == x)) by {
                if z == y && 0 <= w <= usize::MAX && !c2 {
                    lemma_push_contains(g1.adj[z], x, w as usize);
                }
            }
            assert forall|z: int| 0 <= z < g2.adj.len() implies (#[trigger] g2.adj[z]).no_duplicates() by {
                assert(g0.adj[z].no_duplicates());
                if z == x && !c1 {
                    lemma_push_no_dup(g0.adj[z], y);
                }
                if z == y && !c2 {
                    assert(g1.adj[z].no_duplicates()) by {
                        if z == x && !c1 {
                            lemma_push_no_dup(g0.adj[z], y);
                        }
                    }
                    lemma_push_no_dup(g1.adj[z], x);
                }
            }
            assert forall|z: int, i: int| 0 <= z < g2.adj.len() && 0 <= i < g2.adj[z].len() implies {
                &&& (#[trigger] g2.adj[z][i]) < g2.adj.len()
                &&& g2.adj[g2.adj[z][i] as int].contains(z as usize)
            } by {
                let w = g2.adj[z][i];
                assert(g2.has_edge(z, w as int));
                if g0.has_edge(z, w as int) {
                    let k = choose|k: int| 0 <= k < g0.adj[z].len() && g0.adj[z][k] == w;
                    assert(g0.adj[z][k] < g0.adj.len());
                    assert(g0.has_edge(w as int, z));
                }
                assert(g2.has_edge(w as int, z));
            }
            assert forall|z: int| 0 <= z < g2.adj.len() && !g2.present(z) implies (#[trigger] g2.adj[z]).len() == 0 by {
                assert(g0.adj[z].len() == 0);
            }
            if g2.adj[0].contains(0usize) {
                assert(g2.has_edge(0, 0));
            }
            assert(g2.adj.len() == g0.adj.len());
            assert(g2.sizes == g0.sizes);
            assert(g2.masked == g0.masked);
            assert(g2.names == g0.names);
            assert(!g2.adj[0].contains(0usize));
        }
    }
}

/// Whether the name table assigns some name to marker `m`.
pub open spec fn named(names: Seq<(Seq<char>, usize)>, m: int) -> bool {
    exists|i: int| 0 <= i < names.len() && names[i].1 == m
}

/// The size recorded for `m`: its last entry in the list, 0 when it has none.
pub open spec fn given_size(sizes: Seq<(usize, usize)>, m: int) -> usize
    decreases sizes.len(),
{
    if sizes.len() == 0 {
        0
    } else if sizes.last().0 == m {
        sizes.last().1
    } else {
        given_size(sizes.drop_last(), m)
    }
}

/// Whether `y` occurs in a neighbor list given for `x` before entry `j` of list `i`.
pub open spec fn listed_before(adj: Seq<(usize, Vec<usize>)>, i: int, j: int, x: int, y: int) -> bool {
    exists|a: int, b: int|
        0 <= a < adj.len() && 0 <= b < adj[a].1@.len() && (a < i || (a == i && b < j))
            && adj[a].0 == x && #[trigger] adj[a].1@[b] == y
}

/// Whether `y` occurs in a neighbor list given for `x`.
pub open spec fn listed(adj: Seq<(usize, Vec<usize>)>, x: int, y: int) -> bool {
    listed_before(adj, adj.len() as int, 0, x, y)
}

impl GraphModel {
    /// An edge the graph may hold: between present extremities, not telomere to telomere.
    pub open spec fn allowed(self, x: int, y: int) -> bool {
        self.present(x) && self.present(y) && !(x == 0 && y == 0)
    }
}

impl MBG {
    /// Builds the graph from a raw triple: marker sizes, neighbor lists and
    /// names. Markers without a name are masked; edges are made symmetric and
    /// kept only between present extremities.
    pub fn from_hash_maps(
        sizes: Vec<(Marker, usize)>,
        adj: Vec<(Extremity, Vec<Extremity>)>,
        nids: Vec<(String, Marker)>,
    ) -> (r: MBG)
        requires
            forall|i: int| 0 <= i < nids@.len() ==> (#[trigger] nids@[i]).1 < usize::MAX / 2,
        ensures
            r.wf(),
            r@.names == names_of(nids@),
            r@.overlap == 0,
            forall|m: int| r@.is_active(m) <==> (m >= 1 && named(r@.names, m)),
            forall|m: int| r@.is_active(m) ==> r@.sizes[m] == given_size(sizes@, m),
            forall|x: int, y: int|
                #![trigger r@.has_edge(x, y)]
                r@.has_edge(x, y) <==> (r@.allowed(x, y) && (listed(adj@, x, y) || listed(adj@, y, x))),
    {
        let mut slots: usize = 1;
        let mut i: usize = 0;
        while i < nids.len()
            invariant
                0 <= i <= nids@.len(),
                1 <= slots <= usize::MAX / 2,
                forall|k: int| 0 <= k < i ==> (#[trigger] nids@[k]).1 < slots,
                forall|k: int| 0 <= k < nids@.len() ==> (#[trigger] nids@[k]).1 < usize::MAX / 2,
            decreases nids@.len() - i,
        {
            if nids[i].1 >= slots {
                slots = nids[i].1 + 1;
            }
            i += 1;
        }
        let mut node_sizes: Vec<usize> = Vec::new();
        let mut masked: Vec<bool> = Vec::new();
        let mut adjacencies: Vec<Vec<Extremity>> = Vec::new();
        let mut k: usize = 0;
        while k < slots
            invariant
                k <= slots <= usize::MAX / 2,
                node_sizes@.len() == k,
                masked@.len() == k,
                adjacencies@.len() == 2 * k,
                forall|a: int| 0 <= a < k ==> (#[trigger] node_sizes@[a]) == 0,
                forall|a: int| 0 <= a < k ==> (#[trigger] masked@[a]),
                forall|a: int| 0 <= a < 2 * k ==> (#[trigger] adjacencies@[a])@.len() == 0,
            decreases slots - k,
        {
            node_sizes.push(0);
            masked.push(true);
            adjacencies.push(Vec::new());
            adjacencies.push(Vec::new());
            k += 1;
        }
        i = 0;
        while i < nids.len()
            invariant
                0 <= i <= nids@.len(),
                1 <= slots,
                masked@.len() == slots,
                masked@[0],
                node_sizes@.len() == slots,
                forall|a: int| 0 <= a < slots ==> (#[trigger] node_sizes@[a]) == 0,
                adjacencies@.len() == 2 * slots,
                forall|a: int| 0 <= a < 2 * slots ==> (#[trigger] adjacencies@[a])@.len() == 0,
                forall|k: int| 0 <= k < nids@.len() ==> (#[trigger] nids@[k]).1 < slots,
                forall|m: int| 1 <= m < slots ==> (!(#[trigger] masked@[m]) <==> exists|a: int| 0 <= a < i && nids@[a].1 == m),
            decreases nids@.len() - i,
        {
            let m = nids[i].1;
            if m >= 1 {
                masked.set(m, false);
            }
            i += 1;
        }
        i = 0;
        while i < sizes.len()
            invariant
                0 <= i <= sizes@.len(),
                1 <= slots <= usize::MAX / 2,
                node_sizes@.len() == slots,
                forall|m: int| 1 <= m < slots ==> (#[trigger] node_sizes@[m]) == given_size(sizes@.take(i as int), m),
                masked@.len() == slots,
                masked@[0],
                forall|k: int| 0 <= k < nids@.len() ==> (#[trigger] nids@[k]).1 < slots,
                forall|m: int| 1 <= m < slots ==> (!(#[trigger] masked@[m]) <==> exists|a: int| 0 <= a < nids@.len() && nids@[a].1 == m),
                adjacencies@.len() == 2 * slots,
                forall|a: int| 0 <= a < 2 * slots ==> (#[trigger] adjacencies@[a])@.len() == 0,
            decreases sizes@.len() - i,
        {
            let (m, sz) = sizes[i];
            if m < slots {
                node_sizes.set(m, sz);
            }
            proof {
                assert(sizes@.take(i + 1).drop_last() =~= sizes@.take(i as int));
            }
            i += 1;
        }
        proof {
            assert(sizes@.take(sizes@.len() as int) =~= sizes@);
        }
        let mut node_ids: Vec<(String, Marker)> = nids;
        let mut g = MBG { node_sizes, adjacencies, masked, node_ids, overlap: 0 };
        proof {
            assert(g@.adj.len() == 2 * slots);
            assert forall|x: int| 0 <= x < g@.adj.len() implies (#[trigger] g@.adj[x]).len() == 0 && g@.adj[x].no_duplicates() by {
                assert(g.adjacencies@[x]@.len() == 0);
            }
            assert forall|m: int| g@.is_active(m) <==> (m >= 1 && named(g@.names, m)) by {
                if m >= 1 && named(g@.names, m) {
                    let a = choose|a: int| 0 <= a < g@.names.len() && g@.names[a].1 == m;
                    assert(g.node_ids@[a].1 == m);
                }
                if g@.is_active(m) {
                    let a = choose|a: int| 0 <= a < nids@.len() && nids@[a].1 == m;
                    assert(g@.names[a].1 == m);
                }
            }
            assert forall|a: int| 0 <= a < g@.names.len() implies (#[trigger] g@.names[a]).1 < g@.slots() by {
                assert(g.node_ids@[a].1 < slots);
            }
        }
        i = 0;
        while i < adj.len()
            invariant
                0 <= i <= adj@.len(),
                g.wf(),
                g@.names == names_of(nids@),
                forall|m: int| g@.is_active(m) <==> (m >= 1 && named(g@.names, m)),
                forall|m: int| g@.is_active(m) ==> g@.sizes[m] == given_size(sizes@, m),
                forall|x: int, y: int|
                    #![trigger g@.has_edge(x, y)]
                    g@.has_edge(x, y) <==> (g@.allowed(x, y) && (listed_before(adj@, i as int, 0, x, y)
                        || listed_before(adj@, i as int, 0, y, x))),
            decreases adj@.len() - i,
        {
            let x = adj[i].0;
            let mut j: usize = 0;
            while j < adj[i].1.len()
                invariant
                    0 <= i < adj@.len(),
                    0 <= j <= adj@[i as int].1@.len(),
                    x == adj@[i as int].0,
                    g.wf(),
                    g@.names == names_of(nids@),
                    forall|m: int| g@.is_active(m) <==> (m >= 1 && named(g@.names, m)),
                    forall|m: int| g@.is_active(m) ==> g@.sizes[m] == given_size(sizes@, m),
                    forall|z: int, w: int|
                        #![trigger g@.has_edge(z, w)]
                        g@.has_edge(z, w) <==> (g@.allowed(z, w) && (listed_before(adj@, i as int, j as int, z, w)
                            || listed_before(adj@, i as int, j as int, w, z))),
                decreases adj@[i as int].1@.len() - j,
            {
                let y = adj[i].1[j];
                let ghost g0 = g@;
                if g.is_present(x) && g.is_present(y) && !(x == 0 && y == 0) {
                    g.add_edge(x, y);
                }
                proof {
                    assert(g@.names == g0.names);
                    assert forall|m: int| g@.is_active(m) <==> (m >= 1 && named(g@.names, m)) by {
                        assert(g@.is_active(m) == g0.is_active(m));
                    }
                    assert forall|z: int, w: int|
                        listed_before(adj@, i as int, j + 1, z, w) <==> (listed_before(adj@, i as int, j as int, z, w)
                            || (z == x && w == y)) by {
                        if z == x && w == y {
                            assert(adj@[i as int].1@[j as int] == y);
                        }
                        if listed_before(adj@, i as int, j + 1, z, w) {
                            let (a, b) = choose|a: int, b: int|
                                0 <= a < adj@.len() && 0 <= b < adj@[a].1@.len() && (a < i || (a == i && b < j + 1))
                                    && adj@[a].0 == z && #[trigger] adj@[a].1@[b] == w;
                            if !(a == i && b == j) {
                                assert(listed_before(adj@, i as int, j as int, z, w));
                            }
                        }
                    }
                }
                j += 1;
            }
            proof {
                assert forall|z: int, w: int|
                    listed_before(adj@, i + 1, 0, z, w) <==> listed_before(adj@, i as int, j as int, z, w) by {
                    if listed_before(adj@, i + 1, 0, z, w) {
                        let (a, b) = choose|a: int, b: int|
                            0 <= a < adj@.len() && 0 <= b < adj@[a].1@.len() && (a < i + 1 || (a == i + 1 && b < 0))
                                && adj@[a].0 == z && #[trigger] adj@[a].1@[b] == w;
                        assert(listed_before(adj@, i as int, j as int, z, w));
                    }
                    if listed_before(adj@, i as int, j as int, z, w) {
                        let (a, b) = choose|a: int, b: int|
                            0 <= a < adj@.len() && 0 <= b < adj@[a].1@.len() && (a < i || (a == i && b < j))
                                && adj@[a].0 == z && #[trigger] adj@[a].1@[b] == w;
                        assert(listed_before(adj@, i + 1, 0, z, w));
                    }
                }
            }
            i += 1;
        }
        let ghost gb = g@;
        g.overlap = 0;
        proof {
            assert(g@.adj == gb.adj && g@.sizes == gb.sizes && g@.masked == gb.masked && g@.names == gb.names);
            assert forall|x: int, y: int| #[trigger] g@.has_edge(x, y) == gb.has_edge(x, y) by {}
            assert forall|x: int| #[trigger] g@.present(x) == gb.present(x) by {}
            assert forall|x: int| #[trigger] g@.is_active(x) == gb.is_active(x) by {}
        }
        g
    }
}

impl GraphModel {
    /// A present marker end without any neighbor.
    pub open spec fn bare(self, x: int) -> bool {
        x != 0 && self.present(x) && forall|y: int| !#[trigger] self.has_edge(x, y)
    }

    /// `new` is `self` with every bare end joined to the telomere.
    pub open spec fn telomeres_filled(self, new: GraphModel) -> bool {
        &&& new.sizes == self.sizes
        &&& new.masked == self.masked
        &&& new.names == self.names
        &&& forall|x: int, y: int|
            #![trigger new.has_edge(x, y)]
            new.has_edge(x, y) <==> (self.has_edge(x, y) || (y == 0 && self.bare(x)) || (x == 0
                && self.bare(y)))
    }
}

/// In a well-formed graph an extremity has no neighbor exactly when its list is empty.
pub proof fn lemma_empty_list(g: GraphModel, x: int)
    requires
        g.wf(),
        0 <= x < g.adj.len(),
    ensures
        (g.adj[x].len() == 0) <==> (forall|y: int| !#[trigger] g.has_edge(x, y)),
{
    if g.adj[x].len() > 0 {
        assert(g.has_edge(x, g.adj[x][0] as int));
    }
}

impl MBG {
    /// Joins every present marker end that has no neighbor to the telomere.
    pub fn fill_telomeres(&mut self)
        requires
            old(self).wf(),
        ensures
            final(self).wf(),
            old(self)@.telomeres_filled(final(self)@),
    {
        let ghost g0 = self@;
        let n = self.adjacencies.len();
        let mut u: usize = 2;
        while u < n
            invariant
                n == self@.adj.len(),
                2 <= u <= n,
                g0.wf(),
                self.wf(),
                self@.sizes == g0.sizes,
                self@.masked == g0.masked,
                self@.names == g0.names,
                forall|x: int, y: int|
                    #![trigger self@.has_edge(x, y)]
                    self@.has_edge(x, y) <==> (g0.has_edge(x, y) || (y == 0 && x < u && g0.bare(x)) || (x == 0
                        && y < u && g0.bare(y))),
            decreases n - u,
        {
            proof {
                lemma_empty_list(self@, u as int);
                lemma_empty_list(g0, u as int);
                assert forall|y: int| self@.has_edge(u as int, y) <==> g0.has_edge(u as int, y) by {}
            }
            let p = self.is_present(u);
            if p && self.adjacencies[u].len() == 0 {
                proof {
                    assert(self@.present(u as int));
                    assert(g0.present(u as int));
                    assert(u as int != 0);
                    assert(self@.adj[u as int] == self.adjacencies@[u as int]@);
                    assert(self@.present(u as int) == g0.present(u as int));
                    assert(forall|y: int| !#[trigger] self@.has_edge(u as int, y));
                    assert(forall|y: int| !#[trigger] g0.has_edge(u as int, y));
                    assert(g0.bare(u as int));
                }
                self.add_edge(u, TELOMERE);
            } else {
                proof {
                    assert(!g0.bare(u as int));
                }
            }
            u += 1;
        }
        proof {
            assert forall|x: int, y: int|
                #![trigger self@.has_edge(x, y)]
                self@.has_edge(x, y) <==> (g0.has_edge(x, y) || (y == 0 && g0.bare(x)) || (x == 0
                    && g0.bare(y))) by {
                if y == 0 && g0.bare(x) {
                    assert(x < n);
                }
                if x == 0 && g0.bare(y) {
                    assert(y < n);
                }
            }
        }
    }
}

/// Joining bare ends to the telomere is idempotent: a second pass adds no edge.
pub proof fn lemma_fill_telomeres_idempotent(g0: GraphModel, g1: GraphModel, g2: GraphModel)
    requires
        g0.wf(),
        g1.wf(),
        g0.telomeres_filled(g1),
        g1.telomeres_filled(g2),
    ensures
        forall|x: int, y: int| g2.has_edge(x, y) <==> g1.has_edge(x, y),
        g2.adjacency_set() == g1.adjacency_set(),
{
    assert forall|x: int| !g1.bare(x) by {
        if x != 0 && g1.present(x) {
            if g0.bare(x) {
                assert(g1.has_edge(x, 0));
            } else {
                let y = choose|y: int| g0.has_edge(x, y);
                assert(g1.has_edge(x, y));
            }
        }
    }
    assert forall|x: int, y: int| g2.has_edge(x, y) <==> g1.has_edge(x, y) by {}
    assert(g2.adjacency_set() =~= g1.adjacency_set());
}

impl MBG {
    /// Every adjacency once, as `(x, y)` with `x <= y`.
    pub fn iter_adjacencies(&self) -> (r: Vec<Adjacency>)
        requires
            self.wf(),
        ensures
            forall|a: Adjacency| r@.contains(a) <==> self@.adjacency_set().contains(a),
            r@.no_duplicates(),
    {
        let mut r: Vec<Adjacency> = Vec::new();
        let n = self.adjacencies.len();
        let mut x: usize = 0;
        while x < n
            invariant
                self.wf(),
                n == self@.adj.len(),
                x <= n,
                forall|a: Adjacency| r@.contains(a) <==> (self@.adjacency_set().contains(a) && a.0 < x),
                forall|k: int| 0 <= k < r@.len() ==> (#[trigger] r@[k]).0 < x,
                r@.no_duplicates(),
            decreases n - x,
        {
            let l = &self.adjacencies[x];
            let mut j: usize = 0;
            while j < l.len()
                invariant
                    self.wf(),
                    n == self@.adj.len(),
                    x < n,
                    l@ == self@.adj[x as int],
                    j <= l@.len(),
                    forall|a: Adjacency|
                        r@.contains(a) <==> (self@.adjacency_set().contains(a) && (a.0 < x || (a.0 == x
                            && l@.subrange(0, j as int).contains(a.1)))),
                    forall|k: int| 0 <= k < r@.len() ==> (#[trigger] r@[k]).0 <= x,
                    r@.no_duplicates(),
                decreases l@.len() - j,
            {
                let y = l[j];
                let ghost before = r@;
                proof {
                    assert(l@.no_duplicates());
                    assert(l@.subrange(0, j + 1) =~= l@.subrange(0, j as int).push(y));
                    if l@.subrange(0, j as int).contains(y) {
                        let k = choose|k: int| 0 <= k < j && l@.subrange(0, j as int)[k] == y;
                        assert(l@[k] == y);
                    }
                    assert forall|w: usize| l@.subrange(0, j + 1).contains(w) <==> (l@.subrange(0, j as int).contains(w) || w == y) by {
                        lemma_push_contains(l@.subrange(0, j as int), y, w);
                    }
                    assert(self@.has_edge(x as int, y as int));
                }
                if x <= y {
                    r.push((x, y));
                    proof {
                        assert(!before.contains((x, y)));
                        lemma_push_no_dup(before, (x, y));
                        assert forall|a: Adjacency| r@.contains(a) <==> (before.contains(a) || a == (x, y)) by {
                            lemma_push_contains(before, (x, y), a);
                        }
                    }
                }
                proof {
                    assert forall|a: Adjacency|
                        r@.contains(a) <==> (self@.adjacency_set().contains(a) && (a.0 < x || (a.0 == x
                            && l@.subrange(0, j + 1).contains(a.1)))) by {
                        lemma_push_contains(l@.subrange(0, j as int), y, a.1);
                        if x > y {
                            assert(r@ == before);
                            if a.0 == x && a.1 == y {
                                assert(!self@.adjacency_set().contains(a));
                            }
                        } else {
                            lemma_push_contains(before, (x, y), a);
                            if a == (x, y) {
                                assert(self@.adjacency_set().contains(a));
                            }
                        }
                    }
                }
                j += 1;
            }
            proof {
                assert(l@.subrange(0, l@.len() as int) =~= l@);
                assert forall|a: Adjacency| self@.adjacency_set().contains(a) && a.0 == x implies l@.contains(a.1) by {}
            }
            x += 1;
        }
        proof {
            assert forall|a: Adjacency| self@.adjacency_set().contains(a) implies a.0 < n by {}
        }
        r
    }
}

impl GraphModel {
    /// A contested adjacency: a self-adjacency, or one between two marker ends
    /// of which at least one has degree above one.
    pub open spec fn contested(self, a: Adjacency) -> bool {
        a.0 == a.1 || (a.0 != 0 && a.1 != 0 && (self.degree(a.0 as int) > 1 || self.degree(a.1 as int) > 1))
    }
}

/// A neighbor of any extremity is present.
pub proof fn lemma_neighbor_present(g: GraphModel, x: int, y: int)
    requires
        g.wf(),
        g.has_edge(x, y),
    ensures
        g.present(y),
        g.present(x),
        g.has_edge(y, x),
        0 <= y < g.adj.len(),
{
    let i = choose|i: int| 0 <= i < g.adj[x].len() && g.adj[x][i] == y as usize;
    assert(g.adj[x][i] < g.adj.len());
    assert(g.adj[y].contains(x as usize));
    assert(g.adj[y].len() > 0);
    assert(g.adj[x].len() > 0);
}

impl MBG {
    /// Removes the symmetric edge `x`-`y`, if there is one.
    pub(crate) fn remove_edge(&mut self, x: Extremity, y: Extremity)
        requires
            old(self).wf(),
            (x as int) < old(self)@.adj.len(),
            (y as int) < old(self)@.adj.len(),
        ensures
            final(self).wf(),
            final(self)@.sizes == old(self)@.sizes,
            final(self)@.masked == old(self)@.masked,
            final(self)@.names == old(self)@.names,
            final(self)@.adj.len() == old(self)@.adj.len(),
            forall|z: int| 0 <= z < old(self)@.adj.len() && z != x && z != y ==> #[trigger] final(self)@.adj[z] == old(self)@.adj[z],
            forall|z: int, w: int|
                #![trigger final(self)@.has_edge(z, w)]
                final(self)@.has_edge(z, w) <==> (old(self)@.has_edge(z, w) && !(z == x && w == y)
                    && !(z == y && w == x)),
    {
        let ghost g0 = self@;
        proof {
            assert(g0.adj[x as int].no_duplicates());
        }
        remove_value(&mut self.adjacencies[x], y);
        let ghost g1 = self@;
        proof {
            assert(g1.adj =~= g0.adj.update(x as int, g1.adj[x as int]));
            assert(g1.adj[x as int].no_duplicates());
        }
        if x != y {
            proof {
                assert(g1.adj[y as int].no_duplicates());
            }
            remove_value(&mut self.adjacencies[y], x);
        }
        let ghost g2 = self@;
        proof {
            assert(g2.adj =~= g1.adj.update(y as int, g2.adj[y as int]));
            assert forall|z: int, w: int| #[trigger] g2.has_edge(z, w) <==> (g0.has_edge(z, w) && !(z == x && w == y) && !(z == y && w == x)) by {}
            assert forall|z: int| 0 <= z < g2.adj.len() implies (#[trigger] g2.adj[z]).no_duplicates() by {
                assert(g0.adj[z].no_duplicates());
            }
            assert forall|z: int, i: int| 0 <= z < g2.adj.len() && 0 <= i < g2.adj[z].len() implies {
                &&& (#[trigger] g2.adj[z][i]) < g2.adj.len()
                &&& g2.adj[g2.adj[z][i] as int].contains(z as usize)
            } by {
                let w = g2.adj[z][i];
                assert(g2.has_edge(z, w as int));
                assert(g0.has_edge(z, w as int));
                let k = choose|k: int| 0 <= k < g0.adj[z].len() && g0.adj[z][k] == w;
                assert(g0.adj[z][k] < g0.adj.len());
                assert(g0.has_edge(w as int, z));
                assert(g2.has_edge(w as int, z));
            }
            assert forall|z: int| 0 <= z < g2.adj.len() && !g2.present(z) implies (#[trigger] g2.adj[z]).len() == 0 by {
                assert(g0.adj[z].len() == 0);
                if g2.adj[z].len() > 0 {
                    assert(g2.has_edge(z, g2.adj[z][0] as int));
                }
            }
            if g2.adj[0].contains(0usize) {
                assert(g2.has_edge(0, 0));
            }
            assert(g2.adj.len() == g0.adj.len());
            assert(g2.sizes == g0.sizes);
            assert(g2.masked == g0.masked);
            assert(g2.names == g0.names);
            assert(!g2.adj[0].contains(0usize));
        }
    }

    /// Masks marker `m`, whose two ends have no neighbor left.
    pub(crate) fn mask_marker(&mut self, m: Marker)
        requires
            old(self).wf(),
            1 <= m < old(self)@.slots(),
            old(self)@.adj[2 * m as int].len() == 0,
            old(self)@.adj[2 * m + 1].len() == 0,
        ensures
            final(self).wf(),
            final(self)@.sizes == old(self)@.sizes,
            final(self)@.masked == old(self)@.masked.update(m as int, true),
            final(self)@.names == old(self)@.names,
            final(self)@.adj == old(self)@.adj,
    {
        let ghost g0 = self@;
        self.masked.set(m, true);
        proof {
            let g = self@;
            assert(g.adj =~= g0.adj);
            assert forall|x: int| 0 <= x < g.adj.len() && !g.present(x) implies (#[trigger] g.adj[x]).len() == 0 by {
                if g0.present(x) {
                    assert(x / 2 == m);
                }
            }
            assert(g.sizes == g0.sizes);
            assert(g.names == g0.names);
            assert(g.masked.len() == g0.masked.len());
            assert(g.masked[0]);
            assert forall|z: int| 0 <= z < g.adj.len() implies (#[trigger] g.adj[z]).no_duplicates() by {
                assert(g0.adj[z].no_duplicates());
            }
            assert forall|z: int, i: int| 0 <= z < g.adj.len() && 0 <= i < g.adj[z].len() implies {
                &&& (#[trigger] g.adj[z][i]) < g.adj.len()
                &&& g.adj[g.adj[z][i] as int].contains(z as usize)
            } by {
                assert(g0.adj[z][i] < g0.adj.len());
            }
        }
    }
}

impl MBG {
    /// Number of marker slots; extremity ids run below twice this.
    pub fn num_slots(&self) -> (r: usize)
        requires
            self.wf(),
        ensures
            r == self@.slots(),
    {
        self.node_sizes.len()
    }

    /// Size stored in marker slot `m`, whether or not the marker is active.
    pub(crate) fn size_at(&self, m: Marker) -> (r: usize)
        requires
            self.wf(),
            (m as int) < self@.slots(),
        ensures
            r == self@.sizes[m as int],
    {
        self.node_sizes[m]
    }

    /// Whether marker `m` is active.
    pub(crate) fn is_active_marker(&self, m: Marker) -> (r: bool)
        requires
            self.wf(),
        ensures
            r == self@.is_active(m as int),
    {
        m >= 1 && m < self.node_sizes.len() && !self.masked[m]
    }
}

/// The marker of the first entry named `s`, if any.
pub open spec fn lookup_name(names: Seq<(Seq<char>, usize)>, s: Seq<char>) -> Option<usize>
    decreases names.len(),
{
    if names.len() == 0 {
        None
    } else if names[0].0 == s {
        Some(names[0].1)
    } else {
        lookup_name(names.drop_first(), s)
    }
}

/// Index of the first entry of `names` named `s`, if any.
pub(crate) fn find_name(names: &Vec<(String, Marker)>, s: &String) -> (r: Option<usize>)
    ensures
        match r {
            Some(i) => i < names@.len() && names@[i as int].0@ == s@ && lookup_name(names_of(names@), s@)
                == Some(names@[i as int].1),
            None => lookup_name(names_of(names@), s@) is None,
        },
{
    let mut i: usize = 0;
    proof {
        assert(names_of(names@).skip(0) =~= names_of(names@));
    }
    while i < names.len()
        invariant
            i <= names@.len(),
            lookup_name(names_of(names@), s@) == lookup_name(names_of(names@).skip(i as int), s@),
        decreases names@.len() - i,
    {
        let ghost rest = names_of(names@).skip(i as int);
        proof {
            assert(rest[0] == name_view(names@[i as int]));
            assert(rest.drop_first() =~= names_of(names@).skip(i + 1));
        }
        if names[i].0 == *s {
            return Some(i);
        }
        i += 1;
    }
    proof {
        assert(names_of(names@).skip(i as int) =~= Seq::<(Seq<char>, usize)>::empty());
    }
    None
}

impl MBG {
    /// The active marker named `name`, if there is one.
    pub fn name_to_marker(&self, name: &str) -> (r: Option<Marker>)
        requires
            self.wf(),
        ensures
            r == match lookup_name(self@.names, name@) {
                Some(m) => if self@.is_active(m as int) {
                    Some(m)
                } else {
                    None::<usize>
                },
                None => None::<usize>,
            },
    {
        let key = String::from_str(name);
        match find_name(&self.node_ids, &key) {
            Some(i) => {
                let m = self.node_ids[i].1;
                if self.is_active_marker(m) {
                    Some(m)
                } else {
                    None
                }
            },
            None => None,
        }
    }

    /// The name table read backwards: every named marker, masked or not,
    /// with a name that the table gives it.
    pub fn marker_names(&self) -> (r: HashMap<Marker, String>)
        requires
            self.wf(),
        ensures
            forall|m: usize| #[trigger] r@.contains_key(m) <==> named(self@.names, m as int),
            forall|m: usize| #[trigger] r@.contains_key(m) ==> exists|i: int|
                0 <= i < self@.names.len() && self@.names[i] == (r@[m]@, m),
    {
        broadcast use vstd::std_specs::hash::group_hash_axioms;

        let mut r: HashMap<Marker, String> = HashMap::new();
        let mut i: usize = 0;
        while i < self.node_ids.len()
            invariant
                i <= self@.names.len(),
                self@.names == names_of(self.node_ids@),
                forall|m: usize| #[trigger] r@.contains_key(m) <==> exists|k: int| 0 <= k < i && self@.names[k].1 == m,
                forall|m: usize| #[trigger] r@.contains_key(m) ==> exists|k: int|
                    0 <= k < i && self@.names[k] == (r@[m]@, m),
            decreases self@.names.len() - i,
        {
            let name = self.node_ids[i].0.clone();
            let m = self.node_ids[i].1;
            proof {
                assert(self@.names[i as int] == (name@, m));
            }
            r.insert(m, name);
            i += 1;
        }
        r
    }
}

/// Why the graph was not trimmed.
#[derive(Debug, Clone, Copy, PartialEq, Eq)]
pub enum TrimError {
    /// The segments overlap, which the splice of neighbors does not preserve.
    Overlap,
}

impl MBG {
    /// The overlap between adjacent segments that the input declared.
    pub fn overlap(&self) -> (r: usize)
        ensures
            r == self@.overlap,
    {
        self.overlap
    }

    /// Records the overlap between adjacent segments.
    pub fn set_overlap(&mut self, overlap: usize)
        requires
            old(self).wf(),
        ensures
            final(self).wf(),
            final(self)@ == (GraphModel { overlap, ..old(self)@ }),
    {
        self.overlap = overlap;
    }
}

/// Both ends of a marker have a degree exactly when the marker is active.
pub proof fn lemma_degree_defined(g: GraphModel, m: int)
    requires
        g.wf(),
        m >= 1,
    ensures
        g.present(2 * m) == g.is_active(m),
        g.present(2 * m + 1) == g.is_active(m),
{
}

/// Membership in a sequence after a push.
pub proof fn lemma_push_contains<A>(s: Seq<A>, y: A, w: A)
    ensures
        s.push(y).contains(w) <==> (s.contains(w) || w == y),
{
    if s.contains(w) {
        let k = choose|k: int| 0 <= k < s.len() && s[k] == w;
        assert(s.push(y)[k] == w);
    }
    if w == y {
        assert(s.push(y)[s.len() as int] == w);
    }
    if s.push(y).contains(w) {
        let k = choose|k: int| 0 <= k < s.len() + 1 && s.push(y)[k] == w;
        if k < s.len() {
            assert(s[k] == w);
        }
    }
}

/// Pushing a new element keeps a sequence duplicate-free.
pub proof fn lemma_push_no_dup<A>(s: Seq<A>, y: A)
    requires
        s.no_duplicates(),
        !s.contains(y),
    ensures
        s.push(y).no_duplicates(),
{
    assert forall|i: int, j: int| 0 <= i < j < s.len() + 1 implies s.push(y)[i] != s.push(y)[j] by {
        if j == s.len() {
            assert(s[i] == s.push(y)[i]);
        }
    }
}

proof fn lemma_active_below_bounded(g: GraphModel, k: int)
    ensures
        g.active_below(k) <= if k >= 1 { k - 1 } else { 0 },
    decreases k,
{
    if k > 1 {
        lemma_active_below_bounded(g, k - 1);
    }
}

/// The degree of an extremity slot fits in a `usize`.
pub proof fn lemma_degree_fits(g: GraphModel, x: int)
    requires
        g.wf(),
        0 <= x < g.adj.len(),
    ensures
        0 <= g.degree(x) <= g.adj.len() + 1,
        g.degree(x) <= usize::MAX,
{
    lemma_list_bounded(g, x);
}

/// A neighbor list of a well-formed graph is shorter than the extremity range.
proof fn lemma_list_bounded(g: GraphModel, x: int)
    requires
        g.wf(),
        0 <= x < g.adj.len(),
    ensures
        g.adj[x].len() <= g.adj.len(),
{
    assert(g.adj[x].no_duplicates());
    assert forall|i: int| 0 <= i < g.adj[x].len() implies (#[trigger] g.adj[x][i]) < g.adj.len() by {}
    lemma_seq_bounded(g.adj[x], g.adj.len());
}

/// A duplicate-free sequence of values below `n` has at most `n` elements.
pub proof fn lemma_seq_bounded(l: Seq<usize>, n: nat)
    requires
        l.no_duplicates(),
        forall|i: int| 0 <= i < l.len() ==> (#[trigger] l[i]) < n,
        n <= usize::MAX + 1,
    ensures
        l.len() <= n,
{
    let s = Set::new(|y: usize| (y as nat) < n);
    assert(l.to_set().subset_of(s)) by {
        assert forall|y: usize| l.to_set().contains(y) implies s.contains(y) by {
            let i = choose|i: int| 0 <= i < l.len() && l[i] == y;
        }
    }
    lemma_range_set_len(n);
    vstd::set_lib::lemma_len_subset(l.to_set(), s);
    l.unique_seq_to_set();
}

pub proof fn lemma_range_set_len(n: nat)
    requires
        n <= usize::MAX + 1,
    ensures
        Set::new(|y: usize| (y as nat) < n).finite(),
        Set::new(|y: usize| (y as nat) < n).len() == n,
    decreases n,
{
    let s = Set::new(|y: usize| (y as nat) < n);
    if n == 0 {
        assert(s =~= Set::empty());
    } else {
        lemma_range_set_len((n - 1) as nat);
        let s0 = Set::new(|y: usize| (y as nat) < n - 1);
        assert(s =~= s0.insert((n - 1) as usize));
    }
}

} // verus!
