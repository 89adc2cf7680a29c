use vstd::prelude::*;
use vstd::string::{StrSliceExecFns, StringExecFns};

use crate::mbg::{MBG, find_name, given_size, listed, lookup_name, named, names_of};
use crate::rearrangement::{Adjacency, Extremity, Marker, TELOMERE, head, tail, to_adjacency, to_adjacency_spec};

verus! {

/// The name table after looking up `name`: unchanged when it is known,
/// otherwise extended by `name` with id `curr_id`.
pub open spec fn names_after(names: Seq<(Seq<char>, usize)>, name: Seq<char>, curr_id: usize) -> Seq<(Seq<char>, usize)> {
    match lookup_name(names, name) {
        Some(_) => names,
        None => names.push((name, curr_id)),
    }
}

/// The id of `name`: the known one, or `curr_id` for a new name.
pub open spec fn id_of(names: Seq<(Seq<char>, usize)>, name: Seq<char>, curr_id: usize) -> usize {
    match lookup_name(names, name) {
        Some(k) => k,
        None => curr_id,
    }
}

/// A name that is found maps to the marker of one of the entries.
proof fn lemma_lookup_found(names: Seq<(Seq<char>, usize)>, s: Seq<char>)
    ensures
        match lookup_name(names, s) {
            Some(v) => exists|k: int| 0 <= k < names.len() && names[k].1 == v,
            None => true,
        },
    decreases names.len(),
{
    if names.len() > 0 && names[0].0 != s {
        lemma_lookup_found(names.drop_first(), s);
        if let Some(v) = lookup_name(names, s) {
            let k = choose|k: int| 0 <= k < names.drop_first().len() && names.drop_first()[k].1 == v;
            assert(names[k + 1].1 == v);
        }
    }
}

proof fn lemma_names_push(v: Seq<(String, Marker)>, p: (String, Marker))
    ensures
        names_of(v.push(p)) == names_of(v).push((p.0@, p.1)),
{
    assert(names_of(v.push(p)) =~= names_of(v).push((p.0@, p.1)));
}

/// Looks `seg_name` up in the name table and gives it id `curr_id` when it
/// is new; returns the next free id and the name's id.
pub fn get_or_set_node_id(node_ids: &mut Vec<(String, Marker)>, curr_id: Marker, seg_name: String) -> (r: (
    Marker,
    Marker,
))
    requires
        curr_id < usize::MAX,
    ensures
        names_of(final(node_ids)@) == names_after(names_of(old(node_ids)@), seg_name@, curr_id),
        r.1 == id_of(names_of(old(node_ids)@), seg_name@, curr_id),
        r.0 == if curr_id == r.1 {
            curr_id + 1
        } else {
            curr_id as int
        },
{
    let ghost name = seg_name@;
    let n_id = match find_name(node_ids, &seg_name) {
        Some(i) => node_ids[i].1,
        None => {
            proof {
                lemma_names_push(node_ids@, (seg_name, curr_id));
            }
            node_ids.push((seg_name, curr_id));
            curr_id
        },
    };
    let new_id = if curr_id == n_id {
        curr_id + 1
    } else {
        curr_id
    };
    (new_id, n_id)
}

/// A marker token without its orientation sign: a leading `+` is dropped,
/// then a leading `-`, which marks the marker as reversed.
pub open spec fn unsigned_name(s: Seq<char>) -> Seq<char> {
    let t = if s.len() > 0 && s[0] == '+' {
        s.drop_first()
    } else {
        s
    };
    if t.len() > 0 && t[0] == '-' {
        t.drop_first()
    } else {
        t
    }
}

/// Whether a marker token reads forward (it has no `-` after an optional `+`).
pub open spec fn is_forward(s: Seq<char>) -> bool {
    let t = if s.len() > 0 && s[0] == '+' {
        s.drop_first()
    } else {
        s
    };
    !(t.len() > 0 && t[0] == '-')
}

/// Reads a signed marker token: returns the next free id, whether the marker
/// reads forward, and its id, registering a new name with id `curr_id`.
pub fn parse_marker(node_ids: &mut Vec<(String, Marker)>, markerstr: &str, curr_id: Marker) -> (r: (
    Marker,
    bool,
    Marker,
))
    requires
        curr_id < usize::MAX,
    ensures
        names_of(final(node_ids)@) == names_after(names_of(old(node_ids)@), unsigned_name(markerstr@), curr_id),
        r.1 == is_forward(markerstr@),
        r.2 == id_of(names_of(old(node_ids)@), unsigned_name(markerstr@), curr_id),
        r.0 == match lookup_name(names_of(old(node_ids)@), unsigned_name(markerstr@)) {
            Some(_) => curr_id,
            None => (curr_id + 1) as usize,
        },
{
    let mut workslice = markerstr;
    let mut is_fwd = true;
    if workslice.unicode_len() > 0 && workslice.get_char(0) == '+' {
        workslice = workslice.substring_char(1, workslice.unicode_len());
    }
    if workslice.unicode_len() > 0 && workslice.get_char(0) == '-' {
        workslice = workslice.substring_char(1, workslice.unicode_len());
        is_fwd = false;
    }
    proof {
        let s = markerstr@;
        let t = if s.len() > 0 && s[0] == '+' { s.drop_first() } else { s };
        assert(s.drop_first() =~= s.subrange(1, s.len() as int));
        assert(t.drop_first() =~= t.subrange(1, t.len() as int));
        assert(workslice@ == unsigned_name(markerstr@));
    }
    let key = String::from_str(workslice);
    match find_name(node_ids, &key) {
        Some(i) => {
            let m = node_ids[i].1;
            (curr_id, is_fwd, m)
        },
        None => {
            proof {
                lemma_names_push(node_ids@, (key, curr_id));
            }
            node_ids.push((key, curr_id));
            (curr_id + 1, is_fwd, curr_id)
        },
    }
}

/// Collects a raw graph triple (sizes, neighbor lists, names) record by
/// record, giving every new name the next free marker id.
pub struct GraphBuilder {
    sizes: Vec<(Marker, usize)>,
    adjacencies: Vec<(Extremity, Vec<Extremity>)>,
    node_ids: Vec<(String, Marker)>,
    curr_id: Marker,
}

impl GraphBuilder {
    /// Ids stay below half the `usize` range, and every name has an id below the next free one.
    pub closed spec fn wf(&self) -> bool {
        &&& 1 <= self.curr_id <= usize::MAX / 2
        &&& forall|i: int| 0 <= i < self.adjacencies@.len() ==> (#[trigger] self.adjacencies@[i]).1@.len() == 1
        &&& forall|i: int| 0 <= i < self.node_ids@.len() ==> 1 <= (#[trigger] self.node_ids@[i]).1 < self.curr_id
    }

    pub closed spec fn names(&self) -> Seq<(Seq<char>, usize)> {
        names_of(self.node_ids@)
    }

    pub closed spec fn next_id(&self) -> usize {
        self.curr_id
    }

    /// The size records collected so far.
    pub closed spec fn size_records(&self) -> Seq<(Marker, usize)> {
        self.sizes@
    }

    /// The adjacencies collected so far, one `(x, y)` per record.
    pub closed spec fn edge_records(&self) -> Seq<Adjacency> {
        self.adjacencies@.map_values(|p: (Extremity, Vec<Extremity>)| (p.0, p.1@[0]))
    }

    pub fn new() -> (r: GraphBuilder)
        ensures
            r.wf(),
            r.names() == Seq::<(Seq<char>, usize)>::empty(),
            r.next_id() == 1,
            r.size_records() == Seq::<(Marker, usize)>::empty(),
            r.edge_records() == Seq::<Adjacency>::empty(),
    {
        let r = GraphBuilder { sizes: Vec::new(), adjacencies: Vec::new(), node_ids: Vec::new(), curr_id: 1 };
        proof {
            assert(r.edge_records() =~= Seq::<Adjacency>::empty());
            assert(r.names() =~= Seq::<(Seq<char>, usize)>::empty());
        }
        r
    }

    fn id_for(&mut self, name: String) -> (r: Option<Marker>)
        requires
            old(self).wf(),
        ensures
            final(self).wf(),
            final(self).sizes == old(self).sizes,
            final(self).adjacencies == old(self).adjacencies,
            match r {
                Some(m) => {
                    &&& final(self).names() == names_after(old(self).names(), name@, old(self).curr_id)
                    &&& m == id_of(old(self).names(), name@, old(self).curr_id)
                    &&& 1 <= m < final(self).curr_id
                    &&& final(self).curr_id == if m == old(self).curr_id {
                        old(self).curr_id + 1
                    } else {
                        old(self).curr_id as int
                    }
                },
                None => final(self).names() == old(self).names() && final(self).curr_id == old(self).curr_id
                    && lookup_name(old(self).names(), name@) is None && old(self).curr_id == usize::MAX / 2,
            },
    {
        if self.curr_id >= usize::MAX / 2 {
            match find_name(&self.node_ids, &name) {
                Some(i) => {
                    let m = self.node_ids[i].1;
                    proof {
                        assert(self.node_ids@[i as int].1 < self.curr_id);
                        assert(names_after(self.names(), name@, self.curr_id) == self.names());
                    }
                    return Some(m);
                },
                None => {
                    return None;
                },
            }
        }
        let ghost old_ids = self.node_ids@;
        let (next, m) = get_or_set_node_id(&mut self.node_ids, self.curr_id, name);
        proof {
            let found = lookup_name(names_of(old_ids), name@) is Some;
            assert(names_of(self.node_ids@).len() == self.node_ids@.len());
            assert forall|i: int| 0 <= i < self.node_ids@.len() implies 1 <= (#[trigger] self.node_ids@[i]).1 < next by {
                assert(names_of(self.node_ids@)[i].1 == self.node_ids@[i].1);
                if i < old_ids.len() {
                    assert(1 <= old_ids[i].1 < self.curr_id);
                    assert(names_of(old_ids)[i].1 == old_ids[i].1);
                    if found {
                        assert(names_of(self.node_ids@) == names_of(old_ids));
                    } else {
                        assert(names_of(self.node_ids@) == names_of(old_ids).push((name@, self.curr_id)));
                    }
                } else {
                    assert(!found);
                    assert(names_of(self.node_ids@) == names_of(old_ids).push((name@, self.curr_id)));
                }
            }
            lemma_lookup_found(names_of(old_ids), name@);
            if m != self.curr_id {
                let k = choose|k: int| 0 <= k < names_of(old_ids).len() && names_of(old_ids)[k].1 == m;
                assert(old_ids[k].1 == m);
            }
        }
        self.curr_id = next;
        Some(m)
    }
}

/// Looking a name up after appending an entry.
proof fn lemma_lookup_push(names: Seq<(Seq<char>, usize)>, p: (Seq<char>, usize), s: Seq<char>)
    ensures
        lookup_name(names.push(p), s) == match lookup_name(names, s) {
            Some(v) => Some(v),
            None => if p.0 == s {
                Some(p.1)
            } else {
                None::<usize>
            },
        },
    decreases names.len(),
{
    if names.len() > 0 {
        assert(names.push(p)[0] == names[0]);
        assert(names.push(p).drop_first() =~= names.drop_first().push(p));
        lemma_lookup_push(names.drop_first(), p, s);
    } else {
        assert(names.push(p).drop_first() =~= Seq::<(Seq<char>, usize)>::empty());
        assert(names.push(p)[0] == p);
        assert(lookup_name(names.push(p).drop_first(), s) is None);
        assert(lookup_name(names, s) is None);
    }
}

/// After an id is handed out for `name`, looking the name up gives that id,
/// and names looked up before keep their ids.
proof fn lemma_after_lookup(names: Seq<(Seq<char>, usize)>, name: Seq<char>, curr_id: usize, other: Seq<char>)
    ensures
        lookup_name(names_after(names, name, curr_id), name) == Some(id_of(names, name, curr_id)),
        lookup_name(names, other) is Some ==> lookup_name(names_after(names, name, curr_id), other) == lookup_name(
            names,
            other,
        ),
{
    lemma_lookup_push(names, (name, curr_id), name);
    lemma_lookup_push(names, (name, curr_id), other);
}

impl GraphBuilder {
    /// Records a segment `name` of length `len`; fails only when no id is left for a new name.
    pub fn add_segment(&mut self, name: String, len: usize) -> (r: bool)
        requires
            old(self).wf(),
        ensures
            final(self).wf(),
            final(self).edge_records() == old(self).edge_records(),
            r == (lookup_name(old(self).names(), name@) is Some || old(self).next_id() < usize::MAX / 2),
            r ==> final(self).names() == names_after(old(self).names(), name@, old(self).next_id())
                && final(self).size_records() == old(self).size_records().push(
                (id_of(old(self).names(), name@, old(self).next_id()), len),
            ),
            !r ==> final(self).names() == old(self).names() && final(self).size_records() == old(self).size_records(),
    {
        match self.id_for(name) {
            Some(m) => {
                self.sizes.push((m, len));
                true
            },
            None => false,
        }
    }

    /// Records a link from segment `a` to segment `b`, each read forward or
    /// reversed; fails only when no id is left for a new name.
    pub fn add_link(&mut self, a: String, a_forward: bool, b: String, b_forward: bool) -> (r: bool)
        requires
            old(self).wf(),
        ensures
            final(self).wf(),
            final(self).size_records() == old(self).size_records(),
            r == ((lookup_name(old(self).names(), a@) is Some || old(self).next_id() < usize::MAX / 2) && (lookup_name(
                names_after(old(self).names(), a@, old(self).next_id()),
                b@,
            ) is Some || (if lookup_name(old(self).names(), a@) is Some {
                old(self).next_id() as int
            } else {
                old(self).next_id() + 1
            }) < usize::MAX / 2)),
            r ==> exists|ma: usize, mb: usize|
                lookup_name(final(self).names(), a@) == Some(ma) && lookup_name(final(self).names(), b@) == Some(mb)
                    && final(self).edge_records() == old(self).edge_records().push(
                    to_adjacency_spec((a_forward, ma), (b_forward, mb)),
                ),
            !r ==> final(self).edge_records() == old(self).edge_records(),
    {
        let ghost an = a@;
        let ghost n0 = self.names();
        let ghost c0 = self.curr_id;
        let ma = match self.id_for(a) {
            Some(m) => m,
            None => {
                return false;
            },
        };
        let ghost n1 = self.names();
        let ghost c1 = self.curr_id;
        proof {
            lemma_lookup_found(n0, an);
            if let Some(v) = lookup_name(n0, an) {
                let k = choose|k: int| 0 <= k < n0.len() && n0[k].1 == v;
                assert(v < c0);
            }
            assert(c1 == if lookup_name(n0, an) is Some { c0 as int } else { c0 + 1 });
        }
        let ghost bn = b@;
        let mb = match self.id_for(b) {
            Some(m) => m,
            None => {
                return false;
            },
        };
        let ghost e0 = self.edge_records();
        let (x, y) = to_adjacency((a_forward, ma), (b_forward, mb));
        self.adjacencies.push((x, vec![y]));
        proof {
            lemma_after_lookup(n0, an, c0, an);
            lemma_after_lookup(n1, bn, c1, an);
            lemma_after_lookup(n1, bn, c1, bn);
            assert(self.edge_records() =~= e0.push((x, y)));
        }
        true
    }

    /// Records that end `is_tail` of segment `name` is a chromosome end;
    /// fails when the segment is unknown.
    pub fn add_telomere(&mut self, name: String, is_tail: bool) -> (r: bool)
        requires
            old(self).wf(),
        ensures
            final(self).wf(),
            final(self).names() == old(self).names(),
            final(self).next_id() == old(self).next_id(),
            final(self).size_records() == old(self).size_records(),
            r == lookup_name(old(self).names(), name@) is Some,
            r ==> final(self).edge_records() == old(self).edge_records().push(
                (
                    (if is_tail {
                        2 * lookup_name(old(self).names(), name@)->0
                    } else {
                        2 * lookup_name(old(self).names(), name@)->0 + 1
                    }) as usize,
                    TELOMERE,
                ),
            ),
            !r ==> final(self).edge_records() == old(self).edge_records(),
    {
        match find_name(&self.node_ids, &name) {
            Some(i) => {
                let m = self.node_ids[i].1;
                proof {
                    assert(1 <= self.node_ids@[i as int].1 < self.curr_id);
                }
                let x = if is_tail {
                    tail(m)
                } else {
                    head(m)
                };
                let ghost e0 = self.edge_records();
                self.adjacencies.push((x, vec![TELOMERE]));
                proof {
                    assert(self.edge_records() =~= e0.push((x, TELOMERE)));
                }
                true
            },
            None => false,
        }
    }

    /// Reads a signed marker token of a chromosome line; fails only when no
    /// id is left for a new name.
    pub fn marker_token(&mut self, token: &str) -> (r: Option<(bool, Marker)>)
        requires
            old(self).wf(),
        ensures
            final(self).wf(),
            final(self).size_records() == old(self).size_records(),
            final(self).edge_records() == old(self).edge_records(),
            r is None <==> old(self).next_id() >= usize::MAX / 2,
            match r {
                Some(p) => p.0 == is_forward(token@) && lookup_name(final(self).names(), unsigned_name(token@))
                    == Some(p.1) && p.1 < final(self).next_id(),
                None => final(self).names() == old(self).names(),
            },
    {
        if self.curr_id >= usize::MAX / 2 {
            return None;
        }
        let ghost n0 = self.names();
        let ghost ids0 = self.node_ids@;
        let ghost c0 = self.curr_id;
        let (next, fwd, m) = parse_marker(&mut self.node_ids, token, self.curr_id);
        proof {
            lemma_after_lookup(n0, unsigned_name(token@), c0, unsigned_name(token@));
            lemma_lookup_found(n0, unsigned_name(token@));
            let found = lookup_name(n0, unsigned_name(token@)) is Some;
            assert(names_of(self.node_ids@).len() == self.node_ids@.len());
            assert forall|i: int| 0 <= i < self.node_ids@.len() implies 1 <= (#[trigger] self.node_ids@[i]).1 < next by {
                assert(names_of(self.node_ids@)[i].1 == self.node_ids@[i].1);
                if i < ids0.len() {
                    assert(1 <= ids0[i].1 < c0);
                    assert(names_of(ids0)[i].1 == ids0[i].1);
                    if found {
                        assert(names_of(self.node_ids@) == names_of(ids0));
                    } else {
                        assert(names_of(self.node_ids@) == names_of(ids0).push((unsigned_name(token@), c0)));
                    }
                } else {
                    assert(!found);
                    assert(names_of(self.node_ids@) == names_of(ids0).push((unsigned_name(token@), c0)));
                }
            }
            if found {
                let k = choose|k: int| 0 <= k < n0.len() && n0[k].1 == m;
                assert(ids0[k].1 == m);
            }
        }
        self.curr_id = next;
        Some((fwd, m))
    }

    /// Records the adjacency between consecutive markers `a` and `b` of a
    /// chromosome line; fails when a marker id was not handed out here.
    pub fn join(&mut self, a: (bool, Marker), b: (bool, Marker)) -> (r: bool)
        requires
            old(self).wf(),
        ensures
            final(self).wf(),
            final(self).names() == old(self).names(),
            final(self).next_id() == old(self).next_id(),
            final(self).size_records() == old(self).size_records(),
            r == (a.1 < old(self).next_id() && b.1 < old(self).next_id()),
            r ==> final(self).edge_records() == old(self).edge_records().push(to_adjacency_spec(a, b)),
            !r ==> final(self).edge_records() == old(self).edge_records(),
    {
        if a.1 >= self.curr_id || b.1 >= self.curr_id {
            return false;
        }
        let (x, y) = to_adjacency(a, b);
        let ghost e0 = self.edge_records();
        self.adjacencies.push((x, vec![y]));
        proof {
            assert(self.edge_records() =~= e0.push((x, y)));
        }
        true
    }

    /// Records that a linear chromosome ends at both extremities of the
    /// closing adjacency from `last` back to `first`.
    pub fn close_linear(&mut self, last: (bool, Marker), first: (bool, Marker)) -> (r: bool)
        requires
            old(self).wf(),
        ensures
            final(self).wf(),
            final(self).names() == old(self).names(),
            final(self).next_id() == old(self).next_id(),
            final(self).size_records() == old(self).size_records(),
            r == (last.1 < old(self).next_id() && first.1 < old(self).next_id()),
            r ==> final(self).edge_records() == old(self).edge_records().push(
                (TELOMERE, to_adjacency_spec(last, first).0),
            ).push((TELOMERE, to_adjacency_spec(last, first).1)),
            !r ==> final(self).edge_records() == old(self).edge_records(),
    {
        if last.1 >= self.curr_id || first.1 >= self.curr_id {
            return false;
        }
        let (x, y) = to_adjacency(last, first);
        let ghost e0 = self.edge_records();
        self.adjacencies.push((TELOMERE, vec![x]));
        self.adjacencies.push((TELOMERE, vec![y]));
        proof {
            assert(self.edge_records() =~= e0.push((TELOMERE, x)).push((TELOMERE, y)));
        }
        true
    }

    /// The graph of the records: every named marker active with its last
    /// recorded size, and every recorded adjacency between present ends.
    pub fn build(self) -> (r: MBG)
        requires
            self.wf(),
        ensures
            r.wf(),
            r@.names == self.names(),
            forall|m: int| r@.is_active(m) <==> (m >= 1 && named(r@.names, m)),
            forall|m: int| r@.is_active(m) ==> r@.sizes[m] == given_size(self.size_records(), m),
            forall|x: int, y: int|
                #![trigger r@.has_edge(x, y)]
                r@.has_edge(x, y) <==> (r@.allowed(x, y) && (self.edge_records().contains((x as usize, y as usize))
                    || self.edge_records().contains((y as usize, x as usize)))),
    {
        let ghost recs = self.edge_records();
        let ghost adj = self.adjacencies@;
        proof {
            assert forall|x: int, y: int| listed(adj, x, y) implies 0 <= x <= usize::MAX && 0 <= y <= usize::MAX
                && recs.contains((x as usize, y as usize)) by {
                {
                    let (a, b) = choose|a: int, b: int|
                        0 <= a < adj.len() && 0 <= b < adj[a].1@.len() && (a < adj.len() || (a == adj.len() && b < 0))
                            && adj[a].0 == x && #[trigger] adj[a].1@[b] == y;
                    assert(adj[a].1@.len() == 1);
                    assert(recs[a] == (x as usize, y as usize));
                }
            }
            assert forall|x: int, y: int| 0 <= x <= usize::MAX && 0 <= y <= usize::MAX && recs.contains((x as usize, y as usize)) implies listed(adj, x, y) by {
                let a = choose|a: int| 0 <= a < recs.len() && recs[a] == (x as usize, y as usize);
                assert(adj[a].1@.len() == 1);
                assert(adj[a].1@[0] == y);
            }
            assert forall|i: int| 0 <= i < self.node_ids@.len() implies (#[trigger] self.node_ids@[i]).1 < usize::MAX / 2 by {}
        }
        let r = MBG::from_hash_maps(self.sizes, self.adjacencies, self.node_ids);
        proof {
            assert forall|x: int, y: int| #[trigger] r@.has_edge(x, y) <==> (r@.allowed(x, y) && (recs.contains((x as usize, y as usize))
                || recs.contains((y as usize, x as usize)))) by {
                if r@.allowed(x, y) {
                    assert(0 <= x < r@.adj.len() || x == 0);
                }
            }
        }
        r
    }
}

} // verus!
