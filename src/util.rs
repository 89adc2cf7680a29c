use vstd::prelude::*;
use vstd::string::StringExecFns;

use std::collections::HashMap;

use crate::rearrangement::{Adjacency, Extremity, Marker, is_tail, marker};

verus! {

pub open spec fn naive_hash_spec(x: int) -> int {
    (7727 * x + 7001) % 7919
}

/// Whether the first end of `a` owns the adjacency: it has the smaller hash,
/// ties broken by the smaller id.
pub open spec fn is_my_adjacency_spec(a: Adjacency) -> bool {
    let hx = naive_hash_spec(a.0 as int);
    let hy = naive_hash_spec(a.1 as int);
    hx < hy || (hx == hy && a.0 <= a.1)
}

/// A small affine hash modulo a prime.
pub fn naive_hash(x: usize) -> (r: usize)
    ensures
        r == naive_hash_spec(x as int),
        r < 7919,
{
    let y = x % 7919;
    proof {
        vstd::arithmetic::div_mod::lemma_mul_mod_noop_right(7727, x as int, 7919);
        vstd::arithmetic::div_mod::lemma_add_mod_noop(7727 * x, 7001, 7919);
        vstd::arithmetic::div_mod::lemma_add_mod_noop(7727 * y, 7001, 7919);
        assert((7727 * y) % 7919 == (7727 * x) % 7919);
    }
    (7727 * y + 7001) % 7919
}

/// Whether the first end of `a` is the owner of the adjacency.
pub fn is_my_adjacency(a: Adjacency) -> (r: bool)
    ensures
        r == is_my_adjacency_spec(a),
{
    let (x, y) = a;
    let hx = naive_hash(x);
    let hy = naive_hash(y);
    hx < hy || (hx == hy && x <= y)
}

/// Of the two orientations of an adjacency between different ends, exactly one is owned.
pub proof fn lemma_one_owner(x: usize, y: usize)
    ensures
        x != y ==> (is_my_adjacency_spec((x, y)) != is_my_adjacency_spec((y, x))),
        x == y ==> is_my_adjacency_spec((x, y)),
{
}

/// The elements of `s` that repeat an earlier element, in order.
pub open spec fn dups_spec(s: Seq<Adjacency>) -> Seq<Adjacency>
    decreases s.len(),
{
    if s.len() == 0 {
        Seq::empty()
    } else if s.drop_last().contains(s.last()) {
        dups_spec(s.drop_last()).push(s.last())
    } else {
        dups_spec(s.drop_last())
    }
}

/// Every element of `v` that repeats an earlier one, in order of occurrence.
pub fn find_dups(v: &Vec<Adjacency>) -> (r: Vec<Adjacency>)
    ensures
        r@ == dups_spec(v@),
        r@.len() == 0 <==> v@.no_duplicates(),
{
    let mut dups: Vec<Adjacency> = Vec::new();
    let mut i: usize = 0;
    while i < v.len()
        invariant
            i <= v@.len(),
            dups@ == dups_spec(v@.take(i as int)),
            dups@.len() == 0 <==> v@.take(i as int).no_duplicates(),
        decreases v@.len() - i,
    {
        let x = v[i];
        let mut seen = false;
        let mut j: usize = 0;
        while j < i
            invariant
                j <= i < v@.len(),
                x == v@[i as int],
                seen <==> v@.take(j as int).contains(x),
            decreases i - j,
        {
            proof {
                assert(v@.take(j + 1) =~= v@.take(j as int).push(v@[j as int]));
                crate::mbg::lemma_push_contains(v@.take(j as int), v@[j as int], x);
            }
            if v[j].0 == x.0 && v[j].1 == x.1 {
                seen = true;
            }
            j += 1;
        }
        proof {
            let t = v@.take(i + 1);
            assert(t.drop_last() =~= v@.take(i as int));
            assert(t.last() == x);
            if seen {
                let k = choose|k: int| 0 <= k < i && v@.take(i as int)[k] == x;
                assert(t[k] == t[i as int]);
                assert(!t.no_duplicates());
            } else {
                if v@.take(i as int).no_duplicates() {
                    crate::mbg::lemma_push_no_dup(v@.take(i as int), x);
                    assert(t =~= v@.take(i as int).push(x));
                }
                assert(!v@.take(i as int).no_duplicates() ==> !t.no_duplicates()) by {
                    if !v@.take(i as int).no_duplicates() {
                        let (a, b) = choose|a: int, b: int| 0 <= a < b < i && v@.take(i as int)[a] == v@.take(i as int)[b];
                        assert(t[a] == t[b]);
                    }
                }
            }
        }
        if seen {
            dups.push(x);
        }
        i += 1;
    }
    proof {
        assert(v@.take(v@.len() as int) =~= v@);
    }
    dups
}

/// The keys in `s` that `m` maps to `c`.
pub open spec fn keys_with(m: Map<usize, usize>, s: Set<usize>, c: usize) -> Set<usize> {
    s.filter(|k: usize| m[k] == c)
}

/// How many keys of `m` map to `c`.
pub open spec fn value_count(m: Map<usize, usize>, c: usize) -> nat {
    keys_with(m, m.dom(), c).len()
}

/// For each complexity value, the number of markers that have it.
pub fn histogram(node_complexities: &HashMap<Marker, usize>) -> (r: HashMap<usize, usize>)
    ensures
        forall|c: usize| #[trigger] r@.contains_key(c) <==> exists|k: usize| node_complexities@.contains_key(k) && node_complexities@[k] == c,
        forall|c: usize| #[trigger] r@.contains_key(c) ==> r@[c] == value_count(node_complexities@, c),
{
    broadcast use vstd::std_specs::hash::group_hash_axioms;

    let ghost m = node_complexities@;
    let total = node_complexities.len();
    let mut hist: HashMap<usize, usize> = HashMap::new();
    let ghost mut done: Set<usize> = Set::empty();
    proof {
        assert(m.dom().finite());
    }
    for p in it: node_complexities.iter()
        invariant
            m == node_complexities@,
            m.dom().finite(),
            total == m.dom().len(),
            it.seq().no_duplicates(),
            forall|j: int| 0 <= j < it.seq().len() ==> m.contains_key(*(#[trigger] it.seq()[j]).0) && m[*it.seq()[j].0] == *it.seq()[j].1,
            forall|k: usize| m.contains_key(k) ==> exists|j: int| 0 <= j < it.seq().len() && *(#[trigger] it.seq()[j]).0 == k,
            done.subset_of(m.dom()),
            done.finite(),
            done.len() == it.index(),
            it.seq().len() == m.dom().len(),
            forall|k: usize| #[trigger] done.contains(k) <==> exists|j: int| 0 <= j < it.index() && *it.seq()[j].0 == k,
            forall|c: usize| #[trigger] hist@.contains_key(c) <==> exists|k: usize| done.contains(k) && m[k] == c,
            forall|c: usize| #[trigger] hist@.contains_key(c) ==> hist@[c] == keys_with(m, done, c).len(),
    {
        let (k, c) = p;
        let ghost i = it.index();
        proof {
            assert(it.seq()[i] == p);
            assert(!done.contains(*k)) by {
                if done.contains(*k) {
                    let j = choose|j: int| 0 <= j < i && *it.seq()[j].0 == *k;
                    assert(m[*it.seq()[j].0] == *it.seq()[j].1);
                    assert(it.seq()[j] == it.seq()[i]);
                }
            }
            vstd::set_lib::lemma_len_subset(done, m.dom());
            vstd::set_lib::lemma_len_subset(keys_with(m, done, *c), done);
            assert(keys_with(m, done, *c).len() <= m.dom().len());
        }
        let count = match hist.get(c) {
            Some(n) => *n,
            None => 0,
        };
        proof {
            if !hist@.contains_key(*c) {
                assert(keys_with(m, done, *c) =~= Set::empty());
            }
            assert(count == keys_with(m, done, *c).len());
            assert(done.len() < m.dom().len()) by {
                vstd::set_lib::lemma_len_subset(done.insert(*k), m.dom());
            }
        }
        hist.insert(*c, count + 1);
        proof {
            let d2 = done.insert(*k);
            assert forall|c2: usize| #[trigger] hist@.contains_key(c2) implies hist@[c2] == keys_with(m, d2, c2).len() by {
                if c2 == *c {
                    assert(keys_with(m, d2, c2) =~= keys_with(m, done, c2).insert(*k));
                    vstd::set_lib::lemma_len_subset(keys_with(m, done, c2), done);
                    assert(!keys_with(m, done, c2).contains(*k));
                } else {
                    assert(hist@[c2] == keys_with(m, done, c2).len());
                    assert(keys_with(m, d2, c2) =~= keys_with(m, done, c2));
                }
            }
            assert forall|c2: usize| #[trigger] hist@.contains_key(c2) <==> exists|k2: usize| d2.contains(k2) && m[k2] == c2 by {
                if c2 != *c && hist@.contains_key(c2) {
                    let k2 = choose|k2: usize| done.contains(k2) && m[k2] == c2;
                    assert(d2.contains(k2));
                }
                if exists|k2: usize| d2.contains(k2) && m[k2] == c2 {
                    let k2 = choose|k2: usize| d2.contains(k2) && m[k2] == c2;
                    if k2 != *k {
                        assert(done.contains(k2));
                    }
                }
            }
            assert forall|k2: usize| #[trigger] d2.contains(k2) <==> exists|j: int| 0 <= j < i + 1 && *it.seq()[j].0 == k2 by {
                if k2 == *k {
                    assert(*it.seq()[i].0 == k2);
                }
                if exists|j: int| 0 <= j < i + 1 && *it.seq()[j].0 == k2 {
                    let j = choose|j: int| 0 <= j < i + 1 && *it.seq()[j].0 == k2;
                    if j < i {
                        assert(done.contains(k2));
                    }
                }
            }
            done = d2;
            assert(done.subset_of(m.dom()));
        }
    }
    proof {
        assert(done.len() == m.dom().len());
        vstd::set_lib::lemma_subset_equality(done, m.dom());
        assert(done =~= m.dom());
        assert forall|c: usize| #[trigger] hist@.contains_key(c) implies hist@[c] == value_count(m, c) by {
            assert(keys_with(m, done, c) =~= keys_with(m, m.dom(), c));
        }
    }
    hist
}

/// The map read backwards: each value of `m` maps to a key that has it.
pub fn reverse_map(m: &HashMap<usize, usize>) -> (r: HashMap<usize, usize>)
    ensures
        forall|v: usize| #[trigger] r@.contains_key(v) <==> exists|k: usize| m@.contains_key(k) && m@[k] == v,
        forall|v: usize| #[trigger] r@.contains_key(v) ==> m@.contains_key(r@[v]) && m@[r@[v]] == v,
{
    broadcast use vstd::std_specs::hash::group_hash_axioms;

    let ghost mm = m@;
    let mut reversed: HashMap<usize, usize> = HashMap::new();
    for p in it: m.iter()
        invariant
            mm == m@,
            forall|j: int| 0 <= j < it.seq().len() ==> mm.contains_key(*(#[trigger] it.seq()[j]).0) && mm[*it.seq()[j].0] == *it.seq()[j].1,
            forall|k: usize| mm.contains_key(k) ==> exists|j: int| 0 <= j < it.seq().len() && *(#[trigger] it.seq()[j]).0 == k,
            forall|v: usize| #[trigger] reversed@.contains_key(v) <==> exists|j: int| 0 <= j < it.index() && *it.seq()[j].1 == v,
            forall|v: usize| #[trigger] reversed@.contains_key(v) ==> mm.contains_key(reversed@[v]) && mm[reversed@[v]] == v,
    {
        let (a, b) = p;
        let ghost i = it.index();
        proof {
            assert(it.seq()[i] == p);
        }
        reversed.insert(*b, *a);
        proof {
            assert forall|v: usize| #[trigger] reversed@.contains_key(v) <==> exists|j: int| 0 <= j < i + 1 && *it.seq()[j].1 == v by {
                if v == *b {
                    assert(*it.seq()[i].1 == v);
                }
                if exists|j: int| 0 <= j < i + 1 && *it.seq()[j].1 == v {
                    let j = choose|j: int| 0 <= j < i + 1 && *it.seq()[j].1 == v;
                    if j < i {
                        assert(exists|j: int| 0 <= j < i && *it.seq()[j].1 == v);
                    }
                }
            }
        }
    }
    proof {
        assert forall|v: usize| #[trigger] reversed@.contains_key(v) <==> exists|k: usize| mm.contains_key(k) && mm[k] == v by {
            if reversed@.contains_key(v) {
                assert(mm.contains_key(reversed@[v]));
            }
            if exists|k: usize| mm.contains_key(k) && mm[k] == v {
                let k = choose|k: usize| mm.contains_key(k) && mm[k] == v;
                assert(reversed@.contains_key(v) || !reversed@.contains_key(v));
            }
        }
    }
    reversed
}

/// `t` for a tail, `h` for a head.
pub open spec fn end_letter(x: Extremity) -> Seq<char> {
    if x % 2 == 0 {
        seq!['t']
    } else {
        seq!['h']
    }
}

/// An extremity written as its marker's name, `_`, and `t` or `h`.
pub fn pretty_extremity(m: &HashMap<Marker, String>, x: Extremity) -> (r: String)
    requires
        m@.contains_key(x / 2),
    ensures
        r@ == m@[x / 2]@ + seq!['_'] + end_letter(x),
{
    broadcast use vstd::std_specs::hash::group_hash_axioms;

    let s = match m.get(&marker(x)) {
        Some(name) => name.clone(),
        None => String::new(),
    };
    proof {
        reveal_strlit("_");
        reveal_strlit("t");
        reveal_strlit("h");
    }
    let s = s.concat("_");
    if is_tail(x) {
        s.concat("t")
    } else {
        s.concat("h")
    }
}

/// An adjacency written as its two extremities joined by `-`.
pub fn pretty_adjacency(m: &HashMap<Marker, String>, a: Adjacency) -> (r: String)
    requires
        m@.contains_key(a.0 / 2),
        m@.contains_key(a.1 / 2),
    ensures
        r@ == m@[a.0 / 2]@ + seq!['_'] + end_letter(a.0) + seq!['-'] + m@[a.1 / 2]@ + seq!['_'] + end_letter(a.1),
{
    let (x, y) = a;
    let left = pretty_extremity(m, x);
    let right = pretty_extremity(m, y);
    proof {
        reveal_strlit("-");
    }
    let s = left.concat("-");
    s.concat(right.as_str())
}

} // verus!
