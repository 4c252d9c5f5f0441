//! Sorted views of the ordered std collections the library keeps its state in,
//! and the canonical ascending listing of a set of identifiers.

use std::collections::{BTreeMap, BTreeSet};
use vstd::prelude::*;
use vstd::std_specs::cmp::OrdSpec;
use vstd::std_specs::iter::IteratorSpec;

verus! {

broadcast use vstd::std_specs::btree::group_btree_axioms;

/// `r` lists the set `s` in ascending order, each element once.
pub open spec fn ascending_u32(r: Seq<u32>, s: Set<u32>) -> bool {
    &&& forall|i: int, j: int| 0 <= i < j < r.len() ==> r[i] < r[j]
    &&& r.to_set() == s
}

/// `r` lists the set `s` in ascending order, each element once.
pub open spec fn ascending_u16(r: Seq<u16>, s: Set<u16>) -> bool {
    &&& forall|i: int, j: int| 0 <= i < j < r.len() ==> r[i] < r[j]
    &&& r.to_set() == s
}

/// The ascending listing of a set of identifiers (meaningful for finite sets).
pub open spec fn sorted_ids(s: Set<u32>) -> Seq<u32> {
    choose|r: Seq<u32>| ascending_u32(r, s)
}

/// Two ascending listings of the same set are the same sequence.
pub proof fn lemma_ascending_unique(r1: Seq<u32>, r2: Seq<u32>, s: Set<u32>)
    requires
        ascending_u32(r1, s),
        ascending_u32(r2, s),
    ensures
        r1 == r2,
    decreases r1.len(),
{
    if r1.len() == 0 {
        if r2.len() > 0 {
            assert(r2.to_set().contains(r2[0]));
            assert(!r1.to_set().contains(r2[0]));
        }
        assert(r1 =~= r2);
    } else {
        assert(r1.to_set().contains(r1[0]));
        assert(r2.to_set().contains(r1[0]));
        let k2 = r2.index_of(r1[0]);
        assert(r2.to_set().contains(r2[0]));
        assert(r1.to_set().contains(r2[0]));
        let k1 = r1.index_of(r2[0]);
        assert(r1[0] <= r1[k1]);
        assert(r2[0] <= r2[k2]);
        assert(r1[0] == r2[0]);
        let x = r1[0];
        let t1 = r1.drop_first();
        let t2 = r2.drop_first();
        assert forall|y: u32| t1.to_set().contains(y) <==> s.remove(x).contains(y) by {
            if t1.to_set().contains(y) {
                let k = t1.index_of(y);
                assert(r1[k + 1] == y);
                assert(r1.to_set().contains(y));
            }
            if s.remove(x).contains(y) {
                assert(r1.to_set().contains(y));
                let k = r1.index_of(y);
                assert(k != 0);
                assert(t1[k - 1] == y);
            }
        }
        assert forall|y: u32| t2.to_set().contains(y) <==> s.remove(x).contains(y) by {
            if t2.to_set().contains(y) {
                let k = t2.index_of(y);
                assert(r2[k + 1] == y);
                assert(r2.to_set().contains(y));
            }
            if s.remove(x).contains(y) {
                assert(r2.to_set().contains(y));
                let k = r2.index_of(y);
                assert(k != 0);
                assert(t2[k - 1] == y);
            }
        }
        assert(t1.to_set() =~= s.remove(x));
        assert(t2.to_set() =~= s.remove(x));
        lemma_ascending_unique(t1, t2, s.remove(x));
        assert(r1 =~= r2) by {
            assert forall|i: int| 0 <= i < r1.len() implies r1[i] == r2[i] by {
                if i > 0 {
                    assert(r1[i] == t1[i - 1]);
                    assert(r2[i] == t2[i - 1]);
                }
            }
        }
    }
}

/// Any ascending listing of `s` is the one `sorted_ids` names.
pub proof fn lemma_sorted_ids_is(r: Seq<u32>, s: Set<u32>)
    requires
        ascending_u32(r, s),
    ensures
        sorted_ids(s) == r,
{
    let c = sorted_ids(s);
    assert(ascending_u32(c, s));
    lemma_ascending_unique(c, r, s);
}

/// Every finite set of identifiers has an ascending listing.
pub proof fn lemma_sorted_ids_exists(s: Set<u32>)
    requires
        s.finite(),
    ensures
        ascending_u32(sorted_ids(s), s),
    decreases s.len(),
{
    if s.len() == 0 {
        let r = Seq::<u32>::empty();
        assert(r.to_set() =~= s);
        assert(ascending_u32(r, s));
    } else {
        let leq = |a: u32, b: u32| a <= b;
        assert(vstd::relations::total_ordering(leq));
        s.find_unique_maximal_ensures(leq);
        let x = s.find_unique_maximal(leq);
        let t = s.remove(x);
        lemma_sorted_ids_exists(t);
        let rt = sorted_ids(t);
        let r = rt.push(x);
        assert forall|y: u32| t.contains(y) implies y < x by {
            assert(s.contains(y) && y != x);
            assert(leq(x, y) ==> leq(y, x));
        }
        assert forall|i: int, j: int| 0 <= i < j < r.len() implies r[i] < r[j] by {
            assert(rt.to_set().contains(rt[i]));
            if j < rt.len() {
                assert(r[i] == rt[i] && r[j] == rt[j]);
            }
        }
        assert forall|y: u32| r.to_set().contains(y) <==> s.contains(y) by {
            if r.to_set().contains(y) {
                let k = r.index_of(y);
                if k < rt.len() {
                    assert(rt[k] == y);
                    assert(rt.to_set().contains(y));
                }
            }
            if s.contains(y) {
                if y == x {
                    assert(r[rt.len() as int] == y);
                } else {
                    assert(rt.to_set().contains(y));
                    let k = rt.index_of(y);
                    assert(r[k] == y);
                }
            }
        }
        assert(r.to_set() =~= s);
        assert(ascending_u32(r, s));
    }
}

/// The ascending listing of a set of ports (meaningful for finite sets).
pub open spec fn sorted_ports(s: Set<u16>) -> Seq<u16> {
    choose|r: Seq<u16>| ascending_u16(r, s)
}

/// Every finite set of ports has an ascending listing.
pub proof fn lemma_sorted_ports_exists(s: Set<u16>)
    requires
        s.finite(),
    ensures
        ascending_u16(sorted_ports(s), s),
    decreases s.len(),
{
    if s.len() == 0 {
        let r = Seq::<u16>::empty();
        assert(r.to_set() =~= s);
        assert(ascending_u16(r, s));
    } else {
        let leq = |a: u16, b: u16| a <= b;
        assert(vstd::relations::total_ordering(leq));
        s.find_unique_maximal_ensures(leq);
        let x = s.find_unique_maximal(leq);
        let t = s.remove(x);
        lemma_sorted_ports_exists(t);
        let rt = sorted_ports(t);
        let r = rt.push(x);
        assert forall|y: u16| t.contains(y) implies y < x by {
            assert(s.contains(y) && y != x);
            assert(leq(x, y) ==> leq(y, x));
        }
        assert forall|i: int, j: int| 0 <= i < j < r.len() implies r[i] < r[j] by {
            assert(rt.to_set().contains(rt[i]));
            if j < rt.len() {
                assert(r[i] == rt[i] && r[j] == rt[j]);
            }
        }
        assert forall|y: u16| r.to_set().contains(y) <==> s.contains(y) by {
            if r.to_set().contains(y) {
                let k = r.index_of(y);
                if k < rt.len() {
                    assert(rt[k] == y);
                    assert(rt.to_set().contains(y));
                }
            }
            if s.contains(y) {
                if y == x {
                    assert(r[rt.len() as int] == y);
                } else {
                    assert(rt.to_set().contains(y));
                    let k = rt.index_of(y);
                    assert(r[k] == y);
                }
            }
        }
        assert(r.to_set() =~= s);
        assert(ascending_u16(r, s));
    }
}

/// Two ascending listings of the same set of ports are the same sequence.
pub proof fn lemma_ascending_u16_unique(r1: Seq<u16>, r2: Seq<u16>, s: Set<u16>)
    requires
        ascending_u16(r1, s),
        ascending_u16(r2, s),
    ensures
        r1 == r2,
    decreases r1.len(),
{
    if r1.len() == 0 {
        if r2.len() > 0 {
            assert(r2.to_set().contains(r2[0]));
            assert(!r1.to_set().contains(r2[0]));
        }
        assert(r1 =~= r2);
    } else {
        assert(r1.to_set().contains(r1[0]));
        assert(r2.to_set().contains(r1[0]));
        let k2 = r2.index_of(r1[0]);
        assert(r2.to_set().contains(r2[0]));
        assert(r1.to_set().contains(r2[0]));
        let k1 = r1.index_of(r2[0]);
        assert(r1[0] <= r1[k1]);
        assert(r2[0] <= r2[k2]);
        assert(r1[0] == r2[0]);
        let x = r1[0];
        let t1 = r1.drop_first();
        let t2 = r2.drop_first();
        assert forall|y: u16| t1.to_set().contains(y) <==> s.remove(x).contains(y) by {
            if t1.to_set().contains(y) {
                let k = t1.index_of(y);
                assert(r1[k + 1] == y);
                assert(r1.to_set().contains(y));
            }
            if s.remove(x).contains(y) {
                assert(r1.to_set().contains(y));
                let k = r1.index_of(y);
                assert(k != 0);
                assert(t1[k - 1] == y);
            }
        }
        assert forall|y: u16| t2.to_set().contains(y) <==> s.remove(x).contains(y) by {
            if t2.to_set().contains(y) {
                let k = t2.index_of(y);
                assert(r2[k + 1] == y);
                assert(r2.to_set().contains(y));
            }
            if s.remove(x).contains(y) {
                assert(r2.to_set().contains(y));
                let k = r2.index_of(y);
                assert(k != 0);
                assert(t2[k - 1] == y);
            }
        }
        assert(t1.to_set() =~= s.remove(x));
        assert(t2.to_set() =~= s.remove(x));
        lemma_ascending_u16_unique(t1, t2, s.remove(x));
        assert(r1 =~= r2) by {
            assert forall|i: int| 0 <= i < r1.len() implies r1[i] == r2[i] by {
                if i > 0 {
                    assert(r1[i] == t1[i - 1]);
                    assert(r2[i] == t2[i - 1]);
                }
            }
        }
    }
}

/// Any ascending listing of `s` is the one `sorted_ports` names.
pub proof fn lemma_sorted_ports_is(r: Seq<u16>, s: Set<u16>)
    requires
        ascending_u16(r, s),
    ensures
        sorted_ports(s) == r,
{
    let c = sorted_ports(s);
    assert(ascending_u16(c, s));
    lemma_ascending_u16_unique(c, r, s);
}

/// The keys of a `u32`-keyed map, in ascending order.
pub fn keys_u32<V>(m: &BTreeMap<u32, V>) -> (r: Vec<u32>)
    ensures
        ascending_u32(r@, m@.dom()),
        r@.len() == m@.dom().len(),
{
    broadcast use vstd::laws_cmp::group_laws_cmp;

    assert(vstd::std_specs::btree::key_obeys_cmp_spec::<u32>());
    let iter = m.iter();
    let ghost s = iter.remaining();
    let ghost ks = s.map_values(|kv: (&u32, &V)| *kv.0);
    let mut r: Vec<u32> = Vec::new();
    for kv in it: iter
        invariant
            it.seq() == s,
            ks == s.map_values(|kv: (&u32, &V)| *kv.0),
            r@ == ks.take(it.index()),
    {
        let k = kv.0;
        r.push(*k);
        assert(ks.take(it.index() + 1) =~= r@);
    }
    assert(r@ =~= ks);
    proof {
        assert forall|i: int, j: int| 0 <= i < j < r@.len() implies r@[i] < r@[j] by {
            assert(vstd::laws_cmp::obeys_cmp::<u32>());
            assert(vstd::std_specs::btree::increasing_seq(ks));
            assert(ks[i].cmp_spec(&ks[j]) is Less);
        }
        assert forall|k: u32| m@.dom().contains(k) implies r@.to_set().contains(k) by {
            assert(s.contains((&k, &m@[k])));
            let i = s.index_of((&k, &m@[k]));
            assert(r@[i] == k);
        }
        assert forall|k: u32| r@.to_set().contains(k) implies m@.dom().contains(k) by {
            let i = r@.index_of(k);
            assert(m@.contains_key(*s[i].0));
        }
        assert(r@.to_set() =~= m@.dom());
        r@.unique_seq_to_set();
    }
    r
}

/// The keys of a `u16`-keyed map, in ascending order.
pub fn keys_u16<V>(m: &BTreeMap<u16, V>) -> (r: Vec<u16>)
    ensures
        ascending_u16(r@, m@.dom()),
        r@.len() == m@.dom().len(),
{
    broadcast use vstd::laws_cmp::group_laws_cmp;

    assert(vstd::std_specs::btree::key_obeys_cmp_spec::<u16>());
    let iter = m.iter();
    let ghost s = iter.remaining();
    let ghost ks = s.map_values(|kv: (&u16, &V)| *kv.0);
    let mut r: Vec<u16> = Vec::new();
    for kv in it: iter
        invariant
            it.seq() == s,
            ks == s.map_values(|kv: (&u16, &V)| *kv.0),
            r@ == ks.take(it.index()),
    {
        let k = kv.0;
        r.push(*k);
        assert(ks.take(it.index() + 1) =~= r@);
    }
    assert(r@ =~= ks);
    proof {
        assert forall|i: int, j: int| 0 <= i < j < r@.len() implies r@[i] < r@[j] by {
            assert(vstd::laws_cmp::obeys_cmp::<u16>());
            assert(vstd::std_specs::btree::increasing_seq(ks));
            assert(ks[i].cmp_spec(&ks[j]) is Less);
        }
        assert forall|k: u16| m@.dom().contains(k) implies r@.to_set().contains(k) by {
            assert(s.contains((&k, &m@[k])));
            let i = s.index_of((&k, &m@[k]));
            assert(r@[i] == k);
        }
        assert forall|k: u16| r@.to_set().contains(k) implies m@.dom().contains(k) by {
            let i = r@.index_of(k);
            assert(m@.contains_key(*s[i].0));
        }
        assert(r@.to_set() =~= m@.dom());
        r@.unique_seq_to_set();
    }
    r
}

/// The elements of a set of `u32`, in ascending order.
pub fn elements_u32(m: &BTreeSet<u32>) -> (r: Vec<u32>)
    ensures
        ascending_u32(r@, m@),
        r@.len() == m@.len(),
{
    broadcast use vstd::laws_cmp::group_laws_cmp;

    assert(vstd::std_specs::btree::key_obeys_cmp_spec::<u32>());
    let iter = m.iter();
    let ghost s = iter.remaining();
    let ghost ks = s.map_values(|k: &u32| *k);
    assert(vstd::std_specs::btree::spec_btree_keys_iter(m).remaining() == s);
    let mut r: Vec<u32> = Vec::new();
    for k in it: iter
        invariant
            it.seq() == s,
            ks == s.map_values(|k: &u32| *k),
            r@ == ks.take(it.index()),
    {
        r.push(*k);
        assert(ks.take(it.index() + 1) =~= r@);
    }
    assert(r@ =~= ks);
    proof {
        assert(ks == s.unref());
        assert forall|i: int, j: int| 0 <= i < j < r@.len() implies r@[i] < r@[j] by {
            assert(vstd::laws_cmp::obeys_cmp::<&u32>());
            assert(vstd::std_specs::btree::increasing_seq(s));
            vstd::std_specs::btree::axiom_increasing_seq_meaning::<&u32>(s);
            assert(OrdSpec::cmp_spec(&s[i], &s[j]) is Less);
        }
        assert(r@.to_set() =~= m@);
        r@.unique_seq_to_set();
    }
    r
}

} // verus!
