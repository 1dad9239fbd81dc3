//! Acceptor ids and their ascending listings.
//!
//! Acceptor ids are `u64`. The library keeps sets of them in `BTreeMap`s and
//! `BTreeSet`s and hands them on in ascending order; `listing` is the spec of
//! that order.
use std::collections::BTreeMap;
use std::collections::BTreeSet;
use vstd::prelude::*;
use vstd::std_specs::iter::IteratorSpec;

verus! {

broadcast use vstd::std_specs::btree::group_btree_axioms;

/// Every element of `s` is smaller than the ones after it.
pub open spec fn strictly_increasing(s: Seq<u64>) -> bool {
    forall|i: int, j: int| 0 <= i < j < s.len() ==> s[i] < s[j]
}

/// `q` lists the elements of `s` in ascending order, each once.
pub open spec fn is_listing(q: Seq<u64>, s: Set<u64>) -> bool {
    strictly_increasing(q) && q.to_set() == s
}

/// The ascending listing of a finite set of ids.
pub open spec fn listing(s: Set<u64>) -> Seq<u64> {
    choose|q: Seq<u64>| is_listing(q, s)
}

/// Two ascending listings of the same set are the same sequence.
pub proof fn lemma_listing_unique(a: Seq<u64>, b: Seq<u64>)
    requires
        strictly_increasing(a),
        strictly_increasing(b),
        a.to_set() == b.to_set(),
    ensures
        a == b,
    decreases a.len(),
{
    if a.len() == 0 {
        if b.len() > 0 {
            assert(b.to_set().contains(b[0]));
            assert(a.to_set().contains(b[0]));
        }
        assert(a =~= b);
    } else {
        assert(a.to_set().contains(a[0]));
        assert(b.to_set().contains(a[0]));
        let j = choose|j: int| 0 <= j < b.len() && b[j] == a[0];
        assert(b.to_set().contains(b[0]));
        assert(a.to_set().contains(b[0]));
        let i = choose|i: int| 0 <= i < a.len() && a[i] == b[0];
        assert(a[0] <= a[i]);
        assert(b[0] <= b[j]);
        assert(a[0] == b[0]);
        let ra = a.drop_first();
        let rb = b.drop_first();
        assert forall|x: u64| ra.to_set().contains(x) implies rb.to_set().contains(x) by {
            let k = choose|k: int| 0 <= k < ra.len() && ra[k] == x;
            assert(a[k + 1] == x);
            assert(a.to_set().contains(x));
            assert(b.to_set().contains(x));
            let m = choose|m: int| 0 <= m < b.len() && b[m] == x;
            assert(m != 0);
            assert(rb[m - 1] == x);
        }
        assert forall|x: u64| rb.to_set().contains(x) implies ra.to_set().contains(x) by {
            let k = choose|k: int| 0 <= k < rb.len() && rb[k] == x;
            assert(b[k + 1] == x);
            assert(b.to_set().contains(x));
            assert(a.to_set().contains(x));
            let m = choose|m: int| 0 <= m < a.len() && a[m] == x;
            assert(m != 0);
            assert(ra[m - 1] == x);
        }
        assert(ra.to_set() =~= rb.to_set());
        lemma_listing_unique(ra, rb);
        assert(a =~= seq![a[0]] + ra);
        assert(b =~= seq![b[0]] + rb);
    }
}

/// A sequence that lists a set in ascending order is its listing.
pub proof fn lemma_is_listing(q: Seq<u64>, s: Set<u64>)
    requires
        is_listing(q, s),
    ensures
        listing(s) == q,
        q.no_duplicates(),
        q.len() == s.len(),
        s.finite(),
{
    let l = listing(s);
    assert(is_listing(l, s));
    lemma_listing_unique(l, q);
    assert(q.no_duplicates());
    q.unique_seq_to_set();
}

/// A finite non-empty set of ids has a greatest element.
pub proof fn lemma_max_exists(s: Set<u64>)
    requires
        s.finite(),
        s.len() > 0,
    ensures
        exists|m: u64| s.contains(m) && forall|y: u64| s.contains(y) ==> y <= m,
    decreases s.len(),
{
    let x = s.choose();
    if !s.contains(x) {
        assert(s =~= Set::<u64>::empty());
        assert(false);
    }
    let r = s.remove(x);
    if r.len() == 0 {
        r.lemma_len0_is_empty();
        assert forall|y: u64| s.contains(y) implies y <= x by {
            if y != x {
                assert(r.contains(y));
            }
        }
    } else {
        lemma_max_exists(r);
        let m = choose|m: u64| r.contains(m) && forall|y: u64| r.contains(y) ==> y <= m;
        if x > m {
            assert forall|y: u64| s.contains(y) implies y <= x by {
                if y != x {
                    assert(r.contains(y));
                }
            }
        } else {
            assert forall|y: u64| s.contains(y) implies y <= m by {
                if y != x {
                    assert(r.contains(y));
                }
            }
        }
    }
}

/// A finite set of ids has an ascending listing.
pub proof fn lemma_listing_exists(s: Set<u64>)
    requires
        s.finite(),
    ensures
        is_listing(listing(s), s),
    decreases s.len(),
{
    if s.len() == 0 {
        s.lemma_len0_is_empty();
        assert(Seq::<u64>::empty().to_set() =~= s);
        assert(is_listing(Seq::<u64>::empty(), s));
    } else {
        lemma_max_exists(s);
        let m = choose|m: u64| s.contains(m) && forall|y: u64| s.contains(y) ==> y <= m;
        let r = s.remove(m);
        lemma_listing_exists(r);
        let l = listing(r);
        let q = l.push(m);
        assert forall|i: int, j: int| 0 <= i < j < q.len() implies q[i] < q[j] by {
            if j == q.len() - 1 {
                assert(l.to_set().contains(l[i]));
                assert(r.contains(q[i]));
            }
        }
        l.lemma_push_to_set_commute(m);
        assert(q.to_set() =~= s);
        assert(is_listing(q, s));
    }
}

/// The ids of a map in ascending order.
pub fn keys_of<V>(m: &BTreeMap<u64, V>) -> (ids: Vec<u64>)
    ensures
        ids@ == listing(m@.dom()),
        is_listing(ids@, m@.dom()),
        ids@.no_duplicates(),
        ids@.len() == m@.dom().len(),
{
    let mut ids: Vec<u64> = Vec::new();
    let ghost keys = m.keys().remaining();
    proof {
        crate::order::lemma_ascending_refs(keys);
    }
    for k in it: m.keys()
        invariant
            ids@ == it.seq().unref().take(it.index() as int),
            keys == it.seq(),
    {
        ids.push(*k);
    }
    assert(ids@ == keys.unref());
    proof {
        assert forall|x: u64| ids@.to_set().contains(x) <==> m@.dom().contains(x) by {
            if m@.dom().contains(x) {
                assert(keys.unref().to_set().contains(x));
            }
            if ids@.to_set().contains(x) {
                assert(keys.unref().to_set().contains(x));
            }
        }
        assert(ids@.to_set() =~= m@.dom());
        lemma_is_listing(ids@, m@.dom());
    }
    ids
}

/// The ids of a set in ascending order.
pub fn elements_of(s: &BTreeSet<u64>) -> (ids: Vec<u64>)
    ensures
        ids@ == listing(s@),
        is_listing(ids@, s@),
        ids@.no_duplicates(),
        s@.finite(),
        ids@.len() == s@.len(),
{
    let mut ids: Vec<u64> = Vec::new();
    let ghost elems = s.iter().remaining();
    proof {
        crate::order::lemma_ascending_refs(elems);
    }
    for k in it: s.iter()
        invariant
            ids@ == it.seq().unref().take(it.index() as int),
            elems == it.seq(),
    {
        ids.push(*k);
    }
    assert(ids@ == elems.unref());
    proof {
        assert forall|x: u64| ids@.to_set().contains(x) <==> s@.contains(x) by {
            if s@.contains(x) {
                assert(elems.unref().to_set().contains(x));
            }
            if ids@.to_set().contains(x) {
                assert(elems.unref().to_set().contains(x));
            }
        }
        assert(ids@.to_set() =~= s@);
        lemma_is_listing(ids@, s@);
    }
    ids
}

} // verus!
