//! Majority quorums.
use crate::commonly_used::quorum_set::members_in;
use crate::QuorumSet;
use crate::Types;
use std::collections::BTreeSet;
use std::marker::PhantomData;
use vstd::prelude::*;

verus! {

broadcast use {vstd::std_specs::btree::group_btree_axioms, vstd::seq_lib::seq_to_set_is_finite};

/// Majority is the most simple **quorum** definition.
///
/// Any set of acceptors that has more than half of the whole set is a quorum.
/// So that every majority quorum intersect with each other.
/// And there is no differences between a read-quorum and a write-quorum.
pub struct Majority<T: Types> {
    pub acceptor_ids: BTreeSet<u64>,
    pub _p: PhantomData<T>,
}

impl<T: Types> Majority<T> {
    pub fn new(acceptor_ids: Vec<u64>) -> (m: Self)
        ensures
            m.acceptor_ids@ == acceptor_ids@.to_set(),
            m.acceptor_ids@.finite(),
    {
        Majority { acceptor_ids: crate::commonly_used::quorum_set::all::set_of(&acceptor_ids), _p: PhantomData }
    }
}

impl<T: Types> QuorumSet<T> for Majority<T> {
    open spec fn read_quorum_spec(&self, ids: Seq<u64>) -> bool {
        ids.to_set().intersect(self.acceptor_ids@).len() > self.acceptor_ids@.len() / 2
    }

    open spec fn write_quorum_spec(&self, ids: Seq<u64>) -> bool {
        self.read_quorum_spec(ids)
    }

    /// More than half of the cluster's acceptors, each counted once, are
    /// among `acceptor_ids`.
    fn is_read_quorum(&self, acceptor_ids: &Vec<u64>) -> (q: bool)
        ensures
            q == (2 * acceptor_ids@.to_set().intersect(self.acceptor_ids@).len()
                > self.acceptor_ids@.len()),
    {
        let present = members_in(acceptor_ids, &self.acceptor_ids);
        proof {
            lemma_majority_is_more_than_half(self, acceptor_ids@);
        }
        present.len() > self.acceptor_ids.len() / 2
    }

    /// As for reading: more than half of the cluster's acceptors.
    fn is_write_quorum(&self, acceptor_ids: &Vec<u64>) -> (q: bool)
        ensures
            q == (2 * acceptor_ids@.to_set().intersect(self.acceptor_ids@).len()
                > self.acceptor_ids@.len()),
    {
        self.is_read_quorum(acceptor_ids)
    }
}

/// A set of acceptors is a quorum, for reading and for writing, exactly
/// when it holds more than half of the cluster's acceptors, each counted
/// once: any majority of the cluster is a quorum, and nothing less is.
pub proof fn lemma_majority_is_more_than_half<T: Types>(m: &Majority<T>, ids: Seq<u64>)
    ensures
        m.read_quorum_spec(ids) == (2 * ids.to_set().intersect(m.acceptor_ids@).len()
            > m.acceptor_ids@.len()),
        m.write_quorum_spec(ids) == (2 * ids.to_set().intersect(m.acceptor_ids@).len()
            > m.acceptor_ids@.len()),
{
}

/// Every read quorum of a majority shares an acceptor of the cluster with
/// every write quorum (and with every other read quorum): a phase-1 quorum
/// always hears from an acceptor of any phase-2 quorum.
pub proof fn lemma_majority_quorums_intersect<T: Types>(m: &Majority<T>, a: Seq<u64>, b: Seq<u64>)
    requires
        m.acceptor_ids@.finite(),
        m.read_quorum_spec(a),
        m.write_quorum_spec(b),
    ensures
        exists|x: u64| a.contains(x) && b.contains(x) && m.acceptor_ids@.contains(x),
{
    let s = m.acceptor_ids@;
    let sa = a.to_set().intersect(s);
    let sb = b.to_set().intersect(s);
    assert(s.finite());
    vstd::set_lib::lemma_set_intersect_union_lens(sa, sb);
    assert(sa.union(sb).subset_of(s));
    vstd::set_lib::lemma_len_subset(sa.union(sb), s);
    let both = sa.intersect(sb);
    assert(both.len() > 0);
    assert(both.finite());
    let x = both.choose();
    assert(both.contains(x)) by {
        if !both.contains(x) {
            both.lemma_len0_is_empty();
            assert(false);
        }
    }
    assert(a.contains(x) && b.contains(x) && s.contains(x));
}

/// Adding acceptors to a majority quorum keeps it a quorum.
pub proof fn lemma_majority_quorum_grows<T: Types>(m: &Majority<T>, a: Set<u64>, b: Set<u64>)
    requires
        a.subset_of(b),
        b.finite(),
        m.write_quorum_spec(crate::ids::listing(a)),
    ensures
        m.write_quorum_spec(crate::ids::listing(b)),
{
    let s = m.acceptor_ids@;
    vstd::set_lib::lemma_set_subset_finite(b, a);
    crate::ids::lemma_listing_exists(a);
    crate::ids::lemma_listing_exists(b);
    let la = crate::ids::listing(a);
    let lb = crate::ids::listing(b);
    crate::ids::lemma_is_listing(la, a);
    crate::ids::lemma_is_listing(lb, b);
    assert(la.to_set().intersect(s).subset_of(lb.to_set().intersect(s)));
    vstd::set_lib::lemma_len_subset(la.to_set().intersect(s), lb.to_set().intersect(s));
}

/// There is no difference between a read quorum and a write quorum.
pub proof fn lemma_majority_read_is_write<T: Types>(m: &Majority<T>, ids: Seq<u64>)
    ensures
        m.read_quorum_spec(ids) == m.write_quorum_spec(ids),
{
}

} // verus!
