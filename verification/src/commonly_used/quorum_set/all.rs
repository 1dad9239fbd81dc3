//! The quorum of all acceptors.
use crate::ids::elements_of;
use crate::QuorumSet;
use crate::Types;
use std::collections::BTreeSet;
use std::marker::PhantomData;
use vstd::prelude::*;

verus! {

broadcast use {vstd::std_specs::btree::group_btree_axioms, vstd::seq_lib::seq_to_set_is_finite};

/// The set of the ids in `ids`.
pub fn set_of(ids: &Vec<u64>) -> (s: BTreeSet<u64>)
    ensures
        s@ == ids@.to_set(),
{
    let mut s: BTreeSet<u64> = BTreeSet::new();
    for i in 0..ids.len()
        invariant
            s@ == ids@.take(i as int).to_set(),
    {
        proof {
            crate::order::lemma_ids_ordered();
        }
        s.insert(ids[i]);
        assert(ids@.take(i + 1) == ids@.take(i as int).push(ids@[i as int]));
        proof {
            ids@.take(i as int).lemma_push_to_set_commute(ids@[i as int]);
        }
        assert(s@ =~= ids@.take(i + 1).to_set());
    }
    assert(ids@.take(ids.len() as int) == ids@);
    s
}

/// All requires all acceptors to form a **quorum**.
pub struct All<T: Types> {
    pub acceptor_ids: BTreeSet<u64>,
    pub _p: PhantomData<T>,
}

impl<T: Types> All<T> {
    pub fn new(acceptor_ids: Vec<u64>) -> (a: Self)
        ensures
            a.acceptor_ids@ == acceptor_ids@.to_set(),
            a.acceptor_ids@.finite(),
    {
        All { acceptor_ids: set_of(&acceptor_ids), _p: PhantomData }
    }
}

impl<T: Types> QuorumSet<T> for All<T> {
    open spec fn read_quorum_spec(&self, ids: Seq<u64>) -> bool {
        self.acceptor_ids@.subset_of(ids.to_set())
    }

    open spec fn write_quorum_spec(&self, ids: Seq<u64>) -> bool {
        self.read_quorum_spec(ids)
    }

    /// Every acceptor of the cluster is among `acceptor_ids`.
    fn is_read_quorum(&self, acceptor_ids: &Vec<u64>) -> (q: bool)
        ensures
            q == (forall|x: u64| self.acceptor_ids@.contains(x) ==> acceptor_ids@.contains(x)),
    {
        proof {
            lemma_all_quorum_covers(self, acceptor_ids@);
        }
        let present = set_of(acceptor_ids);
        let members = elements_of(&self.acceptor_ids);
        for i in 0..members.len()
            invariant
                present@ == acceptor_ids@.to_set(),
                members@.to_set() == self.acceptor_ids@,
                forall|j: int| 0 <= j < i ==> present@.contains(#[trigger] members@[j]),
        {
            proof {
                crate::order::lemma_ids_ordered();
            }
            if !present.contains(&members[i]) {
                assert(members@.to_set().contains(members@[i as int]));
                return false;
            }
        }
        assert forall|x: u64| self.acceptor_ids@.contains(x) implies acceptor_ids@.to_set().contains(
            x,
        ) by {
            assert(members@.to_set().contains(x));
            let j = choose|j: int| 0 <= j < members@.len() && members@[j] == x;
            assert(present@.contains(members@[j]));
        }
        true
    }

    /// As for reading: every acceptor of the cluster.
    fn is_write_quorum(&self, acceptor_ids: &Vec<u64>) -> (q: bool)
        ensures
            q == (forall|x: u64| self.acceptor_ids@.contains(x) ==> acceptor_ids@.contains(x)),
    {
        proof {
            lemma_all_quorum_covers(self, acceptor_ids@);
        }
        self.is_read_quorum(acceptor_ids)
    }
}

/// A set of acceptors is a quorum of `All`, for reading and for writing,
/// exactly when it holds every acceptor of the cluster.
pub proof fn lemma_all_quorum_covers<T: Types>(q: &All<T>, a: Seq<u64>)
    ensures
        q.read_quorum_spec(a) ==> q.acceptor_ids@.subset_of(a.to_set()),
        q.read_quorum_spec(a) == (forall|x: u64| q.acceptor_ids@.contains(x) ==> a.contains(x)),
        q.write_quorum_spec(a) == (forall|x: u64| q.acceptor_ids@.contains(x) ==> a.contains(x)),
{
    assert(q.read_quorum_spec(a) == (forall|x: u64| q.acceptor_ids@.contains(x) ==> a.contains(x))) by {
        assert forall|x: u64| a.to_set().contains(x) == a.contains(x) by {}
    }
}

/// There is no difference between a read quorum and a write quorum.
pub proof fn lemma_all_read_is_write<T: Types>(q: &All<T>, ids: Seq<u64>)
    ensures
        q.read_quorum_spec(ids) == q.write_quorum_spec(ids),
{
}

} // verus!
