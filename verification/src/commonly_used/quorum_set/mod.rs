//! Quorum sets.
use std::collections::BTreeSet;
use vstd::prelude::*;

pub mod all;
pub mod majority;

verus! {

broadcast use {vstd::std_specs::btree::group_btree_axioms, vstd::seq_lib::seq_to_set_is_finite};

/// The distinct ids of `ids` that are members of `members`.
pub fn members_in(ids: &Vec<u64>, members: &BTreeSet<u64>) -> (s: BTreeSet<u64>)
    ensures
        s@ == ids@.to_set().intersect(members@),
        s@.finite(),
{
    let mut s: BTreeSet<u64> = BTreeSet::new();
    for i in 0..ids.len()
        invariant
            s@ == ids@.take(i as int).to_set().intersect(members@),
    {
        proof {
            crate::order::lemma_ids_ordered();
        }
        if members.contains(&ids[i]) {
            s.insert(ids[i]);
        }
        assert(ids@.take(i + 1) == ids@.take(i as int).push(ids@[i as int]));
        proof {
            ids@.take(i as int).lemma_push_to_set_commute(ids@[i as int]);
        }
        assert(s@ =~= ids@.take(i + 1).to_set().intersect(members@));
    }
    assert(ids@.take(ids.len() as int) == ids@);
    s
}

} // verus!
