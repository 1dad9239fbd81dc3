//! Distributing a value over acceptors, and rebuilding it from their parts.
use crate::ids::elements_of;
use crate::lemma_id_map_deep_view;
use crate::parts_view;
use crate::values_view;
use crate::Distribute;
use crate::Types;
use crate::Value;
use std::collections::BTreeMap;
use std::collections::BTreeSet;
use std::marker::PhantomData;
use vstd::prelude::*;

verus! {

broadcast use {vstd::std_specs::btree::group_btree_axioms, vstd::seq_lib::seq_to_set_is_finite};

/// The parts `parts` tagged with the ids of the acceptors they go to, pair by
/// pair, as far as both sequences reach.
pub open spec fn tag_parts<V>(ids: Seq<u64>, parts: Seq<V>) -> Seq<(u64, V)> {
    Seq::new(
        if ids.len() <= parts.len() {
            ids.len()
        } else {
            parts.len()
        },
        |i: int| (ids[i], parts[i]),
    )
}

/// Distribute a proposal by mirror copying and rebuild a **maybe committed**
/// proposal from accepted, mirror copied proposals.
///
/// In such a scenario, every acceptor stores a copy of the proposal data.
/// E.g.:
/// ```text
/// | p | v  v  v  v
/// ----|------------
/// | a | a1 a2 a3 a4
/// ```
pub struct Mirrored<T: Types> {
    pub _p: PhantomData<T>,
}

impl<T: Types> Mirrored<T> {
    pub fn new() -> Self {
        Mirrored { _p: PhantomData }
    }
}

impl<V: Value, T: Types<Value = V, Part = V>> Distribute<T> for Mirrored<T> {
    open spec fn can_distribute_spec(&self, value: V::V, ids: Seq<u64>) -> bool {
        true
    }

    /// Every acceptor gets a copy of the value.
    open spec fn distribute_spec(&self, value: V::V, ids: Seq<u64>) -> Seq<V::V> {
        Seq::new(ids.len(), |i: int| value)
    }

    /// The first part is the value.
    open spec fn rebuild_spec(&self, parts: Seq<(u64, V::V)>) -> Option<V::V> {
        if parts.len() == 0 {
            None
        } else {
            Some(parts[0].1)
        }
    }

    fn can_distribute(&self, value: &V, acceptor_ids: &Vec<u64>) -> (ok: bool) {
        true
    }

    fn distribute(&self, value: V, acceptor_ids: &Vec<u64>) -> (parts: Vec<V>) {
        let mut parts: Vec<V> = Vec::new();
        for i in 0..acceptor_ids.len()
            invariant
                values_view(parts@) == Seq::new(i as nat, |j: int| value.deep_view()),
        {
            let copy = value.clone_value();
            let ghost before = parts@;
            parts.push(copy);
            assert(parts@ == before.push(copy));
            assert(values_view(before.push(copy)) =~= values_view(before).push(copy.deep_view()));
            assert(values_view(parts@) =~= Seq::new((i + 1) as nat, |j: int| value.deep_view()));
        }
        assert(values_view(parts@) =~= self.distribute_spec(value.deep_view(), acceptor_ids@));
        parts
    }

    fn rebuild(&self, parts: &Vec<(u64, V)>) -> (value: Option<V>) {
        if parts.len() == 0 {
            None
        } else {
            Some(parts[0].1.clone_value())
        }
    }
}

/// Mirrored values are rebuilt from what was distributed: the parts that a
/// non-empty set of acceptors received give back the value.
pub proof fn lemma_mirrored_round_trip<V: Value, T: Types<Value = V, Part = V>>(
    d: &Mirrored<T>,
    value: V::V,
    ids: Seq<u64>,
)
    requires
        ids.len() > 0,
    ensures
        d.rebuild_spec(tag_parts(ids, d.distribute_spec(value, ids))) == Some(value),
{
}

/// Mirrored values are rebuilt from the parts of any non-empty set of
/// acceptors that received them: all parts agree.
pub proof fn lemma_mirrored_any_parts<V: Value, T: Types<Value = V, Part = V>>(
    d: &Mirrored<T>,
    value: V::V,
    ids: Seq<u64>,
    picked: Seq<int>,
)
    requires
        picked.len() > 0,
        forall|k: int| 0 <= k < picked.len() ==> 0 <= #[trigger] picked[k] < ids.len(),
    ensures
        d.rebuild_spec(
            Seq::new(
                picked.len(),
                |k: int| (ids[picked[k]], d.distribute_spec(value, ids)[picked[k]]),
            ),
        ) == Some(value),
{
}

/// The map built from id-tagged parts; a later part for the same id wins.
pub open spec fn collect_parts<V>(parts: Seq<(u64, V)>) -> Map<u64, V>
    decreases parts.len(),
{
    if parts.len() == 0 {
        Map::empty()
    } else {
        collect_parts(parts.drop_last()).insert(parts.last().0, parts.last().1)
    }
}

/// Distribute a proposal value by splitting into parts, and rebuild a **maybe
/// committed** proposal using partitioned acceptor states.
///
/// In this situation, every acceptor holds a unique portion of the proposal
/// data, requiring a Reader to access all acceptors to retrieve the proposal
/// data. This is commonly seen in the 2PC (Two-Phase Commit) protocol.
pub struct Partitioned<T: Types> {
    pub acceptor_ids: BTreeSet<u64>,
    pub _p: PhantomData<T>,
}

impl<T: Types> Partitioned<T> {
    pub fn new(acceptor_ids: Vec<u64>) -> (p: Self)
        ensures
            p.acceptor_ids@ == acceptor_ids@.to_set(),
    {
        Partitioned {
            acceptor_ids: crate::commonly_used::quorum_set::all::set_of(&acceptor_ids),
            _p: PhantomData,
        }
    }
}

impl<P: Value + Clone, T: Types<Value = BTreeMap<u64, P>, Part = P>> Distribute<T> for Partitioned<
    T,
> {
    /// Every acceptor must have its part in the value.
    open spec fn can_distribute_spec(&self, value: Map<u64, P::V>, ids: Seq<u64>) -> bool {
        forall|i: int| 0 <= i < ids.len() ==> value.contains_key(#[trigger] ids[i])
    }

    /// Every acceptor gets the entry of the value under its id.
    open spec fn distribute_spec(&self, value: Map<u64, P::V>, ids: Seq<u64>) -> Seq<P::V> {
        Seq::new(ids.len(), |i: int| value[ids[i]])
    }

    /// The parts rebuild the value when they come from exactly the acceptors
    /// of the partition.
    open spec fn rebuild_spec(&self, parts: Seq<(u64, P::V)>) -> Option<Map<u64, P::V>> {
        if collect_parts(parts).dom() == self.acceptor_ids@ {
            Some(collect_parts(parts))
        } else {
            None
        }
    }

    /// Every acceptor among `acceptor_ids` has an entry in the value;
    /// entries under other ids do not matter.
    fn can_distribute(&self, value: &BTreeMap<u64, P>, acceptor_ids: &Vec<u64>) -> (ok: bool)
        ensures
            ok == (forall|x: u64| acceptor_ids@.contains(x) ==> value@.contains_key(x)),
    {
        proof {
            lemma_id_map_deep_view(*value);
            lemma_partitioned_can_distribute(self, value.deep_view(), acceptor_ids@);
            assert(value.deep_view().dom() =~= value@.dom());
        }
        for i in 0..acceptor_ids.len()
            invariant
                forall|j: int| 0 <= j < i ==> value@.contains_key(#[trigger] acceptor_ids@[j]),
        {
            proof {
                crate::order::lemma_ids_ordered();
            }
            if !value.contains_key(&acceptor_ids[i]) {
                assert(acceptor_ids@.contains(acceptor_ids@[i as int]));
                return false;
            }
        }
        assert forall|x: u64| acceptor_ids@.contains(x) implies value@.contains_key(x) by {
            let j = choose|j: int| 0 <= j < acceptor_ids@.len() && acceptor_ids@[j] == x;
            assert(value@.contains_key(acceptor_ids@[j]));
        }
        true
    }

    fn distribute(&self, value: BTreeMap<u64, P>, acceptor_ids: &Vec<u64>) -> (parts: Vec<P>) {
        proof {
            lemma_id_map_deep_view(value);
        }
        let mut parts: Vec<P> = Vec::new();
        for i in 0..acceptor_ids.len()
            invariant
                values_view(parts@) =~= Seq::new(
                    i as nat,
                    |j: int| value.deep_view()[acceptor_ids@[j]],
                ),
                forall|j: int|
                    0 <= j < acceptor_ids.len() ==> value@.contains_key(#[trigger] acceptor_ids@[j]),
                value.deep_view() == value@.map_values(|p: P| p.deep_view()),
        {
            proof {
                crate::order::lemma_ids_ordered();
            }
            let part = value.get(&acceptor_ids[i]).unwrap().clone_value();
            let ghost before = parts@;
            parts.push(part);
            assert(parts@ == before.push(part));
            assert(values_view(before.push(part)) =~= values_view(before).push(part.deep_view()));
            assert(value.deep_view()[acceptor_ids@[i as int]] == value@[acceptor_ids@[i as int]].deep_view());
        }
        parts
    }

    fn rebuild(&self, parts: &Vec<(u64, P)>) -> (value: Option<BTreeMap<u64, P>>) {
        let mut m: BTreeMap<u64, P> = BTreeMap::new();
        let ghost pv = parts_view(parts@);
        for i in 0..parts.len()
            invariant
                pv == parts_view(parts@),
                m@.map_values(|p: P| p.deep_view()) =~= collect_parts(pv.take(i as int)),
        {
            proof {
                crate::order::lemma_ids_ordered();
            }
            let part = parts[i].1.clone_value();
            m.insert(parts[i].0, part);
            assert(pv.take(i + 1).drop_last() == pv.take(i as int));
        }
        assert(pv.take(parts.len() as int) == pv);
        proof {
            lemma_id_map_deep_view(m);
        }
        let ghost collected = collect_parts(pv);
        assert(m@.dom() =~= collected.dom());
        assert(m.deep_view() == collected);
        let ids = elements_of(&self.acceptor_ids);
        if m.len() != ids.len() {
            return None;
        }
        for i in 0..ids.len()
            invariant
                forall|j: int| 0 <= j < i ==> m@.contains_key(#[trigger] ids@[j]),
                crate::ids::is_listing(ids@, self.acceptor_ids@),
                m@.dom() == collected.dom(),
                collected == collect_parts(parts_view(parts@)),
        {
            proof {
                crate::order::lemma_ids_ordered();
            }
            if !m.contains_key(&ids[i]) {
                proof {
                    assert(ids@.to_set().contains(ids@[i as int]));
                }
                return None;
            }
        }
        proof {
            let s = self.acceptor_ids@;
            assert forall|x: u64| s.contains(x) implies m@.dom().contains(x) by {
                assert(ids@.to_set().contains(x));
            }
            vstd::set_lib::lemma_subset_equality(s, m@.dom());
        }
        Some(m)
    }
}

/// A partitioned value is rebuilt from what was distributed: when the value
/// has one entry per acceptor of the partition, the parts that all these
/// acceptors received give it back.
pub proof fn lemma_partitioned_round_trip<P: Value + Clone, T: Types<
    Value = BTreeMap<u64, P>,
    Part = P,
>>(d: &Partitioned<T>, value: Map<u64, P::V>, ids: Seq<u64>)
    requires
        ids.no_duplicates(),
        ids.to_set() == value.dom(),
        value.dom() == d.acceptor_ids@,
    ensures
        d.can_distribute_spec(value, ids),
        d.rebuild_spec(tag_parts(ids, d.distribute_spec(value, ids))) == Some(value),
{
    let parts = tag_parts(ids, d.distribute_spec(value, ids));
    assert forall|i: int| 0 <= i < ids.len() implies value.contains_key(#[trigger] ids[i]) by {
        assert(ids.to_set().contains(ids[i]));
    }
    lemma_collect_prefix(value, ids, ids.len() as int);
    assert(parts == Seq::new(ids.len(), |i: int| (ids[i], value[ids[i]])));
    assert(ids.take(ids.len() as int) == ids);
    assert(value.restrict(ids.to_set()) =~= value);
    assert(parts =~= Seq::new(ids.len(), |i: int| (ids[i], value[ids[i]])).take(ids.len() as int));
}

/// Collecting the first `k` parts gives the value restricted to the first
/// `k` ids.
proof fn lemma_collect_prefix<V>(value: Map<u64, V>, ids: Seq<u64>, k: int)
    requires
        0 <= k <= ids.len(),
        forall|i: int| 0 <= i < ids.len() ==> value.contains_key(#[trigger] ids[i]),
    ensures
        collect_parts(Seq::new(ids.len(), |i: int| (ids[i], value[ids[i]])).take(k))
            =~= value.restrict(ids.take(k).to_set()),
    decreases k,
{
    let all = Seq::new(ids.len(), |i: int| (ids[i], value[ids[i]]));
    if k == 0 {
        assert(all.take(0) =~= Seq::<(u64, V)>::empty());
        assert(ids.take(0).to_set() =~= Set::<u64>::empty());
    } else {
        lemma_collect_prefix(value, ids, k - 1);
        assert(all.take(k).drop_last() =~= all.take(k - 1));
        assert(ids.take(k) =~= ids.take(k - 1).push(ids[k - 1]));
        ids.take(k - 1).lemma_push_to_set_commute(ids[k - 1]);
    }
}

/// The ids under which collected parts are kept are those the parts came
/// from.
pub proof fn lemma_collect_parts_dom<V>(parts: Seq<(u64, V)>)
    ensures
        forall|x: u64|
            collect_parts(parts).contains_key(x) <==> exists|i: int|
                0 <= i < parts.len() && (#[trigger] parts[i]).0 == x,
    decreases parts.len(),
{
    if parts.len() > 0 {
        let init = parts.drop_last();
        lemma_collect_parts_dom(init);
        assert(collect_parts(parts) == collect_parts(init).insert(parts.last().0, parts.last().1));
        assert(parts.last() == parts[parts.len() - 1]);
        assert forall|x: u64| collect_parts(parts).contains_key(x) <==> exists|i: int|
            0 <= i < parts.len() && (#[trigger] parts[i]).0 == x by {
            if collect_parts(parts).contains_key(x) {
                if x == parts.last().0 {
                    assert(parts[parts.len() - 1].0 == x);
                } else {
                    assert(collect_parts(init).contains_key(x));
                    let i = choose|i: int| 0 <= i < init.len() && (#[trigger] init[i]).0 == x;
                    assert(parts[i] == init[i]);
                }
            }
            if exists|i: int| 0 <= i < parts.len() && (#[trigger] parts[i]).0 == x {
                let i = choose|i: int| 0 <= i < parts.len() && (#[trigger] parts[i]).0 == x;
                if i < parts.len() - 1 {
                    assert(init[i] == parts[i]);
                    assert(collect_parts(init).contains_key(x));
                }
            }
        }
    }
}

/// A partitioned value is rebuilt exactly when the parts come from every
/// acceptor of the partition and from no other: a missing part, or a part
/// from outside the partition, rebuilds nothing.
pub proof fn lemma_partitioned_needs_exactly_its_parts<
    P: Value + Clone,
    T: Types<Value = BTreeMap<u64, P>, Part = P>,
>(d: &Partitioned<T>, parts: Seq<(u64, P::V)>)
    ensures
        d.rebuild_spec(parts) is Some <==> (forall|x: u64|
            d.acceptor_ids@.contains(x) <==> exists|i: int|
                0 <= i < parts.len() && (#[trigger] parts[i]).0 == x),
        d.rebuild_spec(parts) matches Some(v) ==> forall|i: int|
            0 <= i < parts.len() ==> v.contains_key((#[trigger] parts[i]).0),
{
    lemma_collect_parts_dom(parts);
    let dom = collect_parts(parts).dom();
    if forall|x: u64| d.acceptor_ids@.contains(x) <==> exists|i: int|
        0 <= i < parts.len() && (#[trigger] parts[i]).0 == x {
        assert(dom =~= d.acceptor_ids@);
    }
    if d.rebuild_spec(parts) is Some {
        assert forall|i: int| 0 <= i < parts.len() implies collect_parts(parts).contains_key(
            (#[trigger] parts[i]).0,
        ) by {}
    }
}

/// A value can be split over some acceptors exactly when each of them has
/// an entry in it, whatever other entries it has.
pub proof fn lemma_partitioned_can_distribute<
    P: Value + Clone,
    T: Types<Value = BTreeMap<u64, P>, Part = P>,
>(d: &Partitioned<T>, value: Map<u64, P::V>, ids: Seq<u64>)
    ensures
        d.can_distribute_spec(value, ids) == ids.to_set().subset_of(value.dom()),
        d.can_distribute_spec(value, ids) == (forall|x: u64| ids.contains(x) ==> value.contains_key(x)),
{
    if d.can_distribute_spec(value, ids) {
        assert forall|x: u64| ids.contains(x) implies value.contains_key(x) by {
            let i = choose|i: int| 0 <= i < ids.len() && ids[i] == x;
            assert(value.contains_key(ids[i]));
        }
    }
    if forall|x: u64| ids.contains(x) ==> value.contains_key(x) {
        assert forall|i: int| 0 <= i < ids.len() implies value.contains_key(#[trigger] ids[i]) by {
            assert(ids.contains(ids[i]));
        }
    }
    assert(ids.to_set().subset_of(value.dom()) == (forall|x: u64| ids.contains(x) ==> value.contains_key(x)));
}

} // verus!
