//! Rebuilding a mirrored value from the copies that acceptors accepted.
use crate::apaxos::greater_equal::GreaterEqual;
use crate::Types;
use crate::Value;
use std::marker::PhantomData;
use vstd::prelude::*;

verus! {

/// A copy of a value, as accepted at time `v_time`.
pub struct AcceptedValue<T: Types> {
    pub v_time: T::Time,
    pub value: T::Value,
}

/// `a` is strictly later than `b`: `a` overrules `b` and `b` does not
/// overrule `a`.
pub open spec fn later<Tm: GreaterEqual>(a: Tm, b: Tm) -> bool {
    a.ge_spec(&b) && !b.ge_spec(&a)
}

/// The index of the first of the latest copies among the first `n`.
pub open spec fn latest_index<T: Types>(vs: Seq<(u64, AcceptedValue<T>)>, n: int) -> Option<int>
    decreases n,
{
    if n <= 0 {
        None
    } else {
        match latest_index(vs, n - 1) {
            None => Some(n - 1),
            Some(i) => if later(vs[n - 1].1.v_time, vs[i].1.v_time) {
                Some(n - 1)
            } else {
                Some(i)
            },
        }
    }
}

/// With ballot numbers as accept times, the copy picked among the first
/// `n` is the first of the latest: no copy is later than it, every copy
/// before it is earlier, and there is one exactly when `n > 0`.
pub proof fn lemma_mirror_takes_latest<T: Types<Time = u64>>(
    vs: Seq<(u64, AcceptedValue<T>)>,
    n: int,
)
    requires
        0 <= n <= vs.len(),
    ensures
        latest_index(vs, n) is None <==> n == 0,
        latest_index(vs, n) matches Some(i) ==> {
            &&& 0 <= i < n
            &&& forall|j: int| 0 <= j < n ==> vs[j].1.v_time <= vs[i].1.v_time
            &&& forall|j: int| 0 <= j < i ==> vs[j].1.v_time < vs[i].1.v_time
        },
    decreases n,
{
    if n > 0 {
        lemma_mirror_takes_latest(vs, n - 1);
    }
}

/// Rebuild a **maybe committed** value from mirrored copies: the copy with
/// the latest accept time wins.
pub struct Mirror<T: Types> {
    pub _p: PhantomData<T>,
}

impl<T: Types> Mirror<T> {
    pub fn new() -> Self {
        Mirror { _p: PhantomData }
    }

    /// The value of the first copy whose accept time is later than that of
    /// every copy before it and not earlier than any after it; `None` when
    /// there is no copy.
    pub fn rebuild(&self, vs: &Vec<(u64, AcceptedValue<T>)>) -> (v: Option<T::Value>)
        ensures
            v.deep_view() == match latest_index(vs@, vs@.len() as int) {
                None => None,
                Some(i) => Some(vs@[i].1.value.deep_view()),
            },
    {
        let mut best: Option<usize> = None;
        for n in 0..vs.len()
            invariant
                (n == 0) == (best is None),
                best matches Some(b) ==> b < n && latest_index(vs@, n as int) == Some(b as int),
        {
            match best {
                None => {
                    best = Some(n);
                },
                Some(i) => {
                    let newer = vs[n].1.v_time.greater_equal(&vs[i].1.v_time);
                    let older = vs[i].1.v_time.greater_equal(&vs[n].1.v_time);
                    if newer && !older {
                        best = Some(n);
                    }
                },
            }
        }
        match best {
            None => None,
            Some(i) => Some(vs[i].1.value.clone_value()),
        }
    }
}

} // verus!
