//! The positive-negative counter: a signed counter built from two tallies.

use crate::common::{sum_counts, ReplicaId};
use crate::gcounter::{Convergent, GCounter};
use vstd::prelude::*;

verus! {

/// A signed counter: increments land in `pos`, decrements in `neg`, and
/// the value is the difference of the two sums.  Neither half ever
/// decreases.
#[derive(Debug, PartialEq, Eq)]
pub struct PNCounter {
    pos: GCounter,
    neg: GCounter,
}

impl View for PNCounter {
    type V = (Map<ReplicaId, u64>, Map<ReplicaId, u64>);

    closed spec fn view(&self) -> (Map<ReplicaId, u64>, Map<ReplicaId, u64>) {
        (self.pos@, self.neg@)
    }
}

impl Clone for PNCounter {
    /// A deep copy with the same model.
    fn clone(&self) -> (res: Self)
        ensures
            res@ == self@,
            res.inv() == self.inv(),
    {
        PNCounter { pos: self.pos.clone(), neg: self.neg.clone() }
    }
}

impl PNCounter {
    pub closed spec fn inv(&self) -> bool {
        self.pos.inv() && self.neg.inv()
    }

    pub proof fn lemma_inv_ok(&self)
        requires
            self.inv(),
        ensures
            crate::common::counts_ok(self@.0),
            crate::common::counts_ok(self@.1),
    {
        self.pos.lemma_inv_ok();
        self.neg.lemma_inv_ok();
    }

    pub fn new() -> (c: PNCounter)
        ensures
            c.inv(),
            c@.0 =~= Map::<ReplicaId, u64>::empty(),
            c@.1 =~= Map::<ReplicaId, u64>::empty(),
    {
        PNCounter { pos: GCounter::new(), neg: GCounter::new() }
    }

    /// Add one on behalf of `replica`.
    pub fn inc(&mut self, replica: ReplicaId)
        requires
            old(self).inv(),
            crate::common::cnt(old(self)@.0, replica) < u64::MAX,
        ensures
            final(self).inv(),
            final(self)@.0 == old(self)@.0.insert(
                replica,
                (crate::common::cnt(old(self)@.0, replica) + 1) as u64,
            ),
            final(self)@.1 == old(self)@.1,
    {
        self.pos.inc(replica);
    }

    /// Subtract one on behalf of `replica`.
    pub fn dec(&mut self, replica: ReplicaId)
        requires
            old(self).inv(),
            crate::common::cnt(old(self)@.1, replica) < u64::MAX,
        ensures
            final(self).inv(),
            final(self)@.1 == old(self)@.1.insert(
                replica,
                (crate::common::cnt(old(self)@.1, replica) + 1) as u64,
            ),
            final(self)@.0 == old(self)@.0,
    {
        self.neg.inc(replica);
    }

    /// The signed value: increments minus decrements.
    pub fn value(&self) -> (v: i64)
        requires
            self.inv(),
            sum_counts(self@.0) <= i64::MAX,
            sum_counts(self@.1) <= i64::MAX,
        ensures
            v == sum_counts(self@.0) - sum_counts(self@.1),
    {
        proof {
            self.pos.lemma_inv_ok();
            self.neg.lemma_inv_ok();
            crate::common::lemma_sum_nonneg(self@.0);
            crate::common::lemma_sum_nonneg(self@.1);
        }
        let p = self.pos.value();
        let n = self.neg.value();
        (p as i64) - (n as i64)
    }
}

impl Convergent for PNCounter {
    type Delta = PNCounter;

    open spec fn wf(&self) -> bool {
        self.inv()
    }

    open spec fn delta_wf(d: &PNCounter) -> bool {
        d.inv()
    }

    /// Merging joins the two halves independently.
    open spec fn merged(
        pre: (Map<ReplicaId, u64>, Map<ReplicaId, u64>),
        other: (Map<ReplicaId, u64>, Map<ReplicaId, u64>),
        post: (Map<ReplicaId, u64>, Map<ReplicaId, u64>),
    ) -> bool {
        post.0 == crate::common::join_counts(pre.0, other.0) && post.1
            == crate::common::join_counts(pre.1, other.1)
    }

    /// A delta is a counter snapshot; folding it in is an ordinary merge.
    open spec fn delta_merged(
        pre: (Map<ReplicaId, u64>, Map<ReplicaId, u64>),
        d: (Map<ReplicaId, u64>, Map<ReplicaId, u64>),
        post: (Map<ReplicaId, u64>, Map<ReplicaId, u64>),
    ) -> bool {
        Self::merged(pre, d, post)
    }

    /// The delta is the whole snapshot; the counter itself is unchanged.
    open spec fn delta_taken(
        pre: (Map<ReplicaId, u64>, Map<ReplicaId, u64>),
        d: Option<(Map<ReplicaId, u64>, Map<ReplicaId, u64>)>,
        post: (Map<ReplicaId, u64>, Map<ReplicaId, u64>),
    ) -> bool {
        post == pre && d == Some(pre)
    }

    open spec fn fresh_val() -> (Map<ReplicaId, u64>, Map<ReplicaId, u64>) {
        (Map::<ReplicaId, u64>::empty(), Map::<ReplicaId, u64>::empty())
    }

    fn fresh() -> (r: Self) {
        let c = PNCounter::new();
        proof {
            assert(c@.0 =~= Map::<ReplicaId, u64>::empty());
            assert(c@.1 =~= Map::<ReplicaId, u64>::empty());
        }
        c
    }

    fn duplicate(&self) -> (r: Self) {
        self.clone()
    }

    fn duplicate_delta(d: &Self::Delta) -> (r: Self::Delta) {
        d.clone()
    }

    fn merge(&mut self, other: Self) {
        self.pos.merge(other.pos);
        self.neg.merge(other.neg);
    }

    fn merge_delta(&mut self, delta: Self::Delta) {
        self.merge(delta);
    }

    fn take_delta(&mut self) -> (d: Option<Self::Delta>) {
        Some(self.clone())
    }
}


/// Merging the same counter twice changes nothing beyond the first merge.
pub proof fn lemma_pncounter_merge_reapply(
    a: (Map<ReplicaId, u64>, Map<ReplicaId, u64>),
    b: (Map<ReplicaId, u64>, Map<ReplicaId, u64>),
    once: (Map<ReplicaId, u64>, Map<ReplicaId, u64>),
    twice: (Map<ReplicaId, u64>, Map<ReplicaId, u64>),
)
    requires
        <PNCounter as Convergent>::merged(a, b, once),
        <PNCounter as Convergent>::merged(once, b, twice),
    ensures
        twice == once,
{
    crate::common::lemma_join_counts_reapply(a.0, b.0);
    crate::common::lemma_join_counts_reapply(a.1, b.1);
}

/// Merging in either order converges to the same counter.
pub proof fn lemma_pncounter_merge_commutes(
    a: (Map<ReplicaId, u64>, Map<ReplicaId, u64>),
    b: (Map<ReplicaId, u64>, Map<ReplicaId, u64>),
    ab: (Map<ReplicaId, u64>, Map<ReplicaId, u64>),
    ba: (Map<ReplicaId, u64>, Map<ReplicaId, u64>),
)
    requires
        <PNCounter as Convergent>::merged(a, b, ab),
        <PNCounter as Convergent>::merged(b, a, ba),
    ensures
        ab == ba,
{
    crate::common::lemma_join_counts_comm(a.0, b.0);
    crate::common::lemma_join_counts_comm(a.1, b.1);
}

/// Either grouping of three merges converges to the same counter.
pub proof fn lemma_pncounter_merge_associates(
    a: (Map<ReplicaId, u64>, Map<ReplicaId, u64>),
    b: (Map<ReplicaId, u64>, Map<ReplicaId, u64>),
    c: (Map<ReplicaId, u64>, Map<ReplicaId, u64>),
    ab: (Map<ReplicaId, u64>, Map<ReplicaId, u64>),
    ab_c: (Map<ReplicaId, u64>, Map<ReplicaId, u64>),
    bc: (Map<ReplicaId, u64>, Map<ReplicaId, u64>),
    a_bc: (Map<ReplicaId, u64>, Map<ReplicaId, u64>),
)
    requires
        <PNCounter as Convergent>::merged(a, b, ab),
        <PNCounter as Convergent>::merged(ab, c, ab_c),
        <PNCounter as Convergent>::merged(b, c, bc),
        <PNCounter as Convergent>::merged(a, bc, a_bc),
    ensures
        ab_c == a_bc,
{
    crate::common::lemma_join_counts_assoc(a.0, b.0, c.0);
    crate::common::lemma_join_counts_assoc(a.1, b.1, c.1);
}

} // verus!
