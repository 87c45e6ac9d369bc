//! The `Convergent` contract and the grow-only counter.

use crate::common::{
    cnt, counts_ok, join_counts, sum_counts, Counts, ReplicaId,
};
use vstd::prelude::*;

verus! {

/// The unifying contract of every state-based replicated type.
///
/// `merge` folds a peer's full state in, `merge_delta` folds a compact
/// delta in, and `take_delta` hands out the buffered delta while emptying
/// the buffer.  Each implementer fixes the meaning of the operations at the
/// model level through the spec functions, so that code generic over a
/// convergent value can still reason about what the operations did.
///
/// Synthesizing a value from nothing (`fresh`) is needed when a delta
/// arrives for a key never seen before.  A type whose identity is tied to a
/// replica id cannot be synthesized faithfully; such types should not be
/// used as map values.
pub trait Convergent: View + Sized {
    type Delta: View;

    /// Well-formedness of the representation.
    spec fn wf(&self) -> bool;

    /// Well-formedness of a delta.
    spec fn delta_wf(d: &Self::Delta) -> bool;

    /// How the model after `merge` relates to the models before.
    spec fn merged(pre: Self::V, other: Self::V, post: Self::V) -> bool;

    /// How the model after `merge_delta` relates to the models before.
    spec fn delta_merged(pre: Self::V, d: <Self::Delta as View>::V, post: Self::V) -> bool;

    /// What `take_delta` returns and what it leaves behind.
    spec fn delta_taken(
        pre: Self::V,
        d: Option<<Self::Delta as View>::V>,
        post: Self::V,
    ) -> bool;

    /// The model of a freshly synthesized value.
    spec fn fresh_val() -> Self::V;

    /// A value synthesized from nothing.
    fn fresh() -> (r: Self)
        ensures
            r.wf(),
            r@ == Self::fresh_val(),
    ;

    /// A deep copy with the same model.
    fn duplicate(&self) -> (r: Self)
        ensures
            r@ == self@,
            self.wf() ==> r.wf(),
    ;

    /// A deep copy of a delta with the same model.
    fn duplicate_delta(d: &Self::Delta) -> (r: Self::Delta)
        ensures
            r@ == d@,
            Self::delta_wf(d) ==> Self::delta_wf(&r),
    ;

    /// Fold a peer's full state in.
    fn merge(&mut self, other: Self)
        requires
            old(self).wf(),
            other.wf(),
        ensures
            final(self).wf(),
            Self::merged(old(self)@, other@, final(self)@),
    ;

    /// Fold a peer's delta in.
    fn merge_delta(&mut self, delta: Self::Delta)
        requires
            old(self).wf(),
            Self::delta_wf(&delta),
        ensures
            final(self).wf(),
            Self::delta_merged(old(self)@, delta@, final(self)@),
    ;

    /// Hand out the buffered delta, emptying the buffer.
    fn take_delta(&mut self) -> (d: Option<Self::Delta>)
        requires
            old(self).wf(),
        ensures
            final(self).wf(),
            match d {
                Some(dd) => Self::delta_wf(&dd) && Self::delta_taken(
                    old(self)@,
                    Some(dd@),
                    final(self)@,
                ),
                None => Self::delta_taken(old(self)@, None, final(self)@),
            },
    ;
}

/// A grow-only counter: a tally per replica, summed for the value.  The
/// internal structure is that of a vector clock, but a tally does not
/// participate in a partial order.
#[derive(Debug, PartialEq, Eq)]
pub struct GCounter {
    counts: Counts,
}

impl View for GCounter {
    type V = Map<ReplicaId, u64>;

    closed spec fn view(&self) -> Map<ReplicaId, u64> {
        self.counts@
    }
}

impl Clone for GCounter {
    /// A deep copy with the same model.
    fn clone(&self) -> (res: Self)
        ensures
            res@ == self@,
            res.wf() == self.wf(),
    {
        GCounter { counts: self.counts.clone() }
    }
}

impl GCounter {
    pub closed spec fn inv(&self) -> bool {
        self.counts.wf()
    }

    pub proof fn lemma_inv_ok(&self)
        requires
            self.inv(),
        ensures
            counts_ok(self@),
    {
        self.counts.lemma_wf_ok();
    }

    pub fn new() -> (c: GCounter)
        ensures
            c.inv(),
            c@ =~= Map::<ReplicaId, u64>::empty(),
    {
        GCounter { counts: Counts::new() }
    }

    /// The replicas with a tally, each listed once.
    pub fn keys(&self) -> (r: Vec<ReplicaId>)
        requires
            self.inv(),
        ensures
            r@.no_duplicates(),
            forall|k: ReplicaId| r@.contains(k) <==> self@.dom().contains(k),
    {
        self.counts.keys()
    }

    /// The tally of `replica`, zero when absent.
    pub fn get(&self, replica: &ReplicaId) -> (v: u64)
        requires
            self.inv(),
        ensures
            v == cnt(self@, *replica),
    {
        self.counts.get(*replica)
    }

    /// The counter's value: the sum of all tallies.
    pub fn value(&self) -> (v: u64)
        requires
            self.inv(),
            sum_counts(self@) <= u64::MAX,
        ensures
            v == sum_counts(self@),
    {
        self.counts.total()
    }

    /// Add one to the tally of `replica`.
    pub fn inc(&mut self, replica: ReplicaId)
        requires
            old(self).inv(),
            cnt(old(self)@, replica) < u64::MAX,
        ensures
            final(self).inv(),
            final(self)@ == old(self)@.insert(replica, (cnt(old(self)@, replica) + 1) as u64),
    {
        self.counts.inc(replica);
    }
}

impl Convergent for GCounter {
    type Delta = GCounter;

    open spec fn wf(&self) -> bool {
        self.inv()
    }

    open spec fn delta_wf(d: &GCounter) -> bool {
        d.inv()
    }

    /// Merging takes the pointwise maximum of the tallies.
    open spec fn merged(pre: Map<ReplicaId, u64>, other: Map<ReplicaId, u64>, post: Map<ReplicaId, u64>) -> bool {
        post == join_counts(pre, other)
    }

    /// A delta is a counter snapshot; folding it in is an ordinary merge.
    open spec fn delta_merged(
        pre: Map<ReplicaId, u64>,
        d: Map<ReplicaId, u64>,
        post: Map<ReplicaId, u64>,
    ) -> bool {
        post == join_counts(pre, d)
    }

    /// The delta is the whole snapshot; the counter itself is unchanged.
    open spec fn delta_taken(
        pre: Map<ReplicaId, u64>,
        d: Option<Map<ReplicaId, u64>>,
        post: Map<ReplicaId, u64>,
    ) -> bool {
        post == pre && d == Some(pre)
    }

    open spec fn fresh_val() -> Map<ReplicaId, u64> {
        Map::<ReplicaId, u64>::empty()
    }

    fn fresh() -> (r: Self) {
        let c = GCounter::new();
        proof {
            assert(c@ =~= Map::<ReplicaId, u64>::empty());
        }
        c
    }

    fn duplicate(&self) -> (r: Self) {
        self.clone()
    }

    fn duplicate_delta(d: &Self::Delta) -> (r: Self::Delta) {
        d.clone()
    }

    fn merge(&mut self, other: Self) {
        self.counts.merge_from(&other.counts);
    }

    fn merge_delta(&mut self, delta: Self::Delta) {
        self.counts.merge_from(&delta.counts);
    }

    fn take_delta(&mut self) -> (d: Option<Self::Delta>) {
        Some(self.clone())
    }
}


/// Merging the same counter twice changes nothing beyond the first merge.
pub proof fn lemma_counter_merge_reapply(
    a: Map<ReplicaId, u64>,
    b: Map<ReplicaId, u64>,
    once: Map<ReplicaId, u64>,
    twice: Map<ReplicaId, u64>,
)
    requires
        <GCounter as Convergent>::merged(a, b, once),
        <GCounter as Convergent>::merged(once, b, twice),
    ensures
        twice == once,
{
    crate::common::lemma_join_counts_reapply(a, b);
}

/// Merging in either order converges to the same counter.
pub proof fn lemma_counter_merge_commutes(
    a: Map<ReplicaId, u64>,
    b: Map<ReplicaId, u64>,
    ab: Map<ReplicaId, u64>,
    ba: Map<ReplicaId, u64>,
)
    requires
        <GCounter as Convergent>::merged(a, b, ab),
        <GCounter as Convergent>::merged(b, a, ba),
    ensures
        ab == ba,
{
    crate::common::lemma_join_counts_comm(a, b);
}

/// Either grouping of three merges converges to the same counter.
pub proof fn lemma_counter_merge_associates(
    a: Map<ReplicaId, u64>,
    b: Map<ReplicaId, u64>,
    c: Map<ReplicaId, u64>,
    ab: Map<ReplicaId, u64>,
    ab_c: Map<ReplicaId, u64>,
    bc: Map<ReplicaId, u64>,
    a_bc: Map<ReplicaId, u64>,
)
    requires
        <GCounter as Convergent>::merged(a, b, ab),
        <GCounter as Convergent>::merged(ab, c, ab_c),
        <GCounter as Convergent>::merged(b, c, bc),
        <GCounter as Convergent>::merged(a, bc, a_bc),
    ensures
        ab_c == a_bc,
{
    crate::common::lemma_join_counts_assoc(a, b, c);
}

} // verus!
