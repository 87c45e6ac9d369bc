//! Vector clocks: partially ordered maps from replica to logical time.

use crate::common::{
    cnt, counts_ok, join_counts, leq_counts, Counts, ReplicaId,
};
use vstd::prelude::*;

verus! {

use core::cmp::Ordering;
use vstd::std_specs::cmp::PartialEqSpec;

/// The outcome of comparing two count models pointwise: `Equal` when the
/// maps agree everywhere, `Less`/`Greater` when one side dominates, and
/// `None` when each side is ahead somewhere (the clocks are concurrent).
pub open spec fn cmp_counts(a: Map<ReplicaId, u64>, b: Map<ReplicaId, u64>) -> Option<Ordering> {
    if leq_counts(a, b) && leq_counts(b, a) {
        Some(Ordering::Equal)
    } else if leq_counts(a, b) {
        Some(Ordering::Less)
    } else if leq_counts(b, a) {
        Some(Ordering::Greater)
    } else {
        None
    }
}

/// A mapping from replica to a strictly positive logical time; missing
/// replicas are at time zero.  Created empty, it only ever grows: `inc`
/// advances one entry and `merge` takes the pointwise maximum.
#[derive(Debug)]
pub struct VClock {
    counts: Counts,
}

impl PartialEq for VClock {
    /// Clock equality: mutual domination of the stored entries, which on
    /// well-formed clocks is model equality, so that `==` agrees with
    /// comparing `Equal` (see `lemma_eq_agrees_with_compare`).
    fn eq(&self, other: &VClock) -> (r: bool) {
        self.counts.rep_equal(&other.counts)
    }
}

impl vstd::std_specs::cmp::PartialEqSpecImpl for VClock {
    open spec fn obeys_eq_spec() -> bool {
        true
    }

    open spec fn eq_spec(&self, other: &VClock) -> bool {
        VClock::rep_eq(self, other)
    }
}

impl View for VClock {
    type V = Map<ReplicaId, u64>;

    closed spec fn view(&self) -> Map<ReplicaId, u64> {
        self.counts@
    }
}

impl Clone for VClock {
    /// A deep copy with the same model.
    fn clone(&self) -> (res: Self)
        ensures
            res@ == self@,
            res.wf() == self.wf(),
    {
        VClock { counts: self.counts.clone() }
    }
}

impl VClock {
    pub closed spec fn wf(&self) -> bool {
        self.counts.wf()
    }

    /// What `==` computes: mutual domination of the stored entries.
    pub closed spec fn rep_eq(&self, other: &VClock) -> bool {
        self.counts.rep_eq(&other.counts)
    }

    pub proof fn lemma_wf_ok(&self)
        requires
            self.wf(),
        ensures
            counts_ok(self@),
    {
        self.counts.lemma_wf_ok();
    }

    pub fn new() -> (c: VClock)
        ensures
            c.wf(),
            c@ =~= Map::<ReplicaId, u64>::empty(),
    {
        VClock { counts: Counts::new() }
    }

    /// The logical time of `replica`, zero when absent.
    pub fn get(&self, replica: &ReplicaId) -> (v: u64)
        requires
            self.wf(),
        ensures
            v == cnt(self@, *replica),
    {
        self.counts.get(*replica)
    }

    /// Advance the entry of `replica` by one and return its new time.
    pub fn inc(&mut self, replica: ReplicaId) -> (v: u64)
        requires
            old(self).wf(),
            cnt(old(self)@, replica) < u64::MAX,
        ensures
            final(self).wf(),
            final(self)@ == old(self)@.insert(replica, (cnt(old(self)@, replica) + 1) as u64),
            v == cnt(old(self)@, replica) + 1,
    {
        self.counts.inc(replica)
    }

    /// Pointwise maximum with `other`.
    pub fn merge(&mut self, other: &Self)
        requires
            old(self).wf(),
            other.wf(),
        ensures
            final(self).wf(),
            final(self)@ == join_counts(old(self)@, other@),
    {
        self.counts.merge_from(&other.counts)
    }

    /// Compare the two clocks under the happens-before partial order.
    pub fn partial_cmp(&self, other: &Self) -> (r: Option<Ordering>)
        requires
            self.wf(),
            other.wf(),
        ensures
            r == cmp_counts(self@, other@),
    {
        let le = self.counts.leq(&other.counts);
        let ge = other.counts.leq(&self.counts);
        if le && ge {
            Some(Ordering::Equal)
        } else if le {
            Some(Ordering::Less)
        } else if ge {
            Some(Ordering::Greater)
        } else {
            None
        }
    }

    /// Whether this clock is greater than or concurrent with `other`.
    pub fn gtc(&self, other: &Self) -> (r: bool)
        requires
            self.wf(),
            other.wf(),
        ensures
            r == (cmp_counts(self@, other@) == None::<Ordering> || cmp_counts(self@, other@)
                == Some(Ordering::Greater)),
    {
        match self.partial_cmp(other) {
            None => true,
            Some(Ordering::Greater) => true,
            Some(_) => false,
        }
    }
}

/// On well-formed clocks `==` agrees with the comparison: two clocks are
/// equal exactly when their models coincide, which is exactly when they
/// compare `Equal`.
pub proof fn lemma_eq_agrees_with_compare(a: &VClock, b: &VClock)
    requires
        a.wf(),
        b.wf(),
    ensures
        a.eq_spec(b) <==> a@ == b@,
        a.eq_spec(b) <==> cmp_counts(a@, b@) == Some(Ordering::Equal),
{
    a.counts.lemma_rep_eq_model(&b.counts);
    if a@ == b@ {
        assert(leq_counts(a@, b@));
    }
}

/// The clock order is reflexive: every clock compares `Equal` to itself.
pub proof fn lemma_vclock_reflexive(a: Map<ReplicaId, u64>)
    ensures
        cmp_counts(a, a) == Some(Ordering::Equal),
{
}

/// The clock order is antisymmetric: two well-formed clocks that compare
/// `Equal` are the same mapping.
pub proof fn lemma_vclock_antisymmetric(a: Map<ReplicaId, u64>, b: Map<ReplicaId, u64>)
    requires
        counts_ok(a),
        counts_ok(b),
        cmp_counts(a, b) == Some(Ordering::Equal),
    ensures
        a == b,
{
    assert forall|r: ReplicaId| a.dom().contains(r) <==> b.dom().contains(r) by {
        assert(cnt(a, r) <= cnt(b, r));
        assert(cnt(b, r) <= cnt(a, r));
    }
    assert forall|r: ReplicaId| #[trigger] a.dom().contains(r) implies a[r] == b[r] by {
        assert(cnt(a, r) <= cnt(b, r));
        assert(cnt(b, r) <= cnt(a, r));
    }
    assert(a =~= b);
}

/// The clock order is transitive on the defined subset.
pub proof fn lemma_vclock_transitive(
    a: Map<ReplicaId, u64>,
    b: Map<ReplicaId, u64>,
    c: Map<ReplicaId, u64>,
)
    requires
        cmp_counts(a, b) matches Some(Ordering::Less | Ordering::Equal),
        cmp_counts(b, c) matches Some(Ordering::Less | Ordering::Equal),
    ensures
        cmp_counts(a, c) matches Some(Ordering::Less | Ordering::Equal),
        cmp_counts(a, b) == Some(Ordering::Less) || cmp_counts(b, c) == Some(Ordering::Less)
            ==> cmp_counts(a, c) == Some(Ordering::Less),
{
    assert forall|r: ReplicaId| #[trigger] cnt(a, r) <= cnt(c, r) by {
        assert(cnt(a, r) <= cnt(b, r));
        assert(cnt(b, r) <= cnt(c, r));
    }
}

/// Two clocks advanced only by disjoint replicas are concurrent.
pub proof fn lemma_vclock_concurrent(
    a: Map<ReplicaId, u64>,
    b: Map<ReplicaId, u64>,
    ra: ReplicaId,
    rb: ReplicaId,
)
    requires
        counts_ok(a),
        counts_ok(b),
        a.dom().contains(ra),
        b.dom().contains(rb),
        !b.dom().contains(ra),
        !a.dom().contains(rb),
    ensures
        cmp_counts(a, b) == None::<Ordering>,
{
    assert(cnt(a, ra) > cnt(b, ra));
    assert(cnt(b, rb) > cnt(a, rb));
}

} // verus!
