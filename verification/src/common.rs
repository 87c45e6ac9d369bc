//! Shared plumbing for the count maps that underlie the clock-like types.
//!
//! A `Counts` value is a map from replica identifier to a strictly positive
//! count, stored as an association list with unique keys.  Missing keys count
//! as zero.  `VClock`, `GCounter` and the compact clock inside `DotContext`
//! all wrap this one structure; they stay nominally distinct because only the
//! vector clock participates in a partial order.

use vstd::prelude::*;

verus! {

/// Opaque identifier of one replica, unique per replica and stable across
/// the replica's lifetime.
pub type ReplicaId = u64;

/// The count of replica `r` in the model map `m`; absent keys count zero.
pub open spec fn cnt(m: Map<ReplicaId, u64>, r: ReplicaId) -> u64 {
    if m.dom().contains(r) {
        m[r]
    } else {
        0
    }
}

/// Pointwise maximum of two count maps: the lattice join of the counts.
pub open spec fn join_counts(a: Map<ReplicaId, u64>, b: Map<ReplicaId, u64>) -> Map<
    ReplicaId,
    u64,
> {
    Map::new(
        |r: ReplicaId| a.dom().contains(r) || b.dom().contains(r),
        |r: ReplicaId|
            if cnt(a, r) >= cnt(b, r) {
                cnt(a, r)
            } else {
                cnt(b, r)
            },
    )
}

/// Pointwise order on count maps.
pub open spec fn leq_counts(a: Map<ReplicaId, u64>, b: Map<ReplicaId, u64>) -> bool {
    forall|r: ReplicaId| #[trigger] cnt(a, r) <= cnt(b, r)
}

/// A well-formed count model: a finite domain and no entry mapped to zero.
pub open spec fn counts_ok(m: Map<ReplicaId, u64>) -> bool {
    &&& m.dom().finite()
    &&& forall|r: ReplicaId| #[trigger] m.dom().contains(r) ==> m[r] >= 1
}

/// Sum of all counts in the model map.
pub open spec fn sum_counts(m: Map<ReplicaId, u64>) -> int
    decreases m.dom().len() when m.dom().finite()
{
    if !m.dom().finite() || m.dom() =~= Set::empty() {
        0
    } else {
        let r = m.dom().choose();
        m[r] + sum_counts(m.remove(r))
    }
}

/// The model of a stored association list: later entries shadow earlier
/// ones, though well-formed lists never repeat a key.
pub open spec fn alist_counts(s: Seq<(ReplicaId, u64)>) -> Map<ReplicaId, u64>
    decreases s.len(),
{
    if s.len() == 0 {
        Map::<ReplicaId, u64>::empty()
    } else {
        alist_counts(s.drop_last()).insert(s.last().0, s.last().1)
    }
}

/// Unique keys in a stored association list.
pub open spec fn alist_unique(s: Seq<(ReplicaId, u64)>) -> bool {
    forall|i: int, j: int| 0 <= i < j < s.len() ==> (#[trigger] s[i]).0 != (#[trigger] s[j]).0
}

pub proof fn lemma_alist_dom(s: Seq<(ReplicaId, u64)>, r: ReplicaId)
    ensures
        alist_counts(s).dom().contains(r) <==> exists|i: int| 0 <= i < s.len() && (#[trigger] s[i]).0 == r,
    decreases s.len(),
{
    if s.len() > 0 {
        lemma_alist_dom(s.drop_last(), r);
        if alist_counts(s).dom().contains(r) {
            if s.last().0 != r {
                let i = choose|i: int| 0 <= i < s.drop_last().len() && (#[trigger] s.drop_last()[i]).0 == r;
                assert(s[i].0 == r);
            } else {
                assert(s[s.len() - 1].0 == r);
            }
        } else {
            assert(forall|i: int| 0 <= i < s.drop_last().len() ==> s.drop_last()[i] == s[i]);
        }
    }
}

pub proof fn lemma_alist_get(s: Seq<(ReplicaId, u64)>, i: int)
    requires
        alist_unique(s),
        0 <= i < s.len(),
    ensures
        alist_counts(s).dom().contains(s[i].0),
        alist_counts(s)[s[i].0] == s[i].1,
    decreases s.len(),
{
    if i == s.len() - 1 {
    } else {
        lemma_alist_get(s.drop_last(), i);
        assert(s.drop_last()[i] == s[i]);
        assert(s.last().0 != s[i].0);
    }
}

pub proof fn lemma_alist_finite(s: Seq<(ReplicaId, u64)>)
    ensures
        alist_counts(s).dom().finite(),
    decreases s.len(),
{
    if s.len() > 0 {
        lemma_alist_finite(s.drop_last());
    }
}

/// Replacing the value at position `i` updates the model at that key only.
pub proof fn lemma_alist_update(s: Seq<(ReplicaId, u64)>, i: int, v: u64)
    requires
        alist_unique(s),
        0 <= i < s.len(),
    ensures
        alist_counts(s.update(i, (s[i].0, v))) =~= alist_counts(s).insert(s[i].0, v),
    decreases s.len(),
{
    let t = s.update(i, (s[i].0, v));
    if i == s.len() - 1 {
        assert(t.drop_last() =~= s.drop_last());
    } else {
        lemma_alist_update(s.drop_last(), i, v);
        assert(t.drop_last() =~= s.drop_last().update(i, (s[i].0, v)));
        assert(s.drop_last()[i] == s[i]);
        assert(s.last().0 != s[i].0);
        assert(t.last() == s.last());
    }
}

/// The value of the first entry for `r`, zero when there is none: what a
/// linear scan observes, on any list.
pub open spec fn first_cnt(s: Seq<(ReplicaId, u64)>, r: ReplicaId) -> u64
    decreases s.len(),
{
    if s.len() == 0 {
        0
    } else if s.first().0 == r {
        s.first().1
    } else {
        first_cnt(s.drop_first(), r)
    }
}

/// Every entry of `a` is dominated by what a scan of `b` finds for its
/// key.
pub open spec fn seq_led(a: Seq<(ReplicaId, u64)>, b: Seq<(ReplicaId, u64)>) -> bool {
    forall|i: int| 0 <= i < a.len() ==> (#[trigger] a[i]).1 <= first_cnt(b, a[i].0)
}

proof fn lemma_first_cnt_skip(s: Seq<(ReplicaId, u64)>, i: int, r: ReplicaId)
    requires
        0 <= i <= s.len(),
        forall|j: int| 0 <= j < i ==> (#[trigger] s[j]).0 != r,
    ensures
        first_cnt(s, r) == first_cnt(s.skip(i), r),
    decreases i,
{
    if i > 0 {
        assert(s.first().0 != r);
        lemma_first_cnt_skip(s.drop_first(), i - 1, r);
        assert(s.drop_first().skip(i - 1) =~= s.skip(i));
        assert(forall|j: int| 0 <= j < i - 1 ==> #[trigger] s.drop_first()[j] == s[j + 1]);
    } else {
        assert(s.skip(0) =~= s);
    }
}

/// On a list with unique keys, the scan observes the model's count.
proof fn lemma_first_cnt_model(s: Seq<(ReplicaId, u64)>, r: ReplicaId)
    requires
        alist_unique(s),
    ensures
        first_cnt(s, r) == cnt(alist_counts(s), r),
    decreases s.len(),
{
    if s.len() == 0 {
        lemma_alist_dom(s, r);
    } else if s.first().0 == r {
        lemma_alist_get(s, 0);
    } else {
        let t = s.drop_first();
        assert(forall|j: int| 0 <= j < t.len() ==> #[trigger] t[j] == s[j + 1]);
        lemma_first_cnt_model(t, r);
        lemma_alist_dom(s, r);
        lemma_alist_dom(t, r);
        if alist_counts(s).dom().contains(r) {
            let i = choose|i: int| 0 <= i < s.len() && (#[trigger] s[i]).0 == r;
            assert(i >= 1);
            lemma_alist_get(s, i);
            assert(t[i - 1] == s[i]);
            lemma_alist_get(t, i - 1);
        } else {
            if alist_counts(t).dom().contains(r) {
                let i = choose|i: int| 0 <= i < t.len() && (#[trigger] t[i]).0 == r;
                assert(s[i + 1].0 == r);
            }
        }
    }
}

/// Sum of the stored values of an association list.
pub open spec fn seq_sum(s: Seq<(ReplicaId, u64)>) -> int
    decreases s.len(),
{
    if s.len() == 0 {
        0
    } else {
        seq_sum(s.drop_last()) + s.last().1
    }
}

pub proof fn lemma_sum_remove(m: Map<ReplicaId, u64>, r: ReplicaId)
    requires
        m.dom().finite(),
        m.dom().contains(r),
    ensures
        sum_counts(m) == m[r] + sum_counts(m.remove(r)),
    decreases m.dom().len(),
{
    let c = m.dom().choose();
    assert(m.dom().contains(c));
    if c == r {
    } else {
        lemma_sum_remove(m.remove(c), r);
        lemma_sum_remove(m.remove(r), c);
        assert(m.remove(c).remove(r) =~= m.remove(r).remove(c));
    }
}

pub proof fn lemma_sum_insert(m: Map<ReplicaId, u64>, r: ReplicaId, v: u64)
    requires
        m.dom().finite(),
        !m.dom().contains(r),
    ensures
        sum_counts(m.insert(r, v)) == sum_counts(m) + v,
{
    lemma_sum_remove(m.insert(r, v), r);
    assert(m.insert(r, v).remove(r) =~= m);
}

pub proof fn lemma_sum_nonneg(m: Map<ReplicaId, u64>)
    requires
        m.dom().finite(),
    ensures
        sum_counts(m) >= 0,
    decreases m.dom().len(),
{
    if !(m.dom() =~= Set::empty()) {
        let r = m.dom().choose();
        assert(m.dom().contains(r));
        lemma_sum_nonneg(m.remove(r));
    }
}

/// On a list with unique keys, the model's sum is the list's sum.
pub proof fn lemma_sum_alist(s: Seq<(ReplicaId, u64)>)
    requires
        alist_unique(s),
    ensures
        sum_counts(alist_counts(s)) == seq_sum(s),
    decreases s.len(),
{
    if s.len() > 0 {
        lemma_sum_alist(s.drop_last());
        lemma_alist_finite(s.drop_last());
        lemma_alist_dom(s.drop_last(), s.last().0);
        lemma_sum_insert(alist_counts(s.drop_last()), s.last().0, s.last().1);
    }
}

pub proof fn lemma_seq_sum_bound(s: Seq<(ReplicaId, u64)>, i: int)
    requires
        0 <= i <= s.len(),
    ensures
        seq_sum(s.take(i)) <= seq_sum(s),
        seq_sum(s) >= 0,
    decreases s.len(),
{
    if s.len() > 0 {
        lemma_seq_sum_bound(s.drop_last(), if i < s.len() { i } else { i - 1 });
        if i < s.len() {
            assert(s.take(i) =~= s.drop_last().take(i));
        } else {
            assert(s.take(i) =~= s);
        }
    } else {
        assert(s.take(i) =~= s);
    }
}

/// The join is commutative.
pub proof fn lemma_join_counts_comm(a: Map<ReplicaId, u64>, b: Map<ReplicaId, u64>)
    ensures
        join_counts(a, b) == join_counts(b, a),
{
    assert(join_counts(a, b) =~= join_counts(b, a));
}

/// The join is associative.
pub proof fn lemma_join_counts_assoc(
    a: Map<ReplicaId, u64>,
    b: Map<ReplicaId, u64>,
    c: Map<ReplicaId, u64>,
)
    ensures
        join_counts(join_counts(a, b), c) == join_counts(a, join_counts(b, c)),
{
    assert(join_counts(join_counts(a, b), c) =~= join_counts(a, join_counts(b, c)));
}

/// The join is idempotent.
pub proof fn lemma_join_counts_idem(a: Map<ReplicaId, u64>)
    ensures
        join_counts(a, a) == a,
{
    assert(join_counts(a, a) =~= a);
}

/// Merging the same map in twice changes nothing beyond the first merge.
pub proof fn lemma_join_counts_reapply(a: Map<ReplicaId, u64>, b: Map<ReplicaId, u64>)
    ensures
        join_counts(join_counts(a, b), b) == join_counts(a, b),
{
    assert(join_counts(join_counts(a, b), b) =~= join_counts(a, b));
}

/// Joining with an already-dominated map changes nothing.
pub proof fn lemma_join_counts_absorb(a: Map<ReplicaId, u64>, b: Map<ReplicaId, u64>)
    requires
        leq_counts(b, a),
        counts_ok(a),
        counts_ok(b),
    ensures
        join_counts(a, b) == a,
{
    assert forall|r: ReplicaId| #[trigger]
        join_counts(a, b).dom().contains(r) implies a.dom().contains(r) by {
        if b.dom().contains(r) {
            assert(cnt(b, r) >= 1);
            assert(cnt(a, r) >= 1);
        }
    }
    assert(join_counts(a, b) =~= a);
}

pub proof fn lemma_join_counts_ok(a: Map<ReplicaId, u64>, b: Map<ReplicaId, u64>)
    requires
        counts_ok(a),
        counts_ok(b),
    ensures
        counts_ok(join_counts(a, b)),
        forall|r: ReplicaId| #[trigger]
            cnt(join_counts(a, b), r) == if cnt(a, r) >= cnt(b, r) {
                cnt(a, r)
            } else {
                cnt(b, r)
            },
{
    assert(join_counts(a, b).dom() =~= a.dom() + b.dom());
    vstd::set_lib::lemma_set_union_finite_iff(a.dom(), b.dom());
    assert forall|r: ReplicaId| #[trigger]
        cnt(join_counts(a, b), r) == if cnt(a, r) >= cnt(b, r) {
            cnt(a, r)
        } else {
            cnt(b, r)
        } by {
        if !join_counts(a, b).dom().contains(r) {
            assert(cnt(a, r) == 0 && cnt(b, r) == 0);
        }
    }
}

/// The count map stored by the clock-like types.
#[derive(Debug, PartialEq, Eq)]
pub struct Counts {
    entries: Vec<(ReplicaId, u64)>,
}

impl Clone for Counts {
    /// A deep copy with the same model.
    #[verifier::loop_isolation(false)]
    fn clone(&self) -> (res: Self)
        ensures
            res@ == self@,
            res.wf() == self.wf(),
    {
        let n = self.entries.len();
        let mut v: Vec<(ReplicaId, u64)> = Vec::new();
        let mut i: usize = 0;
        while i < n
            invariant
                0 <= i <= n,
                v@ =~= self.entries@.take(i as int),
            decreases n - i,
        {
            v.push(self.entries[i]);
            i = i + 1;
        }
        assert(v@ =~= self.entries@);
        Counts { entries: v }
    }
}

impl View for Counts {
    type V = Map<ReplicaId, u64>;

    closed spec fn view(&self) -> Map<ReplicaId, u64> {
        alist_counts(self.entries@)
    }
}

impl Counts {
    pub closed spec fn wf(&self) -> bool {
        &&& alist_unique(self.entries@)
        &&& forall|i: int|
            0 <= i < self.entries@.len() ==> (#[trigger] self.entries@[i]).1 >= 1
    }

    pub proof fn lemma_wf_ok(&self)
        requires
            self.wf(),
        ensures
            counts_ok(self@),
    {
        lemma_alist_finite(self.entries@);
        assert forall|r: ReplicaId| #[trigger] self@.dom().contains(r) implies self@[r] >= 1 by {
            lemma_alist_dom(self.entries@, r);
            let i = choose|i: int| 0 <= i < self.entries@.len() && (#[trigger] self.entries@[i]).0 == r;
            lemma_alist_get(self.entries@, i);
        }
    }

    pub fn new() -> (c: Counts)
        ensures
            c.wf(),
            c@ =~= Map::<ReplicaId, u64>::empty(),
    {
        Counts { entries: Vec::new() }
    }

    #[verifier::loop_isolation(false)]
    pub fn get(&self, r: ReplicaId) -> (v: u64)
        requires
            self.wf(),
        ensures
            v == cnt(self@, r),
    {
        let n = self.entries.len();
        let mut i: usize = 0;
        while i < n
            invariant
                n == self.entries@.len(),
                0 <= i <= n,
                forall|j: int| 0 <= j < i ==> (#[trigger] self.entries@[j]).0 != r,
            decreases n - i,
        {
            if self.entries[i].0 == r {
                proof {
                    lemma_alist_get(self.entries@, i as int);
                }
                return self.entries[i].1;
            }
            i = i + 1;
        }
        proof {
            lemma_alist_dom(self.entries@, r);
        }
        0
    }

    /// Whether no replica has an entry.
    pub fn is_empty(&self) -> (r: bool)
        ensures
            r <==> self@ =~= Map::<ReplicaId, u64>::empty(),
    {
        if self.entries.len() == 0 {
            proof {
                assert(self@ =~= Map::<ReplicaId, u64>::empty());
            }
            true
        } else {
            proof {
                lemma_alist_dom(self.entries@, self.entries@[0].0);
                assert(self@.dom().contains(self.entries@[0].0));
            }
            false
        }
    }

    /// Raise the count of `r` by one and return the new count.
    #[verifier::loop_isolation(false)]
    pub fn inc(&mut self, r: ReplicaId) -> (v: u64)
        requires
            old(self).wf(),
            cnt(old(self)@, r) < u64::MAX,
        ensures
            final(self).wf(),
            final(self)@ == old(self)@.insert(r, (cnt(old(self)@, r) + 1) as u64),
            v == cnt(old(self)@, r) + 1,
    {
        let n = self.entries.len();
        let mut i: usize = 0;
        while i < n
            invariant
                n == self.entries@.len(),
                0 <= i <= n,
                self == old(self),
                forall|j: int| 0 <= j < i ==> (#[trigger] self.entries@[j]).0 != r,
            decreases n - i,
        {
            if self.entries[i].0 == r {
                proof {
                    lemma_alist_get(self.entries@, i as int);
                }
                let cur = self.entries[i].1;
                self.entries[i] = (r, cur + 1);
                proof {
                    lemma_alist_update(old(self).entries@, i as int, (cur + 1) as u64);
                }
                return cur + 1;
            }
            i = i + 1;
        }
        proof {
            lemma_alist_dom(self.entries@, r);
        }
        self.entries.push((r, 1));
        proof {
            assert(self.entries@.drop_last() =~= old(self).entries@);
        }
        1
    }

    /// Raise the count of `r` to at least `v`.
    #[verifier::loop_isolation(false)]
    fn raise(&mut self, r: ReplicaId, v: u64)
        requires
            old(self).wf(),
            v >= 1,
        ensures
            final(self).wf(),
            final(self)@ == if cnt(old(self)@, r) >= v {
                old(self)@
            } else {
                old(self)@.insert(r, v)
            },
    {
        let n = self.entries.len();
        let mut i: usize = 0;
        while i < n
            invariant
                n == self.entries@.len(),
                0 <= i <= n,
                self == old(self),
                forall|j: int| 0 <= j < i ==> (#[trigger] self.entries@[j]).0 != r,
            decreases n - i,
        {
            if self.entries[i].0 == r {
                proof {
                    lemma_alist_get(self.entries@, i as int);
                }
                if self.entries[i].1 < v {
                    self.entries[i] = (r, v);
                    proof {
                        lemma_alist_update(old(self).entries@, i as int, v);
                    }
                } else {
                    proof {
                        assert(self@ =~= old(self)@.insert(r, self@[r]));
                    }
                }
                return ;
            }
            i = i + 1;
        }
        proof {
            lemma_alist_dom(self.entries@, r);
        }
        self.entries.push((r, v));
        proof {
            assert(self.entries@.drop_last() =~= old(self).entries@);
        }
    }

    /// Merge `other` in: pointwise maximum of the two count maps.
    #[verifier::loop_isolation(false)]
    pub fn merge_from(&mut self, other: &Counts)
        requires
            old(self).wf(),
            other.wf(),
        ensures
            final(self).wf(),
            final(self)@ == join_counts(old(self)@, other@),
    {
        proof {
            other.lemma_wf_ok();
        }
        let n = other.entries.len();
        let mut j: usize = 0;
        while j < n
            invariant
                n == other.entries@.len(),
                0 <= j <= n,
                self.wf(),
                self@ =~= join_counts(old(self)@, alist_counts(other.entries@.take(j as int))),
            decreases n - j,
        {
            let p = other.entries[j];
            let r = p.0;
            let v = p.1;
            let ghost part = alist_counts(other.entries@.take(j as int));
            proof {
                lemma_alist_get(other.entries@, j as int);
                lemma_alist_dom(other.entries@.take(j as int), r);
                assert(forall|i: int|
                    0 <= i < j ==> #[trigger] other.entries@.take(j as int)[i] == other.entries@[i]);
                assert(!part.dom().contains(r));
                assert(other.entries@.take(j as int + 1).drop_last() =~= other.entries@.take(
                    j as int,
                ));
                assert(alist_counts(other.entries@.take(j as int + 1)) == part.insert(r, v));
            }
            let ghost pre = self@;
            self.raise(r, v);
            proof {
                assert(cnt(pre, r) == if cnt(old(self)@, r) >= cnt(part, r) {
                    cnt(old(self)@, r)
                } else {
                    cnt(part, r)
                });
                assert(self@ =~= join_counts(old(self)@, part.insert(r, v)));
            }
            j = j + 1;
        }
        proof {
            assert(other.entries@.take(n as int) =~= other.entries@);
            assert(self@ =~= join_counts(old(self)@, other@));
        }
    }

    /// Sum of all counts.
    #[verifier::loop_isolation(false)]
    pub fn total(&self) -> (v: u64)
        requires
            self.wf(),
            sum_counts(self@) <= u64::MAX,
        ensures
            v == sum_counts(self@),
    {
        proof {
            lemma_sum_alist(self.entries@);
        }
        let n = self.entries.len();
        let mut acc: u64 = 0;
        let mut i: usize = 0;
        while i < n
            invariant
                n == self.entries@.len(),
                0 <= i <= n,
                acc == seq_sum(self.entries@.take(i as int)),
            decreases n - i,
        {
            proof {
                lemma_seq_sum_bound(self.entries@, i as int + 1);
                assert(self.entries@.take(i as int + 1).drop_last() =~= self.entries@.take(i as int));
            }
            acc = acc + self.entries[i].1;
            i = i + 1;
        }
        proof {
            assert(self.entries@.take(n as int) =~= self.entries@);
        }
        acc
    }

    /// What clock equality means on any representation: each side's
    /// entries are dominated by what a scan of the other side finds.
    pub closed spec fn rep_eq(&self, other: &Counts) -> bool {
        seq_led(self.entries@, other.entries@) && seq_led(other.entries@, self.entries@)
    }

    /// The count a scan finds for `r`; total on any representation.
    #[verifier::loop_isolation(false)]
    fn first_get(&self, r: ReplicaId) -> (v: u64)
        ensures
            v == first_cnt(self.entries@, r),
    {
        let n = self.entries.len();
        let mut i: usize = 0;
        while i < n
            invariant
                0 <= i <= n,
                forall|j: int| 0 <= j < i ==> (#[trigger] self.entries@[j]).0 != r,
            decreases n - i,
        {
            if self.entries[i].0 == r {
                proof {
                    lemma_first_cnt_skip(self.entries@, i as int, r);
                    assert(self.entries@.skip(i as int)[0] == self.entries@[i as int]);
                }
                return self.entries[i].1;
            }
            i = i + 1;
        }
        proof {
            lemma_first_cnt_skip(self.entries@, n as int, r);
            assert(self.entries@.skip(n as int) =~= Seq::<(ReplicaId, u64)>::empty());
        }
        0
    }

    /// Whether a scan of `other` dominates every local entry; total on
    /// any representation.
    #[verifier::loop_isolation(false)]
    fn led(&self, other: &Counts) -> (r: bool)
        ensures
            r == seq_led(self.entries@, other.entries@),
    {
        let n = self.entries.len();
        let mut i: usize = 0;
        while i < n
            invariant
                0 <= i <= n,
                forall|j: int| 0 <= j < i ==> (#[trigger] self.entries@[j]).1 <= first_cnt(
                    other.entries@,
                    self.entries@[j].0,
                ),
            decreases n - i,
        {
            if self.entries[i].1 > other.first_get(self.entries[i].0) {
                return false;
            }
            i = i + 1;
        }
        true
    }

    /// Representation equality by mutual domination; total on any
    /// representation.
    pub fn rep_equal(&self, other: &Counts) -> (r: bool)
        ensures
            r == self.rep_eq(other),
    {
        self.led(other) && other.led(self)
    }

    /// On well-formed count maps, representation equality is model
    /// equality.
    pub proof fn lemma_rep_eq_model(&self, other: &Counts)
        requires
            self.wf(),
            other.wf(),
        ensures
            self.rep_eq(other) <==> self@ == other@,
            self.rep_eq(other) <==> (leq_counts(self@, other@) && leq_counts(other@, self@)),
    {
        self.lemma_wf_ok();
        other.lemma_wf_ok();
        assert forall|r: ReplicaId| true implies #[trigger] first_cnt(self.entries@, r) == cnt(
            self@,
            r,
        ) by {
            lemma_first_cnt_model(self.entries@, r);
        }
        assert forall|r: ReplicaId| true implies #[trigger] first_cnt(other.entries@, r) == cnt(
            other@,
            r,
        ) by {
            lemma_first_cnt_model(other.entries@, r);
        }
        if seq_led(self.entries@, other.entries@) {
            assert forall|r: ReplicaId| #[trigger] cnt(self@, r) <= cnt(other@, r) by {
                lemma_alist_dom(self.entries@, r);
                if self@.dom().contains(r) {
                    let i = choose|i: int|
                        0 <= i < self.entries@.len() && (#[trigger] self.entries@[i]).0 == r;
                    lemma_alist_get(self.entries@, i);
                }
            }
        }
        if seq_led(other.entries@, self.entries@) {
            assert forall|r: ReplicaId| #[trigger] cnt(other@, r) <= cnt(self@, r) by {
                lemma_alist_dom(other.entries@, r);
                if other@.dom().contains(r) {
                    let i = choose|i: int|
                        0 <= i < other.entries@.len() && (#[trigger] other.entries@[i]).0 == r;
                    lemma_alist_get(other.entries@, i);
                }
            }
        }
        if leq_counts(self@, other@) && leq_counts(other@, self@) {
            assert forall|i: int|
                0 <= i < self.entries@.len() implies (#[trigger] self.entries@[i]).1 <= first_cnt(
                other.entries@,
                self.entries@[i].0,
            ) by {
                lemma_alist_get(self.entries@, i);
            }
            assert forall|i: int|
                0 <= i < other.entries@.len() implies (#[trigger] other.entries@[i]).1
                    <= first_cnt(self.entries@, other.entries@[i].0) by {
                lemma_alist_get(other.entries@, i);
            }
            assert forall|r: ReplicaId|
                #[trigger] self@.dom().contains(r) <==> #[trigger] other@.dom().contains(r) by {
                assert(cnt(self@, r) == cnt(other@, r));
                if self@.dom().contains(r) {
                    assert(cnt(other@, r) >= 1);
                }
                if other@.dom().contains(r) {
                    assert(cnt(self@, r) >= 1);
                }
            }
            assert forall|r: ReplicaId| #[trigger] self@.dom().contains(r) implies self@[r]
                == other@[r] by {
                assert(cnt(self@, r) == cnt(other@, r));
            }
            assert(self@ =~= other@);
        }
        if self@ == other@ {
            assert(leq_counts(self@, other@));
        }
    }

    /// Whether every local count is dominated by `other`.
    #[verifier::loop_isolation(false)]
    pub fn leq(&self, other: &Counts) -> (r: bool)
        requires
            self.wf(),
            other.wf(),
        ensures
            r == leq_counts(self@, other@),
    {
        let n = self.entries.len();
        let mut i: usize = 0;
        while i < n
            invariant
                n == self.entries@.len(),
                0 <= i <= n,
                forall|j: int|
                    0 <= j < i ==> (#[trigger] self.entries@[j]).1 <= cnt(other@, self.entries@[j].0),
            decreases n - i,
        {
            let p = self.entries[i];
            proof {
                lemma_alist_get(self.entries@, i as int);
            }
            if other.get(p.0) < p.1 {
                assert(cnt(self@, p.0) > cnt(other@, p.0));
                return false;
            }
            i = i + 1;
        }
        proof {
            assert forall|r: ReplicaId| #[trigger] cnt(self@, r) <= cnt(other@, r) by {
                lemma_alist_dom(self.entries@, r);
                if self@.dom().contains(r) {
                    let j = choose|j: int| 0 <= j < self.entries@.len() && (#[trigger] self.entries@[j]).0 == r;
                    lemma_alist_get(self.entries@, j);
                }
            }
        }
        true
    }

    /// The replicas that have an entry, in storage order.
    #[verifier::loop_isolation(false)]
    pub fn keys(&self) -> (r: Vec<ReplicaId>)
        requires
            self.wf(),
        ensures
            r@.no_duplicates(),
            forall|k: ReplicaId| r@.contains(k) <==> self@.dom().contains(k),
    {
        let n = self.entries.len();
        let mut out: Vec<ReplicaId> = Vec::new();
        let mut i: usize = 0;
        while i < n
            invariant
                n == self.entries@.len(),
                0 <= i <= n,
                out@.len() == i,
                forall|j: int| 0 <= j < i ==> out@[j] == (#[trigger] self.entries@[j]).0,
            decreases n - i,
        {
            out.push(self.entries[i].0);
            i = i + 1;
        }
        proof {
            assert forall|k: ReplicaId| out@.contains(k) <==> self@.dom().contains(k) by {
                lemma_alist_dom(self.entries@, k);
                if out@.contains(k) {
                    let j = choose|j: int| 0 <= j < out@.len() && out@[j] == k;
                    assert(self.entries@[j].0 == k);
                }
                if self@.dom().contains(k) {
                    let j = choose|j: int| 0 <= j < self.entries@.len() && (#[trigger] self.entries@[j]).0 == k;
                    assert(out@[j] == k);
                }
            }
            assert forall|i: int, j: int| 0 <= i < j < out@.len() implies out@[i] != out@[j] by {
                assert(self.entries@[i].0 != self.entries@[j].0);
            }
        }
        out
    }
}


/// Extending one association list with another, combining the values of
/// colliding keys with a caller-supplied function.
pub trait ExtendWith<V>: Sized {
    /// Representation well-formedness the operation preserves.
    spec fn extend_wf(&self) -> bool;

    /// Fold `b` into `a`: keys are united, and a colliding key keeps the
    /// combined value.
    fn extend_with<F: Fn(V, V) -> V>(a: &mut Self, b: Self, merge: F)
        requires
            old(a).extend_wf(),
            b.extend_wf(),
            forall|x: V, y: V| #[trigger] call_requires(merge, (x, y)),
        ensures
            final(a).extend_wf(),
    ;
}

impl ExtendWith<u64> for Vec<(ReplicaId, u64)> {
    open spec fn extend_wf(&self) -> bool {
        alist_unique(self@)
    }

    #[verifier::loop_isolation(false)]
    fn extend_with<F: Fn(u64, u64) -> u64>(a: &mut Self, b: Self, merge: F)
        ensures
            forall|r: ReplicaId| #[trigger]
                alist_counts(final(a)@).dom().contains(r) <==> alist_counts(
                    old(a)@,
                ).dom().contains(r) || alist_counts(b@).dom().contains(r),
            forall|r: ReplicaId| #[trigger]
                alist_counts(final(a)@).dom().contains(r) ==> {
                    if alist_counts(old(a)@).dom().contains(r) && alist_counts(
                        b@,
                    ).dom().contains(r) {
                        call_ensures(
                            merge,
                            (alist_counts(old(a)@)[r], alist_counts(b@)[r]),
                            alist_counts(final(a)@)[r],
                        )
                    } else if alist_counts(old(a)@).dom().contains(r) {
                        alist_counts(final(a)@)[r] == alist_counts(old(a)@)[r]
                    } else {
                        alist_counts(final(a)@)[r] == alist_counts(b@)[r]
                    }
                },
    {
        proof {
            assert(b@.take(0) =~= Seq::<(ReplicaId, u64)>::empty());
        }
        let n = b.len();
        let mut j: usize = 0;
        while j < n
            invariant
                0 <= j <= n,
                alist_unique(a@),
                forall|r: ReplicaId| #[trigger]
                    alist_counts(a@).dom().contains(r) <==> alist_counts(
                        old(a)@,
                    ).dom().contains(r) || alist_counts(b@.take(j as int)).dom().contains(r),
                forall|r: ReplicaId| #[trigger]
                    alist_counts(a@).dom().contains(r) ==> {
                        if alist_counts(old(a)@).dom().contains(r) && alist_counts(
                            b@.take(j as int),
                        ).dom().contains(r) {
                            call_ensures(
                                merge,
                                (alist_counts(old(a)@)[r], alist_counts(b@)[r]),
                                alist_counts(a@)[r],
                            )
                        } else if alist_counts(old(a)@).dom().contains(r) {
                            alist_counts(a@)[r] == alist_counts(old(a)@)[r]
                        } else {
                            alist_counts(a@)[r] == alist_counts(b@)[r]
                        }
                    },
            decreases n - j,
        {
            let ghost ah = a@;
            proof {
                lemma_alist_get(b@, j as int);
                lemma_alist_dom(b@.take(j as int), b@[j as int].0);
                assert(forall|l: int| 0 <= l < j ==> #[trigger] b@.take(j as int)[l] == b@[l]);
                assert(!alist_counts(b@.take(j as int)).dom().contains(b@[j as int].0));
                assert(b@.take(j as int + 1).drop_last() =~= b@.take(j as int));
                assert(alist_counts(b@.take(j as int + 1)) == alist_counts(
                    b@.take(j as int),
                ).insert(b@[j as int].0, b@[j as int].1));
            }
            let p = b[j];
            let r = p.0;
            let v = p.1;
            let m = a.len();
            let mut i: usize = 0;
            let mut updated = false;
            while i < m && !updated
                invariant
                    0 <= i <= m,
                    m == ah.len(),
                    !updated ==> a@ == ah && forall|l: int| 0 <= l < i ==> (#[trigger] ah[l]).0
                        != r,
                    updated ==> {
                        &&& alist_unique(a@)
                        &&& alist_counts(ah).dom().contains(r)
                        &&& call_ensures(
                            merge,
                            (alist_counts(ah)[r], v),
                            alist_counts(a@)[r],
                        )
                        &&& alist_counts(a@) == alist_counts(ah).insert(r, alist_counts(a@)[r])
                    },
                decreases m - i + if updated {
                    0int
                } else {
                    1int
                },
            {
                if a[i].0 == r {
                    let cur = a[i].1;
                    proof {
                        lemma_alist_get(ah, i as int);
                    }
                    let w = merge(cur, v);
                    a[i] = (r, w);
                    proof {
                        lemma_alist_update(ah, i as int, w);
                        assert(alist_counts(a@) =~= alist_counts(ah).insert(r, w));
                        assert(alist_counts(a@).dom().contains(r) && alist_counts(a@)[r] == w);
                    }
                    updated = true;
                } else {
                    i = i + 1;
                }
            }
            if !updated {
                proof {
                    lemma_alist_dom(a@, r);
                }
                a.push((r, v));
                proof {
                    assert(a@.drop_last() =~= ah);
                    assert(alist_counts(a@) == alist_counts(ah).insert(r, v));
                }
            }
            proof {
                assert forall|r2: ReplicaId| #[trigger]
                    alist_counts(a@).dom().contains(r2) implies {
                    if alist_counts(old(a)@).dom().contains(r2) && alist_counts(
                        b@.take(j as int + 1),
                    ).dom().contains(r2) {
                        call_ensures(
                            merge,
                            (alist_counts(old(a)@)[r2], alist_counts(b@)[r2]),
                            alist_counts(a@)[r2],
                        )
                    } else if alist_counts(old(a)@).dom().contains(r2) {
                        alist_counts(a@)[r2] == alist_counts(old(a)@)[r2]
                    } else {
                        alist_counts(a@)[r2] == alist_counts(b@)[r2]
                    }
                } by {
                    if r2 == r {
                        assert(alist_counts(b@)[r] == v);
                    } else {
                        assert(alist_counts(a@)[r2] == alist_counts(ah)[r2]);
                        assert(alist_counts(ah).dom().contains(r2));
                    }
                }
            }
            j = j + 1;
        }
        proof {
            assert(b@.take(n as int) =~= b@);
        }
    }
}

} // verus!