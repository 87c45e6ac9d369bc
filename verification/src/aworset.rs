//! The dot kernel and the add-wins observed-remove set built on it.
//!
//! Every element occurrence is tagged with a unique *dot*, the identity of
//! one event on one replica.  A `DotContext` records causal history as a
//! compact clock plus a set of loose dots; a `DotKernel` pairs a context
//! with a map from dots to elements, where a dot known to the context but
//! absent from the map is a tombstone.  `AWORSet` composes a state kernel
//! with a delta kernel buffering changes for shipment.

use crate::common::{cnt, counts_ok, Counts, ReplicaId};
use crate::gcounter::Convergent;
use vstd::prelude::*;

verus! {

/// A dot `(replica, seq)`: the unique name of the `seq`-th event on
/// `replica`.  Sequence numbers start at one.
#[derive(Clone, Copy, Debug, PartialEq, Eq, Structural, Hash)]
pub struct Dot(pub ReplicaId, pub u64);

/// Strict lexicographic order on dots, used for storage.
pub open spec fn dot_lt(a: Dot, b: Dot) -> bool {
    a.0 < b.0 || (a.0 == b.0 && a.1 < b.1)
}

pub open spec fn dots_sorted(s: Seq<Dot>) -> bool {
    forall|i: int, j: int| 0 <= i < j < s.len() ==> dot_lt(#[trigger] s[i], #[trigger] s[j])
}

/// The model of a causal history: a compact clock asserting that dots
/// `(r, 1) ..= (r, clock[r])` are known, plus the loose dots not yet
/// contiguous with the clock.
#[verifier::ext_equal]
pub ghost struct CtxView {
    pub clock: Map<ReplicaId, u64>,
    pub dots: Set<Dot>,
}

/// Whether the history `c` knows the dot `d`.
pub open spec fn ctx_contains(c: CtxView, d: Dot) -> bool {
    (1 <= d.1 && d.1 <= cnt(c.clock, d.0)) || c.dots.contains(d)
}

/// No loose dot could be folded into the clock: every loose `(r, k)` has
/// `k > clock[r] + 1`.
pub open spec fn ctx_compacted(c: CtxView) -> bool {
    forall|d: Dot| #[trigger] c.dots.contains(d) ==> d.1 > cnt(c.clock, d.0) + 1
}

/// A well-formed, fully compacted history model.
pub open spec fn ctx_ok(c: CtxView) -> bool {
    &&& counts_ok(c.clock)
    &&& c.dots.finite()
    &&& ctx_compacted(c)
}

/// In a well-formed history no loose dot could be folded: every loose
/// `(r, k)` lies strictly beyond one step past the clock, whatever
/// sequence of operations produced the history.
pub proof fn lemma_no_foldable_loose_dot(c: CtxView, d: Dot)
    requires
        ctx_ok(c),
        c.dots.contains(d),
    ensures
        d.1 > cnt(c.clock, d.0) + 1,
{
}

/// A compacted history is determined by the set of dots it knows.
pub proof fn lemma_ctx_determined(c1: CtxView, c2: CtxView)
    requires
        ctx_ok(c1),
        ctx_ok(c2),
        forall|d: Dot| ctx_contains(c1, d) <==> ctx_contains(c2, d),
    ensures
        c1 == c2,
{
    assert forall|r: ReplicaId| #[trigger] cnt(c1.clock, r) == cnt(c2.clock, r) by {
        if cnt(c1.clock, r) < cnt(c2.clock, r) {
            let d = Dot(r, (cnt(c1.clock, r) + 1) as u64);
            assert(ctx_contains(c2, d));
            assert(ctx_contains(c1, d));
            assert(c1.dots.contains(d) ==> d.1 > cnt(c1.clock, d.0) + 1);
            assert(false);
        }
        if cnt(c2.clock, r) < cnt(c1.clock, r) {
            let d = Dot(r, (cnt(c2.clock, r) + 1) as u64);
            assert(ctx_contains(c1, d));
            assert(ctx_contains(c2, d));
            assert(false);
        }
    }
    assert forall|r: ReplicaId|
        #[trigger] c1.clock.dom().contains(r) <==> #[trigger] c2.clock.dom().contains(r) by {
        assert(cnt(c1.clock, r) == cnt(c2.clock, r));
        if c1.clock.dom().contains(r) {
            assert(cnt(c2.clock, r) >= 1);
        }
        if c2.clock.dom().contains(r) {
            assert(cnt(c1.clock, r) >= 1);
        }
    }
    assert forall|r: ReplicaId| #[trigger] c1.clock.dom().contains(r) implies c1.clock[r]
        == c2.clock[r] by {
        assert(cnt(c1.clock, r) == cnt(c2.clock, r));
    }
    assert(c1.clock =~= c2.clock);
    assert forall|d: Dot| #[trigger] c1.dots.contains(d) implies c2.dots.contains(d) by {
        assert(ctx_contains(c2, d));
    }
    assert forall|d: Dot| #[trigger] c2.dots.contains(d) implies c1.dots.contains(d) by {
        assert(ctx_contains(c1, d));
    }
    assert(c1.dots =~= c2.dots);
    assert(c1 =~= c2);
}

/// The causal history of one replicated value: a compact vector clock and
/// the loose dots beyond it, kept eagerly compacted.
#[derive(Debug, PartialEq, Eq)]
pub struct DotContext {
    clock: Counts,
    dots: Vec<Dot>,
}

impl View for DotContext {
    type V = CtxView;

    closed spec fn view(&self) -> CtxView {
        CtxView { clock: self.clock@, dots: Set::new(|d: Dot| self.dots@.contains(d)) }
    }
}

impl Clone for DotContext {
    /// A deep copy with the same model.
    fn clone(&self) -> (res: Self)
        ensures
            res@ == self@,
            res.wf() == self.wf(),
            res.wf_loose() == self.wf_loose(),
    {
        let n = self.dots.len();
        let mut v: Vec<Dot> = Vec::new();
        let mut i: usize = 0;
        #[verifier::loop_isolation(false)]
        while i < n
            invariant
                0 <= i <= n,
                v@ =~= self.dots@.take(i as int),
            decreases n - i,
        {
            v.push(self.dots[i]);
            i = i + 1;
        }
        proof {
            assert(v@ =~= self.dots@);
        }
        let res = DotContext { clock: self.clock.clone(), dots: v };
        proof {
            assert(res@ =~= self@);
        }
        res
    }
}

proof fn lemma_dots_finite(s: Seq<Dot>)
    ensures
        Set::new(|d: Dot| s.contains(d)).finite(),
    decreases s.len(),
{
    if s.len() == 0 {
        assert(Set::new(|d: Dot| s.contains(d)) =~= Set::<Dot>::empty());
    } else {
        lemma_dots_finite(s.drop_last());
        assert forall|d: Dot| #[trigger]
            s.contains(d) <==> s.drop_last().contains(d) || d == s.last() by {
            if s.contains(d) {
                let l = choose|l: int| 0 <= l < s.len() && (#[trigger] s[l]) == d;
                if l < s.len() - 1 {
                    assert(s.drop_last()[l] == d);
                }
            }
            if s.drop_last().contains(d) {
                let l = choose|l: int|
                    0 <= l < s.drop_last().len() && (#[trigger] s.drop_last()[l]) == d;
                assert(s[l] == d);
            }
        }
        assert(Set::new(|d: Dot| s.contains(d)) =~= Set::new(
            |d: Dot| s.drop_last().contains(d),
        ).insert(s.last()));
    }
}

proof fn lemma_push_contains(s: Seq<Dot>, e: Dot, x: Dot)
    ensures
        s.push(e).contains(x) <==> s.contains(x) || x == e,
{
    if s.push(e).contains(x) {
        let l = choose|l: int| 0 <= l < s.push(e).len() && (#[trigger] s.push(e)[l]) == x;
        if l < s.len() {
            assert(s[l] == x);
        }
    }
    if s.contains(x) {
        let l = choose|l: int| 0 <= l < s.len() && (#[trigger] s[l]) == x;
        assert(s.push(e)[l] == x);
    }
    if x == e {
        assert(s.push(e)[s.len() as int] == x);
    }
}

proof fn lemma_skip_contains(s: Seq<Dot>, i: int, x: Dot)
    requires
        0 <= i < s.len(),
    ensures
        s.skip(i).contains(x) <==> x == s[i] || s.skip(i + 1).contains(x),
{
    if s.skip(i).contains(x) {
        let l = choose|l: int| 0 <= l < s.skip(i).len() && (#[trigger] s.skip(i)[l]) == x;
        if l > 0 {
            assert(s.skip(i + 1)[l - 1] == x);
        }
    }
    if s.skip(i + 1).contains(x) {
        let l = choose|l: int| 0 <= l < s.skip(i + 1).len() && (#[trigger] s.skip(i + 1)[l]) == x;
        assert(s.skip(i)[l + 1] == x);
    }
    if x == s[i] {
        assert(s.skip(i)[0] == x);
    }
}

proof fn lemma_take_contains(s: Seq<Dot>, i: int, x: Dot)
    requires
        0 <= i < s.len(),
    ensures
        s.take(i + 1).contains(x) <==> s.take(i).contains(x) || x == s[i],
{
    if s.take(i + 1).contains(x) {
        let l = choose|l: int| 0 <= l < s.take(i + 1).len() && (#[trigger] s.take(i + 1)[l]) == x;
        if l < i {
            assert(s.take(i)[l] == x);
        }
    }
    if s.take(i).contains(x) {
        let l = choose|l: int| 0 <= l < s.take(i).len() && (#[trigger] s.take(i)[l]) == x;
        assert(s.take(i + 1)[l] == x);
    }
    if x == s[i] {
        assert(s.take(i + 1)[i] == x);
    }
}

/// Exec comparison realizing `dot_lt`.
fn dot_before(a: &Dot, b: &Dot) -> (r: bool)
    ensures
        r == dot_lt(*a, *b),
{
    a.0 < b.0 || (a.0 == b.0 && a.1 < b.1)
}

/// Insert `dot` into a sorted dot list, keeping it sorted and duplicate
/// free.
#[verifier::loop_isolation(false)]
fn insert_dot(v: &mut Vec<Dot>, dot: Dot)
    requires
        dots_sorted(old(v)@),
    ensures
        dots_sorted(final(v)@),
        forall|d: Dot| final(v)@.contains(d) <==> old(v)@.contains(d) || d == dot,
{
    let n = v.len();
    let mut i: usize = 0;
    while i < n && dot_before(&v[i], &dot)
        invariant
            0 <= i <= n,
            v@ == old(v)@,
            forall|j: int| 0 <= j < i ==> dot_lt(#[trigger] v@[j], dot),
        decreases n - i,
    {
        i = i + 1;
    }
    if i < n && v[i] == dot {
        proof {
            assert(forall|d: Dot| v@.contains(d) ==> (v@.contains(d) || d == dot));
            assert(v@.contains(dot));
        }
        return ;
    }
    proof {
        assert(forall|j: int| i <= j < n ==> !dot_lt(#[trigger] v@[j], dot));
        assert(forall|j: int| i <= j < n ==> v@[j] != dot) by {
            if i < n {
                assert(v@[i as int] != dot);
                assert(forall|j: int|
                    i < j < n ==> dot_lt(#[trigger] v@[i as int], v@[j]));
            }
        }
    }
    v.insert(i, dot);
    proof {
        let s = v@;
        assert forall|a: int, b: int| 0 <= a < b < s.len() implies dot_lt(s[a], s[b]) by {
            if a < i && b == i {
            } else if a == i && b > i {
                assert(s[b] == old(v)@[b - 1]);
                assert(!dot_lt(old(v)@[b - 1], dot));
                assert(old(v)@[b - 1] != dot);
            } else if a < i && b > i {
                assert(s[a] == old(v)@[a] && s[b] == old(v)@[b - 1]);
            } else if a > i && b > i {
                assert(s[a] == old(v)@[a - 1] && s[b] == old(v)@[b - 1]);
            }
        }
        assert forall|d: Dot| s.contains(d) <==> old(v)@.contains(d) || d == dot by {
            if s.contains(d) {
                let l = choose|l: int| 0 <= l < s.len() && s[l] == d;
                if l < i {
                    assert(old(v)@[l] == d);
                } else if l > i {
                    assert(old(v)@[l - 1] == d);
                }
            }
            if old(v)@.contains(d) {
                let l = choose|l: int| 0 <= l < old(v)@.len() && old(v)@[l] == d;
                if l < i {
                    assert(s[l] == d);
                } else {
                    assert(s[l + 1] == d);
                }
            }
            if d == dot {
                assert(s[i as int] == d);
            }
        }
    }
}

impl DotContext {
    /// Representation well-formedness, except that loose dots may still be
    /// foldable; compaction restores the full invariant.
    pub closed spec fn wf_loose(&self) -> bool {
        &&& self.clock.wf()
        &&& dots_sorted(self.dots@)
        &&& forall|l: int| 0 <= l < self.dots@.len() ==> (#[trigger] self.dots@[l]).1 >= 1
    }

    /// Full well-formedness: eagerly compacted causal history.
    pub closed spec fn wf(&self) -> bool {
        &&& self.wf_loose()
        &&& ctx_compacted(self@)
    }

    pub proof fn lemma_wf_ok(&self)
        requires
            self.wf(),
        ensures
            ctx_ok(self@),
    {
        self.clock.lemma_wf_ok();
        lemma_dots_finite(self.dots@);
    }

    pub fn new() -> (c: DotContext)
        ensures
            c.wf(),
            c@.clock =~= Map::<ReplicaId, u64>::empty(),
            c@.dots =~= Set::<Dot>::empty(),
    {
        let c = DotContext { clock: Counts::new(), dots: Vec::new() };
        proof {
            assert(c@.dots =~= Set::<Dot>::empty());
        }
        c
    }

    /// Whether this history knows `dot`.
    #[verifier::loop_isolation(false)]
    pub fn contains(&self, dot: &Dot) -> (r: bool)
        requires
            self.wf_loose(),
        ensures
            r == ctx_contains(self@, *dot),
    {
        if dot.1 >= 1 && self.clock.get(dot.0) >= dot.1 {
            return true;
        }
        let n = self.dots.len();
        let mut i: usize = 0;
        while i < n
            invariant
                0 <= i <= n,
                forall|j: int| 0 <= j < i ==> self.dots@[j] != *dot,
            decreases n - i,
        {
            if self.dots[i] == *dot {
                assert(self.dots@.contains(*dot));
                return true;
            }
            i = i + 1;
        }
        assert(!self.dots@.contains(*dot));
        false
    }

    /// Record `dot` as a loose dot; the caller compacts afterwards.
    pub fn add(&mut self, dot: Dot)
        requires
            old(self).wf_loose(),
            dot.1 >= 1,
        ensures
            final(self).wf_loose(),
            final(self)@.clock == old(self)@.clock,
            final(self)@.dots =~= old(self)@.dots.insert(dot),
    {
        insert_dot(&mut self.dots, dot);
        proof {
            assert(self@.dots =~= old(self)@.dots.insert(dot));
            assert forall|l: int| 0 <= l < self.dots@.len() implies (#[trigger] self.dots@[l]).1
                >= 1 by {
                if old(self).dots@.contains(self.dots@[l]) {
                    let j = choose|j: int|
                        0 <= j < old(self).dots@.len() && old(self).dots@[j] == self.dots@[l];
                }
            }
        }
    }

    /// Whether this history is empty.
    pub fn is_empty(&self) -> (r: bool)
        ensures
            r <==> (self@.clock =~= Map::<ReplicaId, u64>::empty() && self@.dots =~= Set::<
                Dot,
            >::empty()),
    {
        let clock_empty = self.clock.is_empty();
        let dots_empty = self.dots.is_empty();
        proof {
            if self.dots@.len() == 0 {
                assert(self@.dots =~= Set::<Dot>::empty());
            } else {
                assert(self.dots@.contains(self.dots@[0]));
                assert(self@.dots.contains(self.dots@[0]));
            }
        }
        clock_empty && dots_empty
    }

    /// Fold loose dots into the clock until none can be folded: a loose
    /// `(r, k)` with `k <= clock[r]` is dropped as already covered, and one
    /// with `k == clock[r] + 1` extends the clock.  A single ascending pass
    /// reaches the fixpoint.  The set of known dots is unchanged.
    #[verifier::loop_isolation(false)]
    pub fn compact(&mut self)
        requires
            old(self).wf_loose(),
        ensures
            final(self).wf(),
            forall|d: Dot| #![trigger ctx_contains(final(self)@, d)]
                ctx_contains(final(self)@, d) <==> ctx_contains(old(self)@, d),
            forall|r: ReplicaId| cnt(final(self)@.clock, r) >= cnt(old(self)@.clock, r),
    {
        let n = self.dots.len();
        let mut kept: Vec<Dot> = Vec::new();
        let mut i: usize = 0;
        proof {
            assert(old(self).dots@.skip(0) =~= old(self).dots@);
        }
        while i < n
            invariant
                0 <= i <= n,
                self.dots == old(self).dots,
                self.clock.wf(),
                forall|r: ReplicaId| #[trigger] cnt(self.clock@, r) >= cnt(old(self).clock@, r),
                forall|l: int|
                    0 <= l < kept@.len() ==> exists|j: int|
                        0 <= j < i && old(self).dots@[j] == #[trigger] kept@[l],
                dots_sorted(kept@),
                forall|l: int|
                    0 <= l < kept@.len() ==> (#[trigger] kept@[l]).1 > cnt(self.clock@, kept@[l].0)
                        + 1,
                forall|d: Dot| #![trigger ctx_contains(old(self)@, d)]
                    ctx_contains(old(self)@, d) <==> ((1 <= d.1 && d.1 <= cnt(self.clock@, d.0))
                        || kept@.contains(d) || old(self).dots@.skip(i as int).contains(d)),
            decreases n - i,
        {
            let d = self.dots[i];
            proof {
                assert forall|x: Dot|
                    old(self).dots@.skip(i as int).contains(x) <==> x == d || old(
                    self,
                ).dots@.skip(i as int + 1).contains(x) by {
                    lemma_skip_contains(old(self).dots@, i as int, x);
                }
                assert(d.1 >= 1);
            }
            let c = self.clock.get(d.0);
            if d.1 <= c {
                // already covered by the clock
                proof {
                    assert(1 <= d.1 && d.1 <= cnt(self.clock@, d.0));
                    assert forall|x: Dot|
                        ctx_contains(old(self)@, x) <==> ((1 <= x.1 && x.1 <= cnt(
                            self.clock@,
                            x.0,
                        )) || kept@.contains(x) || old(self).dots@.skip(i as int + 1).contains(
                            x,
                        )) by {
                        assert(ctx_contains(old(self)@, x) <==> ((1 <= x.1 && x.1 <= cnt(
                            self.clock@,
                            x.0,
                        )) || kept@.contains(x) || old(self).dots@.skip(i as int).contains(x)));
                        lemma_skip_contains(old(self).dots@, i as int, x);
                    }
                }
            } else if d.1 - 1 == c {
                // contiguous: extend the clock
                proof {
                    assert forall|l: int| 0 <= l < kept@.len() implies (#[trigger] kept@[l]).0
                        != d.0 by {
                        if kept@[l].0 == d.0 {
                            let j = choose|j: int|
                                0 <= j < i && old(self).dots@[j] == #[trigger] kept@[l];
                            assert(dot_lt(old(self).dots@[j], old(self).dots@[i as int]));
                            assert(kept@[l].1 < d.1);
                            assert(kept@[l].1 > cnt(self.clock@, d.0) + 1);
                        }
                    }
                }
                let ghost pc = self.clock@;
                self.clock.inc(d.0);
                proof {
                    assert(cnt(self.clock@, d.0) == d.1);
                    assert(forall|r: ReplicaId| r != d.0 ==> cnt(self.clock@, r) == cnt(pc, r));
                    assert forall|r: ReplicaId| #[trigger] cnt(self.clock@, r) >= cnt(
                        old(self).clock@,
                        r,
                    ) by {
                        assert(cnt(pc, r) >= cnt(old(self).clock@, r));
                        if r != d.0 {
                            assert(cnt(self.clock@, r) == cnt(pc, r));
                        }
                    }
                    assert forall|x: Dot|
                        ctx_contains(old(self)@, x) <==> ((1 <= x.1 && x.1 <= cnt(
                            self.clock@,
                            x.0,
                        )) || kept@.contains(x) || old(self).dots@.skip(i as int + 1).contains(
                            x,
                        )) by {
                        assert(ctx_contains(old(self)@, x) <==> ((1 <= x.1 && x.1 <= cnt(
                            pc,
                            x.0,
                        )) || kept@.contains(x) || old(self).dots@.skip(i as int).contains(x)));
                        lemma_skip_contains(old(self).dots@, i as int, x);
                        if x.0 != d.0 {
                            assert(cnt(self.clock@, x.0) == cnt(pc, x.0));
                        }
                        if x.0 == d.0 && 1 <= x.1 && x.1 <= cnt(self.clock@, x.0) && !(x.1 <= cnt(
                            pc,
                            x.0,
                        )) {
                            assert(x.1 == d.1);
                            assert(x == d);
                        }
                    }
                    assert forall|l: int|
                        0 <= l < kept@.len() implies (#[trigger] kept@[l]).1 > cnt(
                        self.clock@,
                        kept@[l].0,
                    ) + 1 by {
                        assert(kept@[l].0 != d.0);
                        assert(cnt(self.clock@, kept@[l].0) == cnt(pc, kept@[l].0));
                    }
                }
            } else {
                // still loose
                proof {
                    assert forall|l: int| 0 <= l < kept@.len() implies dot_lt(
                        #[trigger] kept@[l],
                        d,
                    ) by {
                        let j = choose|j: int|
                            0 <= j < i && old(self).dots@[j] == #[trigger] kept@[l];
                        assert(dot_lt(old(self).dots@[j], old(self).dots@[i as int]));
                    }
                    assert forall|x: Dot| #[trigger]
                        kept@.push(d).contains(x) <==> kept@.contains(x) || x == d by {
                        lemma_push_contains(kept@, d, x);
                    }
                }
                let ghost pk = kept@;
                kept.push(d);
                proof {
                    assert(kept@ == pk.push(d));
                    assert forall|l: int|
                        0 <= l < kept@.len() implies exists|j: int|
                        0 <= j < i + 1 && old(self).dots@[j] == #[trigger] kept@[l] by {
                        if l < kept@.len() - 1 {
                            assert(kept@[l] == pk[l]);
                            let j = choose|j: int|
                                0 <= j < i && old(self).dots@[j] == #[trigger] pk[l];
                            assert(0 <= j < i + 1 && old(self).dots@[j] == kept@[l]);
                        } else {
                            assert(old(self).dots@[i as int] == kept@[l]);
                        }
                    }
                    assert forall|x: Dot|
                        ctx_contains(old(self)@, x) <==> ((1 <= x.1 && x.1 <= cnt(
                            self.clock@,
                            x.0,
                        )) || kept@.contains(x) || old(self).dots@.skip(i as int + 1).contains(
                            x,
                        )) by {
                        assert(ctx_contains(old(self)@, x) <==> ((1 <= x.1 && x.1 <= cnt(
                            self.clock@,
                            x.0,
                        )) || pk.contains(x) || old(self).dots@.skip(i as int).contains(x)));
                        lemma_skip_contains(old(self).dots@, i as int, x);
                        lemma_push_contains(pk, d, x);
                    }
                }
            }
            i = i + 1;
        }
        proof {
            assert(old(self).dots@.skip(n as int) =~= Seq::<Dot>::empty());
            assert(forall|d: Dot| !old(self).dots@.skip(n as int).contains(d));
        }
        self.dots = kept;
        proof {
            assert forall|l: int|
                0 <= l < self.dots@.len() implies (#[trigger] self.dots@[l]).1 >= 1 by {
                assert(self.dots@[l].1 > cnt(self.clock@, self.dots@[l].0) + 1);
            }
            assert forall|d: Dot| #[trigger]
                self@.dots.contains(d) implies d.1 > cnt(self@.clock, d.0) + 1 by {
                let l = choose|l: int| 0 <= l < kept@.len() && (#[trigger] kept@[l]) == d;
            }
            assert forall|d: Dot| ctx_contains(self@, d) <==> ctx_contains(old(self)@, d) by {
                assert(!old(self).dots@.skip(n as int).contains(d));
                assert(self@.dots.contains(d) <==> kept@.contains(d));
            }
        }
    }

    /// Mint the next dot of `replica`: `(replica, clock[replica] + 1)`.
    /// The returned dot was not previously known, and is known afterwards.
    pub fn next_dot(&mut self, replica: ReplicaId) -> (d: Dot)
        requires
            old(self).wf(),
            cnt(old(self)@.clock, replica) < u64::MAX,
        ensures
            final(self).wf(),
            d == Dot(replica, (cnt(old(self)@.clock, replica) + 1) as u64),
            !ctx_contains(old(self)@, d),
            forall|x: Dot| #![trigger ctx_contains(final(self)@, x)]
                ctx_contains(final(self)@, x) <==> ctx_contains(old(self)@, x) || x == d,
            forall|r: ReplicaId| cnt(final(self)@.clock, r) >= cnt(old(self)@.clock, r),
            cnt(final(self)@.clock, replica) >= d.1,
    {
        let ghost pre = self@;
        let v = self.clock.inc(replica);
        let ghost mid = self@;
        proof {
            assert(forall|x: Dot|
                ctx_contains(mid, x) <==> ctx_contains(pre, x) || x == Dot(replica, v));
            assert(!ctx_contains(pre, Dot(replica, v))) by {
                assert(pre.dots.contains(Dot(replica, v)) ==> v > cnt(pre.clock, replica) + 1);
            }
        }
        self.compact();
        Dot(replica, v)
    }

    /// Pointwise maximum on the clocks, union on the loose dots, then
    /// compaction: afterwards a dot is known exactly when either history
    /// knew it.
    #[verifier::loop_isolation(false)]
    pub fn merge(&mut self, other: Self)
        requires
            old(self).wf(),
            other.wf(),
        ensures
            final(self).wf(),
            forall|d: Dot| #![trigger ctx_contains(final(self)@, d)]
                ctx_contains(final(self)@, d) <==> ctx_contains(old(self)@, d) || ctx_contains(
                    other@,
                    d,
                ),
            forall|r: ReplicaId| cnt(final(self)@.clock, r) >= cnt(old(self)@.clock, r) && cnt(
                final(self)@.clock,
                r,
            ) >= cnt(other@.clock, r),
    {
        proof {
            self.clock.lemma_wf_ok();
            other.clock.lemma_wf_ok();
        }
        self.clock.merge_from(&other.clock);
        let ghost pre = self@;
        proof {
            crate::common::lemma_join_counts_ok(old(self)@.clock, other@.clock);
        }
        let n = other.dots.len();
        let mut j: usize = 0;
        while j < n
            invariant
                0 <= j <= n,
                self.wf_loose(),
                self@.clock == pre.clock,
                forall|d: Dot|
                    self.dots@.contains(d) <==> old(self).dots@.contains(d) || other.dots@.take(
                        j as int,
                    ).contains(d),
            decreases n - j,
        {
            proof {
                assert forall|d: Dot|
                    other.dots@.take(j as int + 1).contains(d) <==> other.dots@.take(
                    j as int,
                ).contains(d) || d == other.dots@[j as int] by {
                    lemma_take_contains(other.dots@, j as int, d);
                }
            }
            insert_dot(&mut self.dots, other.dots[j]);
            proof {
                assert forall|l: int|
                    0 <= l < self.dots@.len() implies (#[trigger] self.dots@[l]).1 >= 1 by {
                    let d = self.dots@[l];
                    if old(self).dots@.contains(d) {
                        let x = choose|x: int|
                            0 <= x < old(self).dots@.len() && old(self).dots@[x] == d;
                    } else if other.dots@.take(j as int).contains(d) {
                        let x = choose|x: int|
                            0 <= x < j && other.dots@.take(j as int)[x] == d;
                        assert(other.dots@[x] == d);
                    } else {
                        assert(d == other.dots@[j as int]);
                    }
                }
            }
            j = j + 1;
        }
        proof {
            assert(other.dots@.take(n as int) =~= other.dots@);
        }
        self.compact();
    }
}


/// The model of a dot kernel: a causal history and a map from live dots to
/// elements.  A dot the history knows without a live entry is a tombstone.
#[verifier::ext_equal]
pub ghost struct KernelView {
    pub ctx: CtxView,
    pub entries: Map<Dot, Seq<char>>,
}

/// A well-formed kernel model: every live dot is known to the history.
pub open spec fn kernel_ok(k: KernelView) -> bool {
    &&& ctx_ok(k.ctx)
    &&& k.entries.dom().finite()
    &&& forall|d: Dot| #[trigger] k.entries.dom().contains(d) ==> ctx_contains(k.ctx, d)
}

/// The history knows `d` but no entry is live for it any more.
pub open spec fn tombstoned(k: KernelView, d: Dot) -> bool {
    ctx_contains(k.ctx, d) && !k.entries.dom().contains(d)
}

/// The live entries after merging `b` into `a`: `a`'s entries that `b` has
/// not observed and retracted, plus `b`'s entries genuinely new to `a`.
pub open spec fn join_entries(a: KernelView, b: KernelView) -> Map<Dot, Seq<char>> {
    Map::new(
        |d: Dot| (a.entries.dom().contains(d) && !tombstoned(b, d)) || (b.entries.dom().contains(
            d,
        ) && !a.entries.dom().contains(d) && !ctx_contains(a.ctx, d)),
        |d: Dot|
            if a.entries.dom().contains(d) {
                a.entries[d]
            } else {
                b.entries[d]
            },
    )
}

/// The live entries after removing every occurrence of the element `e`.
pub open spec fn entries_minus(m: Map<Dot, Seq<char>>, e: Seq<char>) -> Map<Dot, Seq<char>> {
    Map::new(|d: Dot| m.dom().contains(d) && m[d] != e, |d: Dot| m[d])
}

/// The dots carrying the element `e`.
pub open spec fn entry_dots_of(m: Map<Dot, Seq<char>>, e: Seq<char>) -> Set<Dot> {
    Set::new(|d: Dot| m.dom().contains(d) && m[d] == e)
}

/// The elements a kernel holds.
pub open spec fn kernel_elems(k: KernelView) -> Set<Seq<char>> {
    Set::new(
        |e: Seq<char>| exists|d: Dot| #[trigger] k.entries.dom().contains(d) && k.entries[d] == e,
    )
}

/// The model of a stored entry list.
pub open spec fn alist_entries(s: Seq<(Dot, String)>) -> Map<Dot, Seq<char>>
    decreases s.len(),
{
    if s.len() == 0 {
        Map::<Dot, Seq<char>>::empty()
    } else {
        alist_entries(s.drop_last()).insert(s.last().0, s.last().1@)
    }
}

pub open spec fn entry_keys_unique(s: Seq<(Dot, String)>) -> bool {
    forall|i: int, j: int| 0 <= i < j < s.len() ==> (#[trigger] s[i]).0 != (#[trigger] s[j]).0
}

proof fn lemma_entries_dom(s: Seq<(Dot, String)>, d: Dot)
    ensures
        alist_entries(s).dom().contains(d) <==> exists|i: int|
            0 <= i < s.len() && (#[trigger] s[i]).0 == d,
    decreases s.len(),
{
    if s.len() > 0 {
        lemma_entries_dom(s.drop_last(), d);
        if alist_entries(s).dom().contains(d) {
            if s.last().0 != d {
                let i = choose|i: int|
                    0 <= i < s.drop_last().len() && (#[trigger] s.drop_last()[i]).0 == d;
                assert(s[i].0 == d);
            } else {
                assert(s[s.len() - 1].0 == d);
            }
        } else {
            assert(forall|i: int| 0 <= i < s.drop_last().len() ==> s.drop_last()[i] == s[i]);
        }
    }
}

proof fn lemma_entries_get(s: Seq<(Dot, String)>, i: int)
    requires
        entry_keys_unique(s),
        0 <= i < s.len(),
    ensures
        alist_entries(s).dom().contains(s[i].0),
        alist_entries(s)[s[i].0] == s[i].1@,
    decreases s.len(),
{
    if i == s.len() - 1 {
    } else {
        lemma_entries_get(s.drop_last(), i);
        assert(s.drop_last()[i] == s[i]);
        assert(s.last().0 != s[i].0);
    }
}

proof fn lemma_entries_finite(s: Seq<(Dot, String)>)
    ensures
        alist_entries(s).dom().finite(),
    decreases s.len(),
{
    if s.len() > 0 {
        lemma_entries_finite(s.drop_last());
    }
}

proof fn lemma_entries_update(s: Seq<(Dot, String)>, i: int, v: String)
    requires
        entry_keys_unique(s),
        0 <= i < s.len(),
    ensures
        alist_entries(s.update(i, (s[i].0, v))) =~= alist_entries(s).insert(s[i].0, v@),
    decreases s.len(),
{
    let t = s.update(i, (s[i].0, v));
    if i == s.len() - 1 {
        assert(t.drop_last() =~= s.drop_last());
    } else {
        lemma_entries_update(s.drop_last(), i, v);
        assert(t.drop_last() =~= s.drop_last().update(i, (s[i].0, v)));
        assert(s.drop_last()[i] == s[i]);
        assert(s.last().0 != s[i].0);
        assert(t.last() == s.last());
    }
}

/// The shared substrate of the add-wins types: a causal history plus a map
/// from live dots to elements.  Removal forgets the entry but keeps the
/// dot in the history, preventing resurrection by late-arriving merges.
#[derive(Debug, PartialEq, Eq)]
pub struct DotKernel {
    context: DotContext,
    entries: Vec<(Dot, String)>,
}

impl View for DotKernel {
    type V = KernelView;

    closed spec fn view(&self) -> KernelView {
        KernelView { ctx: self.context@, entries: alist_entries(self.entries@) }
    }
}

impl Clone for DotKernel {
    /// A deep copy with the same model.
    #[verifier::loop_isolation(false)]
    fn clone(&self) -> (res: Self)
        ensures
            res@ == self@,
            res.wf() == self.wf(),
    {
        let n = self.entries.len();
        let mut v: Vec<(Dot, String)> = Vec::new();
        let mut i: usize = 0;
        while i < n
            invariant
                0 <= i <= n,
                v@.len() == i,
                forall|j: int| 0 <= j < i ==> v@[j] == (#[trigger] self.entries@[j]),
            decreases n - i,
        {
            let d = self.entries[i].0;
            v.push((d, self.entries[i].1.clone()));
            i = i + 1;
        }
        proof {
            assert(v@ =~= self.entries@);
        }
        DotKernel { context: self.context.clone(), entries: v }
    }
}

impl DotKernel {
    pub closed spec fn wf(&self) -> bool {
        &&& self.context.wf()
        &&& entry_keys_unique(self.entries@)
        &&& forall|l: int|
            0 <= l < self.entries@.len() ==> ctx_contains(
                self.context@,
                (#[trigger] self.entries@[l]).0,
            )
    }

    pub proof fn lemma_wf_ok(&self)
        requires
            self.wf(),
        ensures
            kernel_ok(self@),
    {
        self.context.lemma_wf_ok();
        lemma_entries_finite(self.entries@);
        assert forall|d: Dot| #[trigger]
            self@.entries.dom().contains(d) implies ctx_contains(self@.ctx, d) by {
            lemma_entries_dom(self.entries@, d);
            let i = choose|i: int|
                0 <= i < self.entries@.len() && (#[trigger] self.entries@[i]).0 == d;
        }
    }

    pub fn new() -> (k: DotKernel)
        ensures
            k.wf(),
            k@.ctx.clock =~= Map::<ReplicaId, u64>::empty(),
            k@.ctx.dots =~= Set::<Dot>::empty(),
            k@.entries =~= Map::<Dot, Seq<char>>::empty(),
    {
        DotKernel { context: DotContext::new(), entries: Vec::new() }
    }

    /// Whether some live dot carries this element.
    #[verifier::loop_isolation(false)]
    pub fn contains(&self, key: &str) -> (r: bool)
        requires
            self.wf(),
        ensures
            r == kernel_elems(self@).contains(key@),
    {
        let k: String = key.to_owned();
        let n = self.entries.len();
        let mut i: usize = 0;
        while i < n
            invariant
                0 <= i <= n,
                k@ == key@,
                forall|j: int| 0 <= j < i ==> (#[trigger] self.entries@[j]).1@ != key@,
            decreases n - i,
        {
            if self.entries[i].1 == k {
                proof {
                    lemma_entries_get(self.entries@, i as int);
                    assert(self@.entries.dom().contains(self.entries@[i as int].0)
                        && self@.entries[self.entries@[i as int].0] == key@);
                }
                return true;
            }
            i = i + 1;
        }
        proof {
            if kernel_elems(self@).contains(key@) {
                let d = choose|d: Dot| #[trigger]
                    self@.entries.dom().contains(d) && self@.entries[d] == key@;
                lemma_entries_dom(self.entries@, d);
                let j = choose|j: int|
                    0 <= j < self.entries@.len() && (#[trigger] self.entries@[j]).0 == d;
                lemma_entries_get(self.entries@, j);
            }
        }
        false
    }

    /// Whether `d` names a live entry.
    #[verifier::loop_isolation(false)]
    fn has_dot(&self, d: &Dot) -> (r: bool)
        requires
            self.wf(),
        ensures
            r == self@.entries.dom().contains(*d),
    {
        let n = self.entries.len();
        let mut i: usize = 0;
        while i < n
            invariant
                0 <= i <= n,
                forall|j: int| 0 <= j < i ==> (#[trigger] self.entries@[j]).0 != *d,
            decreases n - i,
        {
            if self.entries[i].0 == *d {
                proof {
                    lemma_entries_get(self.entries@, i as int);
                }
                return true;
            }
            i = i + 1;
        }
        proof {
            lemma_entries_dom(self.entries@, *d);
        }
        false
    }

    /// The elements carried by live dots, one per entry.
    #[verifier::loop_isolation(false)]
    pub fn keys(&self) -> (r: Vec<String>)
        requires
            self.wf(),
        ensures
            forall|l: int| 0 <= l < r@.len() ==> kernel_elems(self@).contains(
                (#[trigger] r@[l])@,
            ),
            forall|e: Seq<char>| #[trigger] kernel_elems(self@).contains(e) ==> exists|l: int|
                0 <= l < r@.len() && (#[trigger] r@[l])@ == e,
    {
        let n = self.entries.len();
        let mut out: Vec<String> = Vec::new();
        let mut i: usize = 0;
        while i < n
            invariant
                0 <= i <= n,
                out@.len() == i,
                forall|j: int| 0 <= j < i ==> (#[trigger] out@[j])@ == self.entries@[j].1@,
            decreases n - i,
        {
            out.push(self.entries[i].1.clone());
            i = i + 1;
        }
        proof {
            assert forall|l: int|
                0 <= l < out@.len() implies kernel_elems(self@).contains((#[trigger] out@[l])@) by {
                lemma_entries_get(self.entries@, l);
                assert(self@.entries.dom().contains(self.entries@[l].0) && self@.entries[
                    self.entries@[l].0] == out@[l]@);
            }
            assert forall|e: Seq<char>| #[trigger]
                kernel_elems(self@).contains(e) implies exists|l: int|
                0 <= l < out@.len() && (#[trigger] out@[l])@ == e by {
                let d = choose|d: Dot| #[trigger]
                    self@.entries.dom().contains(d) && self@.entries[d] == e;
                lemma_entries_dom(self.entries@, d);
                let j = choose|j: int|
                    0 <= j < self.entries@.len() && (#[trigger] self.entries@[j]).0 == d;
                lemma_entries_get(self.entries@, j);
                assert(out@[j]@ == e);
            }
        }
        out
    }

    /// Tag `key` with a fresh dot of `replica` in this kernel, and record
    /// the same entry and dot in `delta`.
    pub fn add(&mut self, replica: ReplicaId, key: &str, delta: &mut DotKernel)
        requires
            old(self).wf(),
            old(delta).wf(),
            cnt(old(self)@.ctx.clock, replica) < u64::MAX,
        ensures
            final(self).wf(),
            final(delta).wf(),
            final(self)@.entries == old(self)@.entries.insert(
                Dot(replica, (cnt(old(self)@.ctx.clock, replica) + 1) as u64),
                key@,
            ),
            forall|x: Dot| #![trigger ctx_contains(final(self)@.ctx, x)]
                ctx_contains(final(self)@.ctx, x) <==> ctx_contains(old(self)@.ctx, x) || x == Dot(
                    replica,
                    (cnt(old(self)@.ctx.clock, replica) + 1) as u64,
                ),
            !ctx_contains(old(self)@.ctx, Dot(replica, (cnt(old(self)@.ctx.clock, replica) + 1) as u64)),
            final(delta)@.entries == old(delta)@.entries.insert(
                Dot(replica, (cnt(old(self)@.ctx.clock, replica) + 1) as u64),
                key@,
            ),
            forall|x: Dot| #![trigger ctx_contains(final(delta)@.ctx, x)]
                ctx_contains(final(delta)@.ctx, x) <==> ctx_contains(old(delta)@.ctx, x) || x
                    == Dot(replica, (cnt(old(self)@.ctx.clock, replica) + 1) as u64),
    {
        let d = self.context.next_dot(replica);
        proof {
            lemma_entries_dom(self.entries@, d);
            if exists|i: int| 0 <= i < self.entries@.len() && (#[trigger] self.entries@[i]).0 == d {
                let i = choose|i: int|
                    0 <= i < self.entries@.len() && (#[trigger] self.entries@[i]).0 == d;
                assert(ctx_contains(old(self)@.ctx, d));
                assert(false);
            }
        }
        let ghost pre_entries = self.entries@;
        self.entries.push((d, key.to_owned()));
        proof {
            assert(self.entries@.drop_last() =~= pre_entries);
            assert(alist_entries(self.entries@) == alist_entries(pre_entries).insert(d, key@));
            assert forall|l: int|
                0 <= l < self.entries@.len() implies ctx_contains(
                self.context@,
                (#[trigger] self.entries@[l]).0,
            ) by {
                if l < self.entries@.len() - 1 {
                    assert(self.entries@[l] == pre_entries[l]);
                    assert(ctx_contains(old(self)@.ctx, pre_entries[l].0));
                }
            }
        }
        delta.put(d, key);
        delta.context.add(d);
        delta.context.compact();
        proof {
            assert forall|l: int|
                0 <= l < delta.entries@.len() implies ctx_contains(
                delta.context@,
                (#[trigger] delta.entries@[l]).0,
            ) by {
                assert(ctx_contains(
                    CtxView {
                        clock: old(delta)@.ctx.clock,
                        dots: old(delta)@.ctx.dots.insert(d),
                    },
                    delta.entries@[l].0,
                ));
            }
        }
    }

    /// Whether the kernel holds no entries and an empty history.
    pub fn is_empty(&self) -> (r: bool)
        ensures
            r <==> kernel_is_empty(self@),
    {
        let no_entries = self.entries.len() == 0;
        proof {
            if self.entries@.len() == 0 {
                assert(self@.entries =~= Map::<Dot, Seq<char>>::empty());
            } else {
                lemma_entries_dom(self.entries@, self.entries@[0].0);
                assert(self@.entries.dom().contains(self.entries@[0].0));
            }
        }
        no_entries && self.context.is_empty()
    }

    /// Retract every live occurrence of `key`: the entries vanish, the
    /// dots stay in this kernel's history (preventing resurrection), and
    /// the removed dots are recorded in `delta`'s history as retractions.
    #[verifier::loop_isolation(false)]
    pub fn remove(&mut self, key: &str, delta: &mut DotKernel)
        requires
            old(self).wf(),
            old(delta).wf(),
        ensures
            final(self).wf(),
            final(delta).wf(),
            final(self)@.ctx == old(self)@.ctx,
            final(self)@.entries == entries_minus(old(self)@.entries, key@),
            final(delta)@.entries == old(delta)@.entries,
            forall|x: Dot| #![trigger ctx_contains(final(delta)@.ctx, x)]
                ctx_contains(final(delta)@.ctx, x) <==> ctx_contains(old(delta)@.ctx, x)
                    || entry_dots_of(old(self)@.entries, key@).contains(x),
    {
        proof {
            old(self).lemma_wf_ok();
            old(delta).lemma_wf_ok();
            assert(old(self).entries@.take(0) =~= Seq::<(Dot, String)>::empty());
            assert(alist_entries(Seq::<(Dot, String)>::empty()) =~= Map::<Dot, Seq<char>>::empty());
            assert(entries_minus(Map::<Dot, Seq<char>>::empty(), key@) =~= Map::<
                Dot,
                Seq<char>,
            >::empty());
        }
        let k: String = key.to_owned();
        let n = self.entries.len();
        let mut kept: Vec<(Dot, String)> = Vec::new();
        let mut i: usize = 0;
        while i < n
            invariant
                0 <= i <= n,
                k@ == key@,
                entry_keys_unique(kept@),
                forall|l: int| 0 <= l < kept@.len() ==> old(self).entries@.contains(
                    #[trigger] kept@[l],
                ),
                alist_entries(kept@) =~= entries_minus(
                    alist_entries(old(self).entries@.take(i as int)),
                    key@,
                ),
                delta.entries@ == old(delta).entries@,
                delta.context.wf_loose(),
                delta.context@.clock == old(delta)@.ctx.clock,
                forall|x: Dot| #![trigger delta.context@.dots.contains(x)]
                    delta.context@.dots.contains(x) <==> old(delta)@.ctx.dots.contains(x)
                        || exists|j: int|
                        0 <= j < i && (#[trigger] old(self).entries@[j]).0 == x && old(
                            self,
                        ).entries@[j].1@ == key@,
            decreases n - i,
        {
            let ghost pre_take = alist_entries(old(self).entries@.take(i as int));
            proof {
                lemma_entries_get(old(self).entries@, i as int);
                lemma_entries_dom(old(self).entries@.take(i as int), old(self).entries@[i as int].0);
                assert(forall|j: int|
                    0 <= j < i ==> #[trigger] old(self).entries@.take(i as int)[j] == old(
                        self,
                    ).entries@[j]);
                assert(!pre_take.dom().contains(old(self).entries@[i as int].0));
                assert(old(self).entries@.take(i as int + 1).drop_last() =~= old(
                    self,
                ).entries@.take(i as int));
                assert(alist_entries(old(self).entries@.take(i as int + 1)) == pre_take.insert(
                    old(self).entries@[i as int].0,
                    old(self).entries@[i as int].1@,
                ));
            }
            let d0 = self.entries[i].0;
            if self.entries[i].1 == k {
                proof {
                    assert(ctx_contains(old(self)@.ctx, d0));
                    assert(d0.1 >= 1);
                }
                let ghost pd = delta.context@.dots;
                delta.context.add(d0);
                proof {
                    assert(delta.context@.dots =~= pd.insert(d0));
                    assert forall|x: Dot| #![trigger delta.context@.dots.contains(x)]
                        delta.context@.dots.contains(x) <==> old(delta)@.ctx.dots.contains(x)
                            || exists|j: int|
                            0 <= j < i + 1 && (#[trigger] old(self).entries@[j]).0 == x && old(
                                self,
                            ).entries@[j].1@ == key@ by {
                        if x == d0 {
                            assert(old(self).entries@[i as int].0 == x && old(self).entries@[
                                i as int].1@ == key@);
                        } else if pd.contains(x) && !old(delta)@.ctx.dots.contains(x) {
                            let j = choose|j: int|
                                0 <= j < i && (#[trigger] old(self).entries@[j]).0 == x && old(
                                    self,
                                ).entries@[j].1@ == key@;
                            assert(0 <= j < i + 1 && old(self).entries@[j].0 == x && old(
                                self,
                            ).entries@[j].1@ == key@);
                        }
                    }
                    assert(alist_entries(kept@) =~= entries_minus(
                        alist_entries(old(self).entries@.take(i as int + 1)),
                        key@,
                    ));
                }
            } else {
                proof {
                    lemma_entries_dom(kept@, d0);
                    assert(!alist_entries(kept@).dom().contains(d0));
                }
                let ghost pk = kept@;
                kept.push((d0, self.entries[i].1.clone()));
                proof {
                    assert(kept@[kept@.len() - 1] == old(self).entries@[i as int]);
                    assert(kept@.drop_last() =~= pk);
                    assert forall|l: int|
                        0 <= l < kept@.len() implies old(self).entries@.contains(
                        #[trigger] kept@[l],
                    ) by {
                        if l < kept@.len() - 1 {
                            assert(kept@[l] == pk[l]);
                        }
                    }
                    assert forall|l1: int, l2: int|
                        0 <= l1 < l2 < kept@.len() implies (#[trigger] kept@[l1]).0 != (
                    #[trigger] kept@[l2]).0 by {
                        if l2 == kept@.len() - 1 {
                            assert(!alist_entries(pk).dom().contains(d0));
                            lemma_entries_get(pk, l1);
                        }
                    }
                    assert(alist_entries(kept@) == alist_entries(pk).insert(
                        d0,
                        old(self).entries@[i as int].1@,
                    ));
                    assert(old(self).entries@[i as int].1@ != key@);
                    assert(alist_entries(kept@) =~= entries_minus(
                        alist_entries(old(self).entries@.take(i as int + 1)),
                        key@,
                    ));
                    assert forall|x: Dot| #![trigger delta.context@.dots.contains(x)]
                        delta.context@.dots.contains(x) <==> old(delta)@.ctx.dots.contains(x)
                            || exists|j: int|
                            0 <= j < i + 1 && (#[trigger] old(self).entries@[j]).0 == x && old(
                                self,
                            ).entries@[j].1@ == key@ by {
                        if !old(delta)@.ctx.dots.contains(x) {
                            if delta.context@.dots.contains(x) {
                                let j = choose|j: int|
                                    0 <= j < i && (#[trigger] old(self).entries@[j]).0 == x
                                        && old(self).entries@[j].1@ == key@;
                                assert(0 <= j < i + 1 && old(self).entries@[j].0 == x && old(
                                    self,
                                ).entries@[j].1@ == key@);
                            } else {
                                if exists|j: int|
                                    0 <= j < i + 1 && (#[trigger] old(self).entries@[j]).0 == x
                                        && old(self).entries@[j].1@ == key@ {
                                    let j = choose|j: int|
                                        0 <= j < i + 1 && (#[trigger] old(self).entries@[j]).0
                                            == x && old(self).entries@[j].1@ == key@;
                                    assert(j != i);
                                }
                            }
                        }
                    }
                }
            }
            i = i + 1;
        }
        proof {
            assert(old(self).entries@.take(n as int) =~= old(self).entries@);
        }
        self.entries = kept;
        proof {
            assert forall|l: int|
                0 <= l < self.entries@.len() implies ctx_contains(
                self.context@,
                (#[trigger] self.entries@[l]).0,
            ) by {
                let p = self.entries@[l];
                let j = choose|j: int|
                    0 <= j < old(self).entries@.len() && (#[trigger] old(self).entries@[j]) == p;
                assert(ctx_contains(old(self)@.ctx, p.0));
            }
        }
        let ghost mid_dots = delta.context@;
        delta.context.compact();
        proof {
            assert forall|x: Dot|
                ctx_contains(delta.context@, x) <==> ctx_contains(old(delta)@.ctx, x)
                    || entry_dots_of(old(self)@.entries, key@).contains(x) by {
                assert(ctx_contains(delta.context@, x) == ctx_contains(mid_dots, x));
                if entry_dots_of(old(self)@.entries, key@).contains(x) {
                    lemma_entries_dom(old(self).entries@, x);
                    let j = choose|j: int|
                        0 <= j < old(self).entries@.len() && (#[trigger] old(self).entries@[j]).0
                            == x;
                    lemma_entries_get(old(self).entries@, j);
                }
                if mid_dots.dots.contains(x) && !old(delta)@.ctx.dots.contains(x) {
                    let j = choose|j: int|
                        0 <= j < old(self).entries@.len() && (#[trigger] old(self).entries@[j]).0
                            == x && old(self).entries@[j].1@ == key@;
                    lemma_entries_get(old(self).entries@, j);
                }
            }
            assert forall|l: int|
                0 <= l < delta.entries@.len() implies ctx_contains(
                delta.context@,
                (#[trigger] delta.entries@[l]).0,
            ) by {
                assert(ctx_contains(old(delta)@.ctx, delta.entries@[l].0));
            }
        }
    }

    /// Merge a peer kernel in.  Own entries that the peer has observed and
    /// retracted are dropped; peer entries genuinely new to this kernel are
    /// adopted; the histories are joined.  A concurrent re-add survives a
    /// removal because its fresh dot is unknown to the removing side:
    /// add wins.
    #[verifier::loop_isolation(false)]
    pub fn merge(&mut self, other: DotKernel)
        requires
            old(self).wf(),
            other.wf(),
        ensures
            final(self).wf(),
            final(self)@.entries == join_entries(old(self)@, other@),
            forall|x: Dot| #![trigger ctx_contains(final(self)@.ctx, x)]
                ctx_contains(final(self)@.ctx, x) <==> ctx_contains(old(self)@.ctx, x)
                    || ctx_contains(other@.ctx, x),
    {
        proof {
            old(self).lemma_wf_ok();
            other.lemma_wf_ok();
            assert(old(self).entries@.take(0) =~= Seq::<(Dot, String)>::empty());
            assert(alist_entries(Seq::<(Dot, String)>::empty()) =~= Map::<Dot, Seq<char>>::empty());
        }
        let ghost a = old(self)@;
        let ghost b = other@;
        let n = self.entries.len();
        let mut kept: Vec<(Dot, String)> = Vec::new();
        let mut i: usize = 0;
        // retain own entries that the peer has not observed and retracted
        while i < n
            invariant
                0 <= i <= n,
                entry_keys_unique(kept@),
                forall|l: int| 0 <= l < kept@.len() ==> old(self).entries@.contains(
                    #[trigger] kept@[l],
                ),
                alist_entries(kept@) =~= Map::new(
                    |x: Dot| alist_entries(old(self).entries@.take(i as int)).dom().contains(x)
                        && !tombstoned(b, x),
                    |x: Dot| alist_entries(old(self).entries@.take(i as int))[x],
                ),
            decreases n - i,
        {
            let ghost pre_take = alist_entries(old(self).entries@.take(i as int));
            proof {
                lemma_entries_get(old(self).entries@, i as int);
                lemma_entries_dom(old(self).entries@.take(i as int), old(self).entries@[i as int].0);
                assert(forall|j: int|
                    0 <= j < i ==> #[trigger] old(self).entries@.take(i as int)[j] == old(
                        self,
                    ).entries@[j]);
                assert(!pre_take.dom().contains(old(self).entries@[i as int].0));
                assert(old(self).entries@.take(i as int + 1).drop_last() =~= old(
                    self,
                ).entries@.take(i as int));
                assert(alist_entries(old(self).entries@.take(i as int + 1)) == pre_take.insert(
                    old(self).entries@[i as int].0,
                    old(self).entries@[i as int].1@,
                ));
            }
            let d0 = self.entries[i].0;
            let retracted = other.context.contains(&d0) && !other.has_dot(&d0);
            if retracted {
                proof {
                    assert(tombstoned(b, d0));
                    assert(alist_entries(kept@) =~= Map::new(
                        |x: Dot| alist_entries(old(self).entries@.take(i as int + 1)).dom(
                        ).contains(x) && !tombstoned(b, x),
                        |x: Dot| alist_entries(old(self).entries@.take(i as int + 1))[x],
                    ));
                }
            } else {
                proof {
                    lemma_entries_dom(kept@, d0);
                    assert(!alist_entries(kept@).dom().contains(d0));
                }
                let ghost pk = kept@;
                kept.push((d0, self.entries[i].1.clone()));
                proof {
                    assert(kept@[kept@.len() - 1] == old(self).entries@[i as int]);
                    assert(kept@.drop_last() =~= pk);
                    assert forall|l: int|
                        0 <= l < kept@.len() implies old(self).entries@.contains(
                        #[trigger] kept@[l],
                    ) by {
                        if l < kept@.len() - 1 {
                            assert(kept@[l] == pk[l]);
                        }
                    }
                    assert forall|l1: int, l2: int|
                        0 <= l1 < l2 < kept@.len() implies (#[trigger] kept@[l1]).0 != (
                    #[trigger] kept@[l2]).0 by {
                        if l2 == kept@.len() - 1 {
                            assert(!alist_entries(pk).dom().contains(d0));
                            lemma_entries_get(pk, l1);
                        }
                    }
                    assert(alist_entries(kept@) == alist_entries(pk).insert(
                        d0,
                        old(self).entries@[i as int].1@,
                    ));
                    assert(alist_entries(kept@) =~= Map::new(
                        |x: Dot| alist_entries(old(self).entries@.take(i as int + 1)).dom(
                        ).contains(x) && !tombstoned(b, x),
                        |x: Dot| alist_entries(old(self).entries@.take(i as int + 1))[x],
                    ));
                }
            }
            i = i + 1;
        }
        proof {
            assert(old(self).entries@.take(n as int) =~= old(self).entries@);
        }
        // adopt the peer's entries that this kernel never observed
        let m = other.entries.len();
        let mut j: usize = 0;
        proof {
            assert(other.entries@.take(0) =~= Seq::<(Dot, String)>::empty());
        }
        while j < m
            invariant
                0 <= j <= m,
                self.entries@ == old(self).entries@,
                self.context == old(self).context,
                entry_keys_unique(kept@),
                forall|l: int|
                    0 <= l < kept@.len() ==> ctx_contains(a.ctx, (#[trigger] kept@[l]).0)
                        || ctx_contains(b.ctx, kept@[l].0),
                alist_entries(kept@) =~= Map::new(
                    |x: Dot| (a.entries.dom().contains(x) && !tombstoned(b, x)) || (alist_entries(
                        other.entries@.take(j as int),
                    ).dom().contains(x) && !a.entries.dom().contains(x) && !ctx_contains(
                        a.ctx,
                        x,
                    )),
                    |x: Dot|
                        if a.entries.dom().contains(x) {
                            a.entries[x]
                        } else {
                            b.entries[x]
                        },
                ),
            decreases m - j,
        {
            let ghost pre_take = alist_entries(other.entries@.take(j as int));
            proof {
                lemma_entries_get(other.entries@, j as int);
                lemma_entries_dom(other.entries@.take(j as int), other.entries@[j as int].0);
                assert(forall|l: int|
                    0 <= l < j ==> #[trigger] other.entries@.take(j as int)[l]
                        == other.entries@[l]);
                assert(!pre_take.dom().contains(other.entries@[j as int].0));
                assert(other.entries@.take(j as int + 1).drop_last() =~= other.entries@.take(
                    j as int,
                ));
                assert(alist_entries(other.entries@.take(j as int + 1)) == pre_take.insert(
                    other.entries@[j as int].0,
                    other.entries@[j as int].1@,
                ));
            }
            let d0 = other.entries[j].0;
            let fresh_here = !self.has_dot(&d0) && !self.context.contains(&d0);
            if fresh_here {
                proof {
                    lemma_entries_dom(kept@, d0);
                    assert(!alist_entries(kept@).dom().contains(d0));
                    assert(b.entries[d0] == other.entries@[j as int].1@);
                }
                let ghost pk = kept@;
                kept.push((d0, other.entries[j].1.clone()));
                proof {
                    assert(kept@[kept@.len() - 1] == other.entries@[j as int]);
                    assert(kept@.drop_last() =~= pk);
                    assert forall|l1: int, l2: int|
                        0 <= l1 < l2 < kept@.len() implies (#[trigger] kept@[l1]).0 != (
                    #[trigger] kept@[l2]).0 by {
                        if l2 == kept@.len() - 1 {
                            assert(!alist_entries(pk).dom().contains(d0));
                            lemma_entries_get(pk, l1);
                        }
                    }
                    assert(ctx_contains(b.ctx, d0));
                    assert(alist_entries(kept@) == alist_entries(pk).insert(
                        d0,
                        other.entries@[j as int].1@,
                    ));
                    assert(alist_entries(kept@) =~= Map::new(
                        |x: Dot| (a.entries.dom().contains(x) && !tombstoned(b, x)) || (
                        alist_entries(other.entries@.take(j as int + 1)).dom().contains(x)
                            && !a.entries.dom().contains(x) && !ctx_contains(a.ctx, x)),
                        |x: Dot|
                            if a.entries.dom().contains(x) {
                                a.entries[x]
                            } else {
                                b.entries[x]
                            },
                    ));
                }
            } else {
                proof {
                    assert(alist_entries(kept@) =~= Map::new(
                        |x: Dot| (a.entries.dom().contains(x) && !tombstoned(b, x)) || (
                        alist_entries(other.entries@.take(j as int + 1)).dom().contains(x)
                            && !a.entries.dom().contains(x) && !ctx_contains(a.ctx, x)),
                        |x: Dot|
                            if a.entries.dom().contains(x) {
                                a.entries[x]
                            } else {
                                b.entries[x]
                            },
                    ));
                }
            }
            j = j + 1;
        }
        proof {
            assert(other.entries@.take(m as int) =~= other.entries@);
        }
        self.entries = kept;
        self.context.merge(other.context);
        proof {
            assert(self@.entries =~= join_entries(a, b));
            assert forall|l: int|
                0 <= l < self.entries@.len() implies ctx_contains(
                self.context@,
                (#[trigger] self.entries@[l]).0,
            ) by {
                assert(ctx_contains(a.ctx, self.entries@[l].0) || ctx_contains(
                    b.ctx,
                    self.entries@[l].0,
                ));
            }
        }
    }

    /// Store `(d, key)` in the entry list, replacing any entry for `d`.
    #[verifier::loop_isolation(false)]
    fn put(&mut self, d: Dot, key: &str)
        requires
            entry_keys_unique(old(self).entries@),
        ensures
            final(self).entries@.len() >= 1,
            entry_keys_unique(final(self).entries@),
            alist_entries(final(self).entries@) == alist_entries(old(self).entries@).insert(
                d,
                key@,
            ),
            final(self).context == old(self).context,
            forall|l: int|
                0 <= l < final(self).entries@.len() ==> (#[trigger] final(self).entries@[l]).0 == d
                    || old(self).entries@.contains(final(self).entries@[l]),
    {
        let n = self.entries.len();
        let mut i: usize = 0;
        while i < n
            invariant
                0 <= i <= n,
                self == old(self),
                forall|j: int| 0 <= j < i ==> (#[trigger] self.entries@[j]).0 != d,
            decreases n - i,
        {
            if self.entries[i].0 == d {
                let ghost pre = self.entries@;
                self.entries[i] = (d, key.to_owned());
                proof {
                    lemma_entries_update(pre, i as int, self.entries@[i as int].1);
                    assert(self.entries@ =~= pre.update(i as int, (d, self.entries@[i as int].1)));
                    assert(alist_entries(self.entries@) =~= alist_entries(pre).insert(d, key@));
                    assert forall|l: int|
                        0 <= l < self.entries@.len() implies (#[trigger] self.entries@[l]).0 == d
                            || pre.contains(self.entries@[l]) by {
                        if l != i {
                            assert(self.entries@[l] == pre[l]);
                        }
                    }
                }
                return ;
            }
            i = i + 1;
        }
        proof {
            lemma_entries_dom(self.entries@, d);
        }
        let ghost pre = self.entries@;
        self.entries.push((d, key.to_owned()));
        proof {
            assert(self.entries@.drop_last() =~= pre);
            assert forall|l: int|
                0 <= l < self.entries@.len() implies (#[trigger] self.entries@[l]).0 == d
                    || pre.contains(self.entries@[l]) by {
                if l < self.entries@.len() - 1 {
                    assert(self.entries@[l] == pre[l]);
                }
            }
        }
    }
}


/// The empty kernel model.
pub open spec fn kernel_empty() -> KernelView {
    KernelView {
        ctx: CtxView { clock: Map::<ReplicaId, u64>::empty(), dots: Set::<Dot>::empty() },
        entries: Map::<Dot, Seq<char>>::empty(),
    }
}

/// Whether a kernel model is empty.
pub open spec fn kernel_is_empty(k: KernelView) -> bool {
    &&& k.entries =~= Map::<Dot, Seq<char>>::empty()
    &&& k.ctx.clock =~= Map::<ReplicaId, u64>::empty()
    &&& k.ctx.dots =~= Set::<Dot>::empty()
}

/// The model of an add-wins set: the replica identity, the state kernel,
/// and the delta kernel buffering unshipped changes.
#[verifier::ext_equal]
pub ghost struct SetView {
    pub replica: ReplicaId,
    pub state: KernelView,
    pub delta: KernelView,
}

/// Every change buffered in `d` is already reflected in `s`: merging the
/// buffer back into the state never changes the state.
pub open spec fn absorbed(s: KernelView, d: KernelView) -> bool {
    &&& forall|x: Dot| #[trigger] ctx_contains(d.ctx, x) ==> ctx_contains(s.ctx, x)
    &&& forall|x: Dot|
        #[trigger] s.entries.dom().contains(x) && ctx_contains(d.ctx, x)
            ==> d.entries.dom().contains(x)
}

/// Joining two absorbed state/delta pairs componentwise yields an absorbed
/// pair again.  `s2`/`d2` stand for the joined state and the joined delta.
proof fn lemma_absorbed_join(
    s: KernelView,
    d: KernelView,
    os: KernelView,
    od: KernelView,
    s2: KernelView,
    d2: KernelView,
)
    requires
        kernel_ok(s),
        kernel_ok(d),
        kernel_ok(os),
        kernel_ok(od),
        absorbed(s, d),
        absorbed(os, od),
        s2.entries == join_entries(s, os),
        forall|x: Dot| #[trigger]
            ctx_contains(s2.ctx, x) <==> ctx_contains(s.ctx, x) || ctx_contains(os.ctx, x),
        d2.entries == join_entries(d, od),
        forall|x: Dot| #[trigger]
            ctx_contains(d2.ctx, x) <==> ctx_contains(d.ctx, x) || ctx_contains(od.ctx, x),
    ensures
        absorbed(s2, d2),
{
    assert forall|x: Dot|
        #[trigger] s2.entries.dom().contains(x) && ctx_contains(d2.ctx, x)
            implies d2.entries.dom().contains(x) by {
        if s.entries.dom().contains(x) {
            if ctx_contains(d.ctx, x) {
                assert(d.entries.dom().contains(x));
                if ctx_contains(od.ctx, x) && !od.entries.dom().contains(x) {
                    assert(ctx_contains(os.ctx, x));
                    assert(!tombstoned(os, x));
                    assert(os.entries.dom().contains(x));
                    assert(od.entries.dom().contains(x));
                    assert(false);
                }
                assert(!tombstoned(od, x));
            } else {
                assert(ctx_contains(od.ctx, x));
                assert(ctx_contains(os.ctx, x));
                assert(!tombstoned(os, x));
                assert(os.entries.dom().contains(x));
                assert(od.entries.dom().contains(x));
                if d.entries.dom().contains(x) {
                    assert(!tombstoned(od, x));
                } else {
                    assert(!ctx_contains(d.ctx, x));
                }
            }
        } else {
            assert(os.entries.dom().contains(x) && !ctx_contains(s.ctx, x));
            assert(!ctx_contains(d.ctx, x));
            assert(ctx_contains(od.ctx, x));
            assert(od.entries.dom().contains(x));
            assert(!d.entries.dom().contains(x));
        }
    }
}

/// Joining a kernel with any buffer whose dots it then all knows leaves the
/// pair absorbed.
proof fn lemma_absorbed_from_join(x: KernelView, y: KernelView, x2: KernelView)
    requires
        kernel_ok(y),
        x2.entries == join_entries(x, y),
        forall|z: Dot| #[trigger]
            ctx_contains(x2.ctx, z) <==> ctx_contains(x.ctx, z) || ctx_contains(y.ctx, z),
    ensures
        absorbed(x2, y),
{
    assert forall|z: Dot|
        #[trigger] x2.entries.dom().contains(z) && ctx_contains(y.ctx, z)
            implies y.entries.dom().contains(z) by {
        if x.entries.dom().contains(z) && !tombstoned(y, z) {
            assert(y.entries.dom().contains(z));
        }
    }
}

/// The add-wins observed-remove set: a replica identity, the state kernel
/// holding the current elements, and a delta kernel buffering the causally
/// framed changes produced since the last `split_delta`.
#[derive(Debug, PartialEq, Eq)]
pub struct AWORSet {
    replica_id: ReplicaId,
    state: DotKernel,
    delta: DotKernel,
}

impl View for AWORSet {
    type V = SetView;

    closed spec fn view(&self) -> SetView {
        SetView { replica: self.replica_id, state: self.state@, delta: self.delta@ }
    }
}

impl Clone for AWORSet {
    /// A deep copy with the same model.
    fn clone(&self) -> (res: Self)
        ensures
            res@ == self@,
            res.wf() == self.wf(),
    {
        AWORSet { replica_id: self.replica_id, state: self.state.clone(), delta: self.delta.clone() }
    }
}

impl AWORSet {
    pub closed spec fn wf(&self) -> bool {
        &&& self.state.wf()
        &&& self.delta.wf()
        &&& absorbed(self.state@, self.delta@)
    }

    pub proof fn lemma_wf_ok(&self)
        requires
            self.wf(),
        ensures
            kernel_ok(self@.state),
            kernel_ok(self@.delta),
            absorbed(self@.state, self@.delta),
    {
        self.state.lemma_wf_ok();
        self.delta.lemma_wf_ok();
    }

    pub fn new(replica_id: ReplicaId) -> (s: AWORSet)
        ensures
            s.wf(),
            s@.replica == replica_id,
            kernel_is_empty(s@.state),
            kernel_is_empty(s@.delta),
    {
        AWORSet { replica_id, state: DotKernel::new(), delta: DotKernel::new() }
    }

    /// Whether the set currently holds `value`.
    pub fn contains(&self, value: &str) -> (r: bool)
        requires
            self.wf(),
        ensures
            r == kernel_elems(self@.state).contains(value@),
    {
        self.state.contains(value)
    }

    /// The elements currently held, one per live dot.
    pub fn keys(&self) -> (r: Vec<String>)
        requires
            self.wf(),
        ensures
            forall|l: int| 0 <= l < r@.len() ==> kernel_elems(self@.state).contains(
                (#[trigger] r@[l])@,
            ),
            forall|e: Seq<char>| #[trigger] kernel_elems(self@.state).contains(e) ==> exists|l: int|
                0 <= l < r@.len() && (#[trigger] r@[l])@ == e,
    {
        self.state.keys()
    }

    /// Add `value`: retire any superseded local occurrence, then tag the
    /// value with a fresh dot of this replica.
    pub fn add(&mut self, value: &str)
        requires
            old(self).wf(),
            cnt(old(self)@.state.ctx.clock, old(self)@.replica) < u64::MAX,
        ensures
            final(self).wf(),
            final(self)@.replica == old(self)@.replica,
            final(self)@.state.entries == entries_minus(old(self)@.state.entries, value@).insert(
                Dot(old(self)@.replica, (cnt(old(self)@.state.ctx.clock, old(self)@.replica) + 1) as u64),
                value@,
            ),
            forall|x: Dot| #![trigger ctx_contains(final(self)@.state.ctx, x)]
                ctx_contains(final(self)@.state.ctx, x) <==> ctx_contains(old(self)@.state.ctx, x)
                    || x == Dot(
                    old(self)@.replica,
                    (cnt(old(self)@.state.ctx.clock, old(self)@.replica) + 1) as u64,
                ),
            final(self)@.delta.entries == old(self)@.delta.entries.insert(
                Dot(old(self)@.replica, (cnt(old(self)@.state.ctx.clock, old(self)@.replica) + 1) as u64),
                value@,
            ),
            forall|x: Dot| #![trigger ctx_contains(final(self)@.delta.ctx, x)]
                ctx_contains(final(self)@.delta.ctx, x) <==> ctx_contains(old(self)@.delta.ctx, x)
                    || entry_dots_of(old(self)@.state.entries, value@).contains(x) || x == Dot(
                    old(self)@.replica,
                    (cnt(old(self)@.state.ctx.clock, old(self)@.replica) + 1) as u64,
                ),
            !ctx_contains(old(self)@.state.ctx, Dot(
                old(self)@.replica,
                (cnt(old(self)@.state.ctx.clock, old(self)@.replica) + 1) as u64,
            )),
    {
        proof {
            old(self).lemma_wf_ok();
        }
        self.state.remove(value, &mut self.delta);
        self.state.add(self.replica_id, value, &mut self.delta);
        proof {
            let dn = Dot(
                old(self)@.replica,
                (cnt(old(self)@.state.ctx.clock, old(self)@.replica) + 1) as u64,
            );
            assert(self@.state.entries =~= entries_minus(old(self)@.state.entries, value@).insert(
                dn,
                value@,
            ));
            assert forall|x: Dot|
                #[trigger] self@.state.entries.dom().contains(x) && ctx_contains(
                self@.delta.ctx,
                x,
            ) implies self@.delta.entries.dom().contains(x) by {
                if x != dn {
                    assert(old(self)@.state.entries.dom().contains(x) && old(
                        self,
                    )@.state.entries[x] != value@);
                    assert(!entry_dots_of(old(self)@.state.entries, value@).contains(x));
                    assert(ctx_contains(old(self)@.delta.ctx, x));
                    assert(old(self)@.delta.entries.dom().contains(x));
                }
            }
        }
    }

    /// Remove `value`: the entries vanish from the state, and the dots are
    /// recorded as retractions in the delta buffer.
    pub fn remove(&mut self, value: &str)
        requires
            old(self).wf(),
        ensures
            final(self).wf(),
            final(self)@.replica == old(self)@.replica,
            final(self)@.state.ctx == old(self)@.state.ctx,
            final(self)@.state.entries == entries_minus(old(self)@.state.entries, value@),
            final(self)@.delta.entries == old(self)@.delta.entries,
            forall|x: Dot| #![trigger ctx_contains(final(self)@.delta.ctx, x)]
                ctx_contains(final(self)@.delta.ctx, x) <==> ctx_contains(old(self)@.delta.ctx, x)
                    || entry_dots_of(old(self)@.state.entries, value@).contains(x),
    {
        proof {
            old(self).lemma_wf_ok();
        }
        self.state.remove(value, &mut self.delta);
        proof {
            assert forall|x: Dot|
                #[trigger] self@.state.entries.dom().contains(x) && ctx_contains(
                self@.delta.ctx,
                x,
            ) implies self@.delta.entries.dom().contains(x) by {
                assert(old(self)@.state.entries.dom().contains(x) && old(self)@.state.entries[x]
                    != value@);
                assert(!entry_dots_of(old(self)@.state.entries, value@).contains(x));
                assert(ctx_contains(old(self)@.delta.ctx, x));
            }
            assert forall|x: Dot| #[trigger]
                ctx_contains(self@.delta.ctx, x) implies ctx_contains(self@.state.ctx, x) by {
                if entry_dots_of(old(self)@.state.entries, value@).contains(x) {
                    old(self).state.lemma_wf_ok();
                }
            }
        }
    }

    /// Fold a shipped delta into the buffer, then fold the whole buffer
    /// into the state, so that a relay re-ships upstream changes.
    pub fn merge_delta(&mut self, delta: DotKernel)
        requires
            old(self).wf(),
            delta.wf(),
        ensures
            final(self).wf(),
            final(self)@.replica == old(self)@.replica,
            final(self)@.delta.entries == join_entries(old(self)@.delta, delta@),
            forall|x: Dot| #![trigger ctx_contains(final(self)@.delta.ctx, x)]
                ctx_contains(final(self)@.delta.ctx, x) <==> ctx_contains(old(self)@.delta.ctx, x)
                    || ctx_contains(delta@.ctx, x),
            final(self)@.state.entries == join_entries(old(self)@.state, final(self)@.delta),
            forall|x: Dot| #![trigger ctx_contains(final(self)@.state.ctx, x)]
                ctx_contains(final(self)@.state.ctx, x) <==> ctx_contains(old(self)@.state.ctx, x)
                    || ctx_contains(final(self)@.delta.ctx, x),
    {
        proof {
            old(self).lemma_wf_ok();
        }
        self.delta.merge(delta);
        let buffered = self.delta.clone();
        self.state.merge(buffered);
        proof {
            self.delta.lemma_wf_ok();
            lemma_absorbed_from_join(old(self)@.state, self@.delta, self@.state);
        }
    }

    /// Hand out the buffered delta, leaving an empty buffer behind.
    pub fn split_delta(&mut self) -> (d: DotKernel)
        requires
            old(self).wf(),
        ensures
            final(self).wf(),
            d.wf(),
            d@ == old(self)@.delta,
            final(self)@.replica == old(self)@.replica,
            final(self)@.state == old(self)@.state,
            kernel_is_empty(final(self)@.delta),
    {
        let mut fresh_kernel = DotKernel::new();
        core::mem::swap(&mut self.delta, &mut fresh_kernel);
        fresh_kernel
    }
}

impl Convergent for AWORSet {
    type Delta = DotKernel;

    open spec fn wf(&self) -> bool {
        AWORSet::wf(self)
    }

    open spec fn delta_wf(d: &DotKernel) -> bool {
        d.wf()
    }

    /// A full-state merge joins the delta buffers and the state kernels.
    open spec fn merged(pre: SetView, other: SetView, post: SetView) -> bool {
        &&& post.replica == pre.replica
        &&& post.state.entries == join_entries(pre.state, other.state)
        &&& forall|x: Dot| #[trigger]
            ctx_contains(post.state.ctx, x) <==> ctx_contains(pre.state.ctx, x) || ctx_contains(
                other.state.ctx,
                x,
            )
        &&& post.delta.entries == join_entries(pre.delta, other.delta)
        &&& forall|x: Dot| #[trigger]
            ctx_contains(post.delta.ctx, x) <==> ctx_contains(pre.delta.ctx, x) || ctx_contains(
                other.delta.ctx,
                x,
            )
    }

    /// A shipped delta is folded into the buffer and then into the state.
    open spec fn delta_merged(pre: SetView, d: KernelView, post: SetView) -> bool {
        &&& post.replica == pre.replica
        &&& post.delta.entries == join_entries(pre.delta, d)
        &&& forall|x: Dot| #[trigger]
            ctx_contains(post.delta.ctx, x) <==> ctx_contains(pre.delta.ctx, x) || ctx_contains(
                d.ctx,
                x,
            )
        &&& post.state.entries == join_entries(pre.state, post.delta)
        &&& forall|x: Dot| #[trigger]
            ctx_contains(post.state.ctx, x) <==> ctx_contains(pre.state.ctx, x) || ctx_contains(
                post.delta.ctx,
                x,
            )
    }

    /// The buffer is handed out whole when it holds anything, and `None`
    /// is returned exactly when it is empty.
    open spec fn delta_taken(pre: SetView, d: Option<KernelView>, post: SetView) -> bool {
        match d {
            Some(dd) => {
                &&& !kernel_is_empty(dd)
                &&& dd == pre.delta
                &&& post.replica == pre.replica
                &&& post.state == pre.state
                &&& kernel_is_empty(post.delta)
            },
            None => {
                &&& kernel_is_empty(pre.delta)
                &&& post == pre
            },
        }
    }

    open spec fn fresh_val() -> SetView {
        SetView { replica: 0, state: kernel_empty(), delta: kernel_empty() }
    }

    /// A synthesized set carries the null replica identity; a set meant to
    /// be mutated locally should be built with `new` instead.
    fn fresh() -> (r: Self) {
        let r = AWORSet::new(0);
        proof {
            assert(r@ =~~= Self::fresh_val());
        }
        r
    }

    fn duplicate(&self) -> (r: Self) {
        self.clone()
    }

    fn duplicate_delta(d: &Self::Delta) -> (r: Self::Delta) {
        d.clone()
    }

    fn merge(&mut self, other: Self) {
        let ghost o = other@;
        proof {
            old(self).lemma_wf_ok();
            other.lemma_wf_ok();
        }
        let AWORSet { replica_id: _, state: other_state, delta: other_delta } = other;
        self.delta.merge(other_delta);
        self.state.merge(other_state);
        proof {
            lemma_absorbed_join(
                old(self)@.state,
                old(self)@.delta,
                o.state,
                o.delta,
                self@.state,
                self@.delta,
            );
        }
    }

    fn merge_delta(&mut self, delta: DotKernel) {
        AWORSet::merge_delta(self, delta);
    }

    fn take_delta(&mut self) -> (d: Option<DotKernel>) {
        if self.delta.is_empty() {
            None
        } else {
            Some(self.split_delta())
        }
    }
}


/// Every live entry of the kernel model is known to its history.
pub open spec fn kernel_covered(k: KernelView) -> bool {
    forall|d: Dot| #[trigger] k.entries.dom().contains(d) ==> ctx_contains(k.ctx, d)
}

/// Two kernel models with the same live entries and the same known dots
/// are observably the same state.
pub open spec fn kernel_equiv(a: KernelView, b: KernelView) -> bool {
    &&& a.entries =~= b.entries
    &&& forall|d: Dot| #[trigger] ctx_contains(a.ctx, d) <==> ctx_contains(b.ctx, d)
}

/// The two kernels give every shared dot the same element.
pub open spec fn kernel_agree(a: KernelView, b: KernelView) -> bool {
    forall|d: Dot|
        #[trigger] a.entries.dom().contains(d) && #[trigger] b.entries.dom().contains(d)
            ==> a.entries[d] == b.entries[d]
}

/// What one kernel merge leaves behind, stated over models.
pub open spec fn kernel_merged(a: KernelView, b: KernelView, post: KernelView) -> bool {
    &&& post.entries == join_entries(a, b)
    &&& forall|d: Dot| #[trigger]
        ctx_contains(post.ctx, d) <==> ctx_contains(a.ctx, d) || ctx_contains(b.ctx, d)
}

/// Merge is idempotent: merging the same peer a second time changes
/// nothing beyond the first merge.
pub proof fn lemma_kernel_merge_reapply(
    a: KernelView,
    b: KernelView,
    once: KernelView,
    twice: KernelView,
)
    requires
        kernel_covered(a),
        kernel_covered(b),
        kernel_merged(a, b, once),
        kernel_merged(once, b, twice),
    ensures
        kernel_equiv(twice, once),
{
    assert forall|d: Dot| #[trigger]
        twice.entries.dom().contains(d) <==> once.entries.dom().contains(d) by {
        if once.entries.dom().contains(d) {
            assert(!tombstoned(b, d) || b.entries.dom().contains(d));
        }
        if b.entries.dom().contains(d) && !once.entries.dom().contains(d) {
            assert(ctx_contains(b.ctx, d));
            assert(ctx_contains(once.ctx, d));
        }
    }
    assert(twice.entries =~= once.entries);
}

/// Merge is commutative: when the two kernels agree on shared dots, the
/// two merge orders converge to the same observable state.
pub proof fn lemma_kernel_merge_commutes(
    a: KernelView,
    b: KernelView,
    ab: KernelView,
    ba: KernelView,
)
    requires
        kernel_covered(a),
        kernel_covered(b),
        kernel_agree(a, b),
        kernel_merged(a, b, ab),
        kernel_merged(b, a, ba),
    ensures
        kernel_equiv(ab, ba),
{
    assert forall|d: Dot| #[trigger]
        ab.entries.dom().contains(d) <==> ba.entries.dom().contains(d) by {}
    assert forall|d: Dot| #[trigger]
        ab.entries.dom().contains(d) implies ab.entries[d] == ba.entries[d] by {}
    assert(ab.entries =~= ba.entries);
}

/// Merge is associative: either grouping of three kernels converges to
/// the same observable state.
pub proof fn lemma_kernel_merge_associates(
    a: KernelView,
    b: KernelView,
    c: KernelView,
    ab: KernelView,
    ab_c: KernelView,
    bc: KernelView,
    a_bc: KernelView,
)
    requires
        kernel_covered(a),
        kernel_covered(b),
        kernel_covered(c),
        kernel_merged(a, b, ab),
        kernel_merged(ab, c, ab_c),
        kernel_merged(b, c, bc),
        kernel_merged(a, bc, a_bc),
    ensures
        kernel_equiv(ab_c, a_bc),
{
    assert forall|d: Dot| #[trigger]
        ab_c.entries.dom().contains(d) <==> a_bc.entries.dom().contains(d) by {
        assert(ab.entries.dom().contains(d) <==> ((a.entries.dom().contains(d) && !tombstoned(
            b,
            d,
        )) || (b.entries.dom().contains(d) && !a.entries.dom().contains(d) && !ctx_contains(
            a.ctx,
            d,
        ))));
        assert(bc.entries.dom().contains(d) <==> ((b.entries.dom().contains(d) && !tombstoned(
            c,
            d,
        )) || (c.entries.dom().contains(d) && !b.entries.dom().contains(d) && !ctx_contains(
            b.ctx,
            d,
        ))));
    }
    assert forall|d: Dot| #[trigger]
        ab_c.entries.dom().contains(d) implies ab_c.entries[d] == a_bc.entries[d] by {
        assert(a_bc.entries.dom().contains(d));
        if a.entries.dom().contains(d) {
            assert(ab.entries.dom().contains(d) ==> ab.entries[d] == a.entries[d]);
            assert(a_bc.entries[d] == a.entries[d]);
            assert(ab_c.entries.dom().contains(d) && !ab.entries.dom().contains(d)
                ==> !ctx_contains(ab.ctx, d) && false);
        } else if b.entries.dom().contains(d) {
            assert(ab.entries.dom().contains(d) ==> ab.entries[d] == b.entries[d]);
            assert(bc.entries.dom().contains(d) ==> bc.entries[d] == b.entries[d]);
        } else {
            assert(ab_c.entries[d] == c.entries[d]);
            assert(bc.entries.dom().contains(d) ==> bc.entries[d] == c.entries[d]);
            assert(a_bc.entries[d] == c.entries[d]);
        }
    }
    assert(ab_c.entries =~= a_bc.entries);
}

/// Add-wins: if `s1` and `s2` both hold `e`, `s1` removes it while `s2`
/// re-adds it under a dot the remover has never seen, then the merge of
/// the two still holds `e`.
pub proof fn lemma_add_wins(
    s1: KernelView,
    s1_removed: KernelView,
    s2: KernelView,
    s2_added: KernelView,
    merged: KernelView,
    e: Seq<char>,
    dn: Dot,
)
    requires
        kernel_covered(s1),
        kernel_elems(s1).contains(e),
        kernel_elems(s2).contains(e),
        // s1 removes e: the entries vanish, the history is unchanged
        s1_removed.entries == entries_minus(s1.entries, e),
        s1_removed.ctx == s1.ctx,
        // s2 re-adds e under the fresh dot dn, unknown to s1
        s2_added.entries == entries_minus(s2.entries, e).insert(dn, e),
        !ctx_contains(s1.ctx, dn),
        // the two results are merged
        kernel_merged(s1_removed, s2_added, merged),
    ensures
        kernel_elems(merged).contains(e),
{
    assert(s2_added.entries.dom().contains(dn) && s2_added.entries[dn] == e);
    assert(!s1_removed.entries.dom().contains(dn));
    assert(merged.entries.dom().contains(dn) && merged.entries[dn] == e);
}

/// Delta round trip: if `b` is a well-formed replica whose buffered delta
/// is absorbed in its state, and the shipped kernel `shipped` captures
/// exactly the peer's advance over `b`'s state (the peer state equals
/// `b`'s state joined with `shipped`), then folding the delta in and
/// merging the full peer state leave the same observable state.
pub proof fn lemma_delta_round_trip(
    b_state: KernelView,
    b_delta: KernelView,
    shipped: KernelView,
    peer_state: KernelView,
    delta_buffer: KernelView,
    via_delta: KernelView,
    via_full: KernelView,
)
    requires
        kernel_covered(b_state),
        kernel_covered(b_delta),
        kernel_covered(shipped),
        absorbed(b_state, b_delta),
        // the peer's state is b's state plus the shipped changes
        kernel_merged(b_state, shipped, peer_state),
        // the delta path: the buffer takes the shipped kernel, then the
        // state takes the whole buffer
        kernel_merged(b_delta, shipped, delta_buffer),
        kernel_merged(b_state, delta_buffer, via_delta),
        // the full path: the state takes the whole peer state
        kernel_merged(b_state, peer_state, via_full),
    ensures
        kernel_equiv(via_delta, via_full),
{
    assert forall|d: Dot| #[trigger]
        ctx_contains(via_delta.ctx, d) <==> ctx_contains(via_full.ctx, d) by {}
    assert forall|d: Dot| #[trigger]
        via_delta.entries.dom().contains(d) <==> via_full.entries.dom().contains(d) by {
        if b_state.entries.dom().contains(d) {
            if ctx_contains(b_delta.ctx, d) {
                assert(b_delta.entries.dom().contains(d));
            }
        } else {
            if ctx_contains(b_delta.ctx, d) {
                assert(ctx_contains(b_state.ctx, d));
            }
            if !ctx_contains(b_state.ctx, d) && b_delta.entries.dom().contains(d) {
                assert(ctx_contains(b_delta.ctx, d));
                assert(false);
            }
        }
    }
    assert forall|d: Dot| #[trigger]
        via_delta.entries.dom().contains(d) implies via_delta.entries[d] == via_full.entries[
        d] by {
        if b_state.entries.dom().contains(d) {
        } else {
            if b_delta.entries.dom().contains(d) {
                assert(ctx_contains(b_delta.ctx, d));
                assert(ctx_contains(b_state.ctx, d));
                assert(false);
            }
            assert(via_delta.entries[d] == delta_buffer.entries[d]);
            assert(delta_buffer.entries[d] == shipped.entries[d]);
            assert(via_full.entries[d] == peer_state.entries[d]);
            assert(peer_state.entries[d] == shipped.entries[d]);
        }
    }
    assert(via_delta.entries =~= via_full.entries);
}

/// The round trip at the set level: for a well-formed receiving replica
/// (its buffered delta is absorbed in its state) and a peer whose state is
/// the receiver's state plus the shipped kernel, folding the shipped
/// kernel in and merging the peer's full state leave the same observable
/// state.
pub proof fn lemma_set_delta_round_trip(
    b: SetView,
    a: SetView,
    shipped: KernelView,
    via_delta: SetView,
    via_full: SetView,
)
    requires
        kernel_covered(b.state),
        kernel_covered(b.delta),
        kernel_covered(shipped),
        absorbed(b.state, b.delta),
        kernel_merged(b.state, shipped, a.state),
        <AWORSet as Convergent>::delta_merged(b, shipped, via_delta),
        <AWORSet as Convergent>::merged(b, a, via_full),
    ensures
        kernel_equiv(via_delta.state, via_full.state),
{
    lemma_delta_round_trip(
        b.state,
        b.delta,
        shipped,
        a.state,
        via_delta.delta,
        via_delta.state,
        via_full.state,
    );
}

/// The laws above, lifted to whole add-wins sets: merging applies the
/// kernel merge to the state and the delta buffer independently.
pub proof fn lemma_set_merge_reapply(x: SetView, y: SetView, once: SetView, twice: SetView)
    requires
        kernel_covered(x.state),
        kernel_covered(x.delta),
        kernel_covered(y.state),
        kernel_covered(y.delta),
        <AWORSet as Convergent>::merged(x, y, once),
        <AWORSet as Convergent>::merged(once, y, twice),
    ensures
        kernel_equiv(twice.state, once.state),
        kernel_equiv(twice.delta, once.delta),
        twice.replica == once.replica,
{
    lemma_kernel_merge_reapply(x.state, y.state, once.state, twice.state);
    lemma_kernel_merge_reapply(x.delta, y.delta, once.delta, twice.delta);
}

pub proof fn lemma_set_merge_commutes(x: SetView, y: SetView, xy: SetView, yx: SetView)
    requires
        kernel_covered(x.state),
        kernel_covered(x.delta),
        kernel_covered(y.state),
        kernel_covered(y.delta),
        kernel_agree(x.state, y.state),
        kernel_agree(x.delta, y.delta),
        <AWORSet as Convergent>::merged(x, y, xy),
        <AWORSet as Convergent>::merged(y, x, yx),
    ensures
        kernel_equiv(xy.state, yx.state),
        kernel_equiv(xy.delta, yx.delta),
{
    lemma_kernel_merge_commutes(x.state, y.state, xy.state, yx.state);
    lemma_kernel_merge_commutes(x.delta, y.delta, xy.delta, yx.delta);
}

pub proof fn lemma_set_merge_associates(
    x: SetView,
    y: SetView,
    z: SetView,
    xy: SetView,
    xy_z: SetView,
    yz: SetView,
    x_yz: SetView,
)
    requires
        kernel_covered(x.state),
        kernel_covered(x.delta),
        kernel_covered(y.state),
        kernel_covered(y.delta),
        kernel_covered(z.state),
        kernel_covered(z.delta),
        <AWORSet as Convergent>::merged(x, y, xy),
        <AWORSet as Convergent>::merged(xy, z, xy_z),
        <AWORSet as Convergent>::merged(y, z, yz),
        <AWORSet as Convergent>::merged(x, yz, x_yz),
    ensures
        kernel_equiv(xy_z.state, x_yz.state),
        kernel_equiv(xy_z.delta, x_yz.delta),
{
    lemma_kernel_merge_associates(x.state, y.state, z.state, xy.state, xy_z.state, yz.state, x_yz.state);
    lemma_kernel_merge_associates(x.delta, y.delta, z.delta, xy.delta, xy_z.delta, yz.delta, x_yz.delta);
}


/// A kernel without tombstones: every dot the history knows still names a
/// live entry.
pub open spec fn kernel_tombstone_free(k: KernelView) -> bool {
    forall|d: Dot| #[trigger] ctx_contains(k.ctx, d) <==> k.entries.dom().contains(d)
}

/// Merging two tombstone-free kernels that agree on shared dots keeps the
/// kernel tombstone free and unites the elements.
pub proof fn lemma_kernel_merge_elems_union(a: KernelView, b: KernelView, j: KernelView)
    requires
        kernel_tombstone_free(a),
        kernel_tombstone_free(b),
        kernel_agree(a, b),
        kernel_merged(a, b, j),
    ensures
        kernel_tombstone_free(j),
        kernel_agree(j, a),
        kernel_agree(j, b),
        kernel_elems(j) =~= kernel_elems(a).union(kernel_elems(b)),
{
    assert forall|d: Dot| #[trigger]
        j.entries.dom().contains(d) <==> a.entries.dom().contains(d) || b.entries.dom().contains(
        d,
    ) by {
        if a.entries.dom().contains(d) {
            assert(!tombstoned(b, d));
        }
        if b.entries.dom().contains(d) && !a.entries.dom().contains(d) {
            assert(!ctx_contains(a.ctx, d));
        }
    }
    assert forall|e: Seq<char>| #[trigger]
        kernel_elems(j).contains(e) implies kernel_elems(a).contains(e) || kernel_elems(
        b,
    ).contains(e) by {
        let d = choose|d: Dot| #[trigger] j.entries.dom().contains(d) && j.entries[d] == e;
        if a.entries.dom().contains(d) {
            assert(a.entries.dom().contains(d) && a.entries[d] == e);
        } else {
            assert(b.entries.dom().contains(d) && b.entries[d] == e);
        }
    }
    assert forall|e: Seq<char>| #[trigger]
        kernel_elems(a).contains(e) implies kernel_elems(j).contains(e) by {
        let d = choose|d: Dot| #[trigger] a.entries.dom().contains(d) && a.entries[d] == e;
        assert(!tombstoned(b, d));
        assert(j.entries.dom().contains(d) && j.entries[d] == e);
    }
    assert forall|e: Seq<char>| #[trigger]
        kernel_elems(b).contains(e) implies kernel_elems(j).contains(e) by {
        let d = choose|d: Dot| #[trigger] b.entries.dom().contains(d) && b.entries[d] == e;
        assert(j.entries.dom().contains(d));
        if a.entries.dom().contains(d) {
            assert(j.entries[d] == a.entries[d]);
            assert(a.entries[d] == b.entries[d]);
        }
        assert(j.entries[d] == e);
    }
}

} // verus!
