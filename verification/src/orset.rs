//! The observe-remove set over paired add/remove vector clocks.
//!
//! Kept for lineage and as a simpler alternative to the dot-kernel set:
//! each element carries one clock on the side it was last written to, and
//! merges resolve collisions by clock dominance, with concurrent add and
//! remove resolving to add-wins.

use crate::common::{cnt, counts_ok, join_counts, leq_counts, ReplicaId};
use crate::gcounter::Convergent;
use crate::vclock::VClock;
use vstd::prelude::*;

verus! {

use core::cmp::Ordering;

/// The model of an observe-remove set: the replica identity and the two
/// clock maps.
#[verifier::ext_equal]
pub ghost struct ORView {
    pub replica: ReplicaId,
    pub add: Map<Seq<char>, Map<ReplicaId, u64>>,
    pub rem: Map<Seq<char>, Map<ReplicaId, u64>>,
}

/// Strict clock dominance: `a` is below `b` and not equal.
pub open spec fn clock_lt(a: Map<ReplicaId, u64>, b: Map<ReplicaId, u64>) -> bool {
    leq_counts(a, b) && !leq_counts(b, a)
}

/// Pointwise vector-clock join of two clock maps keyed by element.
pub open spec fn join_clock_maps(
    x: Map<Seq<char>, Map<ReplicaId, u64>>,
    y: Map<Seq<char>, Map<ReplicaId, u64>>,
) -> Map<Seq<char>, Map<ReplicaId, u64>> {
    Map::new(
        |k: Seq<char>| x.dom().contains(k) || y.dom().contains(k),
        |k: Seq<char>|
            if x.dom().contains(k) && y.dom().contains(k) {
                join_counts(x[k], y[k])
            } else if x.dom().contains(k) {
                x[k]
            } else {
                y[k]
            },
    )
}

/// Membership: the element has an add clock that is not strictly below
/// its remove clock.
pub open spec fn or_contains(m: ORView, k: Seq<char>) -> bool {
    m.add.dom().contains(k) && !(m.rem.dom().contains(k) && clock_lt(m.add[k], m.rem[k]))
}

/// The strongest clock already known for `k`, from either side.
pub open spec fn or_base(m: ORView, k: Seq<char>) -> Map<ReplicaId, u64> {
    if m.add.dom().contains(k) {
        m.add[k]
    } else if m.rem.dom().contains(k) {
        m.rem[k]
    } else {
        Map::<ReplicaId, u64>::empty()
    }
}

/// A well-formed clock map collection.
pub open spec fn clock_map_ok(m: Map<Seq<char>, Map<ReplicaId, u64>>) -> bool {
    &&& m.dom().finite()
    &&& forall|k: Seq<char>| #[trigger] m.dom().contains(k) ==> counts_ok(m[k])
}

/// The model of a stored element-to-clock list.
pub open spec fn alist_clocks(s: Seq<(String, VClock)>) -> Map<Seq<char>, Map<ReplicaId, u64>>
    decreases s.len(),
{
    if s.len() == 0 {
        Map::<Seq<char>, Map<ReplicaId, u64>>::empty()
    } else {
        alist_clocks(s.drop_last()).insert(s.last().0@, s.last().1@)
    }
}

pub open spec fn clock_keys_unique(s: Seq<(String, VClock)>) -> bool {
    forall|i: int, j: int| 0 <= i < j < s.len() ==> (#[trigger] s[i]).0@ != (#[trigger] s[j]).0@
}

proof fn lemma_clocks_dom(s: Seq<(String, VClock)>, k: Seq<char>)
    ensures
        alist_clocks(s).dom().contains(k) <==> exists|i: int|
            0 <= i < s.len() && (#[trigger] s[i]).0@ == k,
    decreases s.len(),
{
    if s.len() > 0 {
        lemma_clocks_dom(s.drop_last(), k);
        if alist_clocks(s).dom().contains(k) {
            if s.last().0@ != k {
                let i = choose|i: int|
                    0 <= i < s.drop_last().len() && (#[trigger] s.drop_last()[i]).0@ == k;
                assert(s[i].0@ == k);
            } else {
                assert(s[s.len() - 1].0@ == k);
            }
        } else {
            assert(forall|i: int| 0 <= i < s.drop_last().len() ==> s.drop_last()[i] == s[i]);
        }
    }
}

proof fn lemma_clocks_get(s: Seq<(String, VClock)>, i: int)
    requires
        clock_keys_unique(s),
        0 <= i < s.len(),
    ensures
        alist_clocks(s).dom().contains(s[i].0@),
        alist_clocks(s)[s[i].0@] == s[i].1@,
    decreases s.len(),
{
    if i == s.len() - 1 {
    } else {
        lemma_clocks_get(s.drop_last(), i);
        assert(s.drop_last()[i] == s[i]);
        assert(s.last().0@ != s[i].0@);
    }
}

proof fn lemma_clocks_finite(s: Seq<(String, VClock)>)
    ensures
        alist_clocks(s).dom().finite(),
    decreases s.len(),
{
    if s.len() > 0 {
        lemma_clocks_finite(s.drop_last());
    }
}

proof fn lemma_clocks_update(s: Seq<(String, VClock)>, i: int, p: (String, VClock))
    requires
        clock_keys_unique(s),
        0 <= i < s.len(),
        p.0@ == s[i].0@,
    ensures
        alist_clocks(s.update(i, p)) =~= alist_clocks(s).insert(s[i].0@, p.1@),
    decreases s.len(),
{
    let t = s.update(i, p);
    if i == s.len() - 1 {
        assert(t.drop_last() =~= s.drop_last());
    } else {
        lemma_clocks_update(s.drop_last(), i, p);
        assert(t.drop_last() =~= s.drop_last().update(i, p));
        assert(s.drop_last()[i] == s[i]);
        assert(s.last().0@ != s[i].0@);
        assert(t.last() == s.last());
    }
}

/// Look up the clock stored for `key`.
#[verifier::loop_isolation(false)]
fn lookup<'a>(list: &'a Vec<(String, VClock)>, key: &str) -> (r: Option<&'a VClock>)
    requires
        clock_keys_unique(list@),
        forall|l: int| 0 <= l < list@.len() ==> (#[trigger] list@[l]).1.wf(),
    ensures
        match r {
            Some(c) => alist_clocks(list@).dom().contains(key@) && c@ == alist_clocks(list@)[key@]
                && c.wf(),
            None => !alist_clocks(list@).dom().contains(key@),
        },
{
    let k: String = key.to_owned();
    let n = list.len();
    let mut i: usize = 0;
    while i < n
        invariant
            0 <= i <= n,
            k@ == key@,
            forall|j: int| 0 <= j < i ==> (#[trigger] list@[j]).0@ != key@,
        decreases n - i,
    {
        if list[i].0 == k {
            proof {
                lemma_clocks_get(list@, i as int);
            }
            return Some(&list[i].1);
        }
        i = i + 1;
    }
    proof {
        lemma_clocks_dom(list@, key@);
    }
    None
}

/// Remove the entry for `key`, if any.
#[verifier::loop_isolation(false)]
fn remove_key(list: &mut Vec<(String, VClock)>, key: &str)
    requires
        clock_keys_unique(old(list)@),
        forall|l: int| 0 <= l < old(list)@.len() ==> (#[trigger] old(list)@[l]).1.wf(),
    ensures
        clock_keys_unique(final(list)@),
        forall|l: int| 0 <= l < final(list)@.len() ==> (#[trigger] final(list)@[l]).1.wf(),
        alist_clocks(final(list)@) =~= alist_clocks(old(list)@).remove(key@),
{
    let k: String = key.to_owned();
    let n = list.len();
    let mut i: usize = 0;
    while i < n
        invariant
            0 <= i <= n,
            k@ == key@,
            list@ == old(list)@,
            forall|j: int| 0 <= j < i ==> (#[trigger] list@[j]).0@ != key@,
        decreases n - i,
    {
        if list[i].0 == k {
            proof {
                lemma_clocks_get(list@, i as int);
            }
            let ghost pre = list@;
            list.remove(i);
            proof {
                assert forall|k2: Seq<char>| #![trigger alist_clocks(list@).dom().contains(k2)]
                    true implies (alist_clocks(list@).dom().contains(k2) <==> alist_clocks(
                    pre,
                ).remove(key@).dom().contains(k2)) && (alist_clocks(list@).dom().contains(k2)
                    ==> alist_clocks(list@)[k2] == alist_clocks(pre).remove(key@)[k2]) by {
                    lemma_clocks_dom(list@, k2);
                    lemma_clocks_dom(pre, k2);
                    if alist_clocks(list@).dom().contains(k2) {
                        let l = choose|l: int|
                            0 <= l < list@.len() && (#[trigger] list@[l]).0@ == k2;
                        lemma_clocks_get(list@, l);
                        if l < i {
                            assert(pre[l] == list@[l]);
                            lemma_clocks_get(pre, l);
                        } else {
                            assert(pre[l + 1] == list@[l]);
                            lemma_clocks_get(pre, l + 1);
                        }
                    } else if alist_clocks(pre).remove(key@).dom().contains(k2) {
                        let l = choose|l: int| 0 <= l < pre.len() && (#[trigger] pre[l]).0@ == k2;
                        if l < i {
                            assert(list@[l] == pre[l]);
                        } else if l > i {
                            assert(list@[l - 1] == pre[l]);
                        }
                    }
                }
                assert(alist_clocks(list@) =~= alist_clocks(pre).remove(key@));
                assert forall|l1: int, l2: int|
                    0 <= l1 < l2 < list@.len() implies (#[trigger] list@[l1]).0@ != (
                #[trigger] list@[l2]).0@ by {
                    let p1: int = if l1 < i { l1 } else { l1 + 1 };
                    let p2: int = if l2 < i { l2 } else { l2 + 1 };
                    assert(list@[l1] == pre[p1] && list@[l2] == pre[p2]);
                }
                assert forall|l: int|
                    0 <= l < list@.len() implies (#[trigger] list@[l]).1.wf() by {
                    let p: int = if l < i { l } else { l + 1 };
                    assert(list@[l] == pre[p]);
                }
            }
            return ;
        }
        i = i + 1;
    }
    proof {
        lemma_clocks_dom(list@, key@);
        assert(alist_clocks(list@) =~= alist_clocks(list@).remove(key@));
    }
}

/// Store `(key, clock)`, replacing any entry for `key`.
#[verifier::loop_isolation(false)]
fn put_clock(list: &mut Vec<(String, VClock)>, key: &str, clock: VClock)
    requires
        clock_keys_unique(old(list)@),
        forall|l: int| 0 <= l < old(list)@.len() ==> (#[trigger] old(list)@[l]).1.wf(),
        clock.wf(),
    ensures
        clock_keys_unique(final(list)@),
        forall|l: int| 0 <= l < final(list)@.len() ==> (#[trigger] final(list)@[l]).1.wf(),
        alist_clocks(final(list)@) =~= alist_clocks(old(list)@).insert(key@, clock@),
{
    let k: String = key.to_owned();
    let n = list.len();
    let mut i: usize = 0;
    while i < n
        invariant
            0 <= i <= n,
            k@ == key@,
            list@ == old(list)@,
            forall|j: int| 0 <= j < i ==> (#[trigger] list@[j]).0@ != key@,
        decreases n - i,
    {
        if list[i].0 == k {
            let ghost pre = list@;
            let ghost ck = clock@;
            list[i] = (k, clock);
            proof {
                lemma_clocks_update(pre, i as int, (list@[i as int].0, list@[i as int].1));
                assert(list@ =~= pre.update(i as int, list@[i as int]));
                assert forall|l: int|
                    0 <= l < list@.len() implies (#[trigger] list@[l]).1.wf() by {
                    if l != i {
                        assert(list@[l] == pre[l]);
                    }
                }
                assert forall|l1: int, l2: int|
                    0 <= l1 < l2 < list@.len() implies (#[trigger] list@[l1]).0@ != (
                #[trigger] list@[l2]).0@ by {
                    assert(list@[l1].0@ == pre[l1].0@ && list@[l2].0@ == pre[l2].0@);
                }
            }
            return ;
        }
        i = i + 1;
    }
    proof {
        lemma_clocks_dom(list@, key@);
    }
    let ghost pre = list@;
    list.push((k, clock));
    proof {
        assert(list@.drop_last() =~= pre);
        assert forall|l: int| 0 <= l < list@.len() implies (#[trigger] list@[l]).1.wf() by {
            if l < list@.len() - 1 {
                assert(list@[l] == pre[l]);
            }
        }
        assert forall|l1: int, l2: int|
            0 <= l1 < l2 < list@.len() implies (#[trigger] list@[l1]).0@ != (
        #[trigger] list@[l2]).0@ by {
            if l2 == list@.len() - 1 {
                assert(list@[l1] == pre[l1]);
            } else {
                assert(list@[l1] == pre[l1] && list@[l2] == pre[l2]);
            }
        }
    }
}

/// Merge the clock map `b` into `a`: keys are united and collisions take
/// the pointwise clock join.
#[verifier::loop_isolation(false)]
pub fn merge_keys(a: &mut Vec<(String, VClock)>, b: Vec<(String, VClock)>)
    requires
        clock_keys_unique(old(a)@),
        forall|l: int| 0 <= l < old(a)@.len() ==> (#[trigger] old(a)@[l]).1.wf(),
        clock_keys_unique(b@),
        forall|l: int| 0 <= l < b@.len() ==> (#[trigger] b@[l]).1.wf(),
    ensures
        clock_keys_unique(final(a)@),
        forall|l: int| 0 <= l < final(a)@.len() ==> (#[trigger] final(a)@[l]).1.wf(),
        alist_clocks(final(a)@) =~= join_clock_maps(alist_clocks(old(a)@), alist_clocks(b@)),
{
    proof {
        assert(b@.take(0) =~= Seq::<(String, VClock)>::empty());
    }
    let n = b.len();
    let mut j: usize = 0;
    while j < n
        invariant
            0 <= j <= n,
            clock_keys_unique(a@),
            forall|l: int| 0 <= l < a@.len() ==> (#[trigger] a@[l]).1.wf(),
            alist_clocks(a@) =~= join_clock_maps(
                alist_clocks(old(a)@),
                alist_clocks(b@.take(j as int)),
            ),
        decreases n - j,
    {
        let ghost part = alist_clocks(b@.take(j as int));
        proof {
            lemma_clocks_get(b@, j as int);
            lemma_clocks_dom(b@.take(j as int), b@[j as int].0@);
            assert(forall|l: int| 0 <= l < j ==> #[trigger] b@.take(j as int)[l] == b@[l]);
            assert(!part.dom().contains(b@[j as int].0@));
            assert(b@.take(j as int + 1).drop_last() =~= b@.take(j as int));
            assert(alist_clocks(b@.take(j as int + 1)) == part.insert(b@[j as int].0@, b@[
                j as int].1@));
        }
        let ghost pre = alist_clocks(a@);
        let found = lookup(a, b[j].0.as_str());
        match found {
            Some(c) => {
                let mut merged: VClock = c.clone();
                merged.merge(&b[j].1);
                put_clock(a, b[j].0.as_str(), merged);
            },
            None => {
                put_clock(a, b[j].0.as_str(), b[j].1.clone());
            },
        }
        proof {
            assert(alist_clocks(a@) =~= join_clock_maps(
                alist_clocks(old(a)@),
                alist_clocks(b@.take(j as int + 1)),
            ));
        }
        j = j + 1;
    }
    proof {
        assert(b@.take(n as int) =~= b@);
    }
}

/// An observe-remove set: each element carries one vector clock on the
/// side (add or remove) it was last written to on this replica.
#[derive(Debug, PartialEq)]
pub struct ORSet {
    replica_id: ReplicaId,
    add: Vec<(String, VClock)>,
    rem: Vec<(String, VClock)>,
}

impl View for ORSet {
    type V = ORView;

    closed spec fn view(&self) -> ORView {
        ORView {
            replica: self.replica_id,
            add: alist_clocks(self.add@),
            rem: alist_clocks(self.rem@),
        }
    }
}

impl Clone for ORSet {
    /// A deep copy with the same model.
    #[verifier::loop_isolation(false)]
    fn clone(&self) -> (res: Self)
        ensures
            res@ == self@,
            self.wf() ==> res.wf(),
    {
        let mut add2: Vec<(String, VClock)> = Vec::new();
        let mut rem2: Vec<(String, VClock)> = Vec::new();
        let n = self.add.len();
        let mut i: usize = 0;
        while i < n
            invariant
                0 <= i <= n,
                add2@.len() == i,
                forall|j: int| 0 <= j < i ==> (#[trigger] add2@[j]).0@ == self.add@[j].0@
                    && add2@[j].1@ == self.add@[j].1@ && (add2@[j].1.wf() == self.add@[j].1.wf()),
            decreases n - i,
        {
            add2.push((self.add[i].0.clone(), self.add[i].1.clone()));
            i = i + 1;
        }
        let m = self.rem.len();
        let mut l: usize = 0;
        while l < m
            invariant
                0 <= l <= m,
                rem2@.len() == l,
                forall|j: int| 0 <= j < l ==> (#[trigger] rem2@[j]).0@ == self.rem@[j].0@
                    && rem2@[j].1@ == self.rem@[j].1@ && (rem2@[j].1.wf() == self.rem@[j].1.wf()),
            decreases m - l,
        {
            rem2.push((self.rem[l].0.clone(), self.rem[l].1.clone()));
            l = l + 1;
        }
        proof {
            lemma_clocks_view_eq(add2@, self.add@);
            lemma_clocks_view_eq(rem2@, self.rem@);
            if self.wf() {
                assert forall|j1: int, j2: int|
                    0 <= j1 < j2 < add2@.len() implies (#[trigger] add2@[j1]).0@ != (
                #[trigger] add2@[j2]).0@ by {
                    assert(self.add@[j1].0@ != self.add@[j2].0@);
                }
                assert forall|j1: int, j2: int|
                    0 <= j1 < j2 < rem2@.len() implies (#[trigger] rem2@[j1]).0@ != (
                #[trigger] rem2@[j2]).0@ by {
                    assert(self.rem@[j1].0@ != self.rem@[j2].0@);
                }
            }
        }
        ORSet { replica_id: self.replica_id, add: add2, rem: rem2 }
    }
}

/// Two lists with pointwise equal key and clock views have the same model.
proof fn lemma_clocks_view_eq(s: Seq<(String, VClock)>, t: Seq<(String, VClock)>)
    requires
        s.len() == t.len(),
        forall|j: int| 0 <= j < s.len() ==> (#[trigger] s[j]).0@ == t[j].0@ && s[j].1@ == t[j].1@,
    ensures
        alist_clocks(s) == alist_clocks(t),
    decreases s.len(),
{
    if s.len() > 0 {
        lemma_clocks_view_eq(s.drop_last(), t.drop_last());
        assert(forall|j: int|
            0 <= j < s.len() - 1 ==> (#[trigger] s.drop_last()[j]) == s[j] && t.drop_last()[j]
                == t[j]);
        assert(alist_clocks(s) =~= alist_clocks(t));
    }
}

impl ORSet {
    pub closed spec fn wf(&self) -> bool {
        &&& clock_keys_unique(self.add@)
        &&& clock_keys_unique(self.rem@)
        &&& forall|l: int| 0 <= l < self.add@.len() ==> (#[trigger] self.add@[l]).1.wf()
        &&& forall|l: int| 0 <= l < self.rem@.len() ==> (#[trigger] self.rem@[l]).1.wf()
    }

    pub proof fn lemma_wf_ok(&self)
        requires
            self.wf(),
        ensures
            clock_map_ok(self@.add),
            clock_map_ok(self@.rem),
    {
        lemma_clocks_finite(self.add@);
        lemma_clocks_finite(self.rem@);
        assert forall|k: Seq<char>| #[trigger]
            self@.add.dom().contains(k) implies counts_ok(self@.add[k]) by {
            lemma_clocks_dom(self.add@, k);
            let l = choose|l: int| 0 <= l < self.add@.len() && (#[trigger] self.add@[l]).0@ == k;
            lemma_clocks_get(self.add@, l);
            self.add@[l].1.lemma_wf_ok();
        }
        assert forall|k: Seq<char>| #[trigger]
            self@.rem.dom().contains(k) implies counts_ok(self@.rem[k]) by {
            lemma_clocks_dom(self.rem@, k);
            let l = choose|l: int| 0 <= l < self.rem@.len() && (#[trigger] self.rem@[l]).0@ == k;
            lemma_clocks_get(self.rem@, l);
            self.rem@[l].1.lemma_wf_ok();
        }
    }

    pub fn new(replica_id: ReplicaId) -> (s: ORSet)
        ensures
            s.wf(),
            s@.replica == replica_id,
            s@.add =~= Map::<Seq<char>, Map<ReplicaId, u64>>::empty(),
            s@.rem =~= Map::<Seq<char>, Map<ReplicaId, u64>>::empty(),
    {
        ORSet { replica_id, add: Vec::new(), rem: Vec::new() }
    }

    /// The clocks recorded for `key` on the add and remove side.
    fn pair<'a>(&'a self, key: &str) -> (r: (Option<&'a VClock>, Option<&'a VClock>))
        requires
            self.wf(),
        ensures
            match r.0 {
                Some(c) => self@.add.dom().contains(key@) && c@ == self@.add[key@] && c.wf(),
                None => !self@.add.dom().contains(key@),
            },
            match r.1 {
                Some(c) => self@.rem.dom().contains(key@) && c@ == self@.rem[key@] && c.wf(),
                None => !self@.rem.dom().contains(key@),
            },
    {
        (lookup(&self.add, key), lookup(&self.rem, key))
    }

    /// Whether the set holds `key`: an add clock exists and is not
    /// strictly dominated by the remove clock.
    pub fn contains(&self, key: &str) -> (r: bool)
        requires
            self.wf(),
        ensures
            r == or_contains(self@, key@),
    {
        match self.pair(key) {
            (Some(a), Some(b)) => !(matches!(a.partial_cmp(b), Some(Ordering::Less))),
            (Some(_), None) => true,
            _ => false,
        }
    }

    /// Add `key`: take the strongest clock known for it, drop any remove
    /// entry, advance the clock at this replica and store it on the add
    /// side.
    pub fn add(&mut self, key: &str)
        requires
            old(self).wf(),
            cnt(or_base(old(self)@, key@), old(self)@.replica) < u64::MAX,
        ensures
            final(self).wf(),
            final(self)@.replica == old(self)@.replica,
            final(self)@.add =~= old(self)@.add.insert(
                key@,
                or_base(old(self)@, key@).insert(
                    old(self)@.replica,
                    (cnt(or_base(old(self)@, key@), old(self)@.replica) + 1) as u64,
                ),
            ),
            final(self)@.rem =~= old(self)@.rem.remove(key@),
    {
        let mut v: VClock = match self.pair(key) {
            (Some(c), _) => c.clone(),
            (_, Some(c)) => c.clone(),
            _ => VClock::new(),
        };
        remove_key(&mut self.rem, key);
        v.inc(self.replica_id);
        put_clock(&mut self.add, key, v);
    }

    /// Remove `key`: symmetric to `add`, storing on the remove side.
    pub fn remove(&mut self, key: &str)
        requires
            old(self).wf(),
            cnt(or_base(old(self)@, key@), old(self)@.replica) < u64::MAX,
        ensures
            final(self).wf(),
            final(self)@.replica == old(self)@.replica,
            final(self)@.rem =~= old(self)@.rem.insert(
                key@,
                or_base(old(self)@, key@).insert(
                    old(self)@.replica,
                    (cnt(or_base(old(self)@, key@), old(self)@.replica) + 1) as u64,
                ),
            ),
            final(self)@.add =~= old(self)@.add.remove(key@),
    {
        let mut v: VClock = match self.pair(key) {
            (Some(c), _) => c.clone(),
            (_, Some(c)) => c.clone(),
            _ => VClock::new(),
        };
        remove_key(&mut self.add, key);
        v.inc(self.replica_id);
        put_clock(&mut self.rem, key, v);
    }
}


/// What a full merge leaves behind: joined clock maps, an add entry
/// purged where its clock is strictly dominated by the joined remove
/// clock, and a remove entry kept only where no add entry survives.
pub open spec fn or_merged(pre: ORView, o: ORView, post: ORView) -> bool {
    let addj = join_clock_maps(pre.add, o.add);
    let remj = join_clock_maps(pre.rem, o.rem);
    &&& post.replica == pre.replica
    &&& post.add == Map::new(
        |k: Seq<char>| addj.dom().contains(k) && !(remj.dom().contains(k) && clock_lt(
            addj[k],
            remj[k],
        )),
        |k: Seq<char>| addj[k],
    )
    &&& post.rem == Map::new(
        |k: Seq<char>| remj.dom().contains(k) && !post.add.dom().contains(k),
        |k: Seq<char>| remj[k],
    )
}

impl Convergent for ORSet {
    type Delta = ORSet;

    open spec fn wf(&self) -> bool {
        ORSet::wf(self)
    }

    open spec fn delta_wf(d: &ORSet) -> bool {
        ORSet::wf(d)
    }

    open spec fn merged(pre: ORView, other: ORView, post: ORView) -> bool {
        or_merged(pre, other, post)
    }

    /// A delta is a full snapshot; folding it in is an ordinary merge.
    open spec fn delta_merged(pre: ORView, d: ORView, post: ORView) -> bool {
        or_merged(pre, d, post)
    }

    /// The delta is the whole snapshot; the set itself is unchanged.
    open spec fn delta_taken(pre: ORView, d: Option<ORView>, post: ORView) -> bool {
        post == pre && d == Some(pre)
    }

    open spec fn fresh_val() -> ORView {
        ORView {
            replica: 0,
            add: Map::<Seq<char>, Map<ReplicaId, u64>>::empty(),
            rem: Map::<Seq<char>, Map<ReplicaId, u64>>::empty(),
        }
    }

    /// A synthesized set carries the null replica identity.
    fn fresh() -> (r: Self) {
        let r = ORSet::new(0);
        proof {
            assert(r@ =~~= Self::fresh_val());
        }
        r
    }

    fn duplicate(&self) -> (r: Self) {
        self.clone()
    }

    fn duplicate_delta(d: &Self::Delta) -> (r: Self::Delta) {
        d.clone()
    }

    #[verifier::loop_isolation(false)]
    fn merge(&mut self, other: Self) {
        let ghost o = other@;
        let ORSet { replica_id: _, add: other_add, rem: other_rem } = other;
        merge_keys(&mut self.add, other_add);
        merge_keys(&mut self.rem, other_rem);
        let ghost addj = alist_clocks(self.add@);
        let ghost remj = alist_clocks(self.rem@);
        proof {
            assert(self.add@.take(0) =~= Seq::<(String, VClock)>::empty());
        }
        // purge add entries strictly dominated by the joined remove clock
        let n = self.add.len();
        let mut kept: Vec<(String, VClock)> = Vec::new();
        let mut i: usize = 0;
        while i < n
            invariant
                0 <= i <= n,
                clock_keys_unique(kept@),
                forall|l: int| 0 <= l < kept@.len() ==> (#[trigger] kept@[l]).1.wf(),
                alist_clocks(kept@) =~= Map::new(
                    |k: Seq<char>| alist_clocks(self.add@.take(i as int)).dom().contains(k) && !(
                    remj.dom().contains(k) && clock_lt(addj[k], remj[k])),
                    |k: Seq<char>| addj[k],
                ),
            decreases n - i,
        {
            let ghost part = alist_clocks(self.add@.take(i as int));
            proof {
                lemma_clocks_get(self.add@, i as int);
                lemma_clocks_dom(self.add@.take(i as int), self.add@[i as int].0@);
                assert(forall|l: int|
                    0 <= l < i ==> #[trigger] self.add@.take(i as int)[l] == self.add@[l]);
                assert(!part.dom().contains(self.add@[i as int].0@));
                assert(self.add@.take(i as int + 1).drop_last() =~= self.add@.take(i as int));
                assert(alist_clocks(self.add@.take(i as int + 1)) == part.insert(
                    self.add@[i as int].0@,
                    self.add@[i as int].1@,
                ));
            }
            let dominated = match lookup(&self.rem, self.add[i].0.as_str()) {
                Some(vr) => matches!(self.add[i].1.partial_cmp(vr), Some(Ordering::Less)),
                None => false,
            };
            if !dominated {
                proof {
                    lemma_clocks_dom(kept@, self.add@[i as int].0@);
                    assert(!alist_clocks(kept@).dom().contains(self.add@[i as int].0@));
                }
                let ghost pk = kept@;
                kept.push((self.add[i].0.clone(), self.add[i].1.clone()));
                proof {
                    assert(kept@.drop_last() =~= pk);
                    assert(kept@[kept@.len() - 1].0@ == self.add@[i as int].0@ && kept@[kept@.len()
                        - 1].1@ == self.add@[i as int].1@);
                    assert forall|l1: int, l2: int|
                        0 <= l1 < l2 < kept@.len() implies (#[trigger] kept@[l1]).0@ != (
                    #[trigger] kept@[l2]).0@ by {
                        if l2 == kept@.len() - 1 {
                            lemma_clocks_get(pk, l1);
                        } else {
                            assert(kept@[l1] == pk[l1] && kept@[l2] == pk[l2]);
                        }
                    }
                    assert forall|l: int|
                        0 <= l < kept@.len() implies (#[trigger] kept@[l]).1.wf() by {
                        if l < kept@.len() - 1 {
                            assert(kept@[l] == pk[l]);
                        }
                    }
                    assert(alist_clocks(kept@) =~= alist_clocks(pk).insert(
                        self.add@[i as int].0@,
                        self.add@[i as int].1@,
                    ));
                }
            }
            proof {
                assert(alist_clocks(kept@) =~= Map::new(
                    |k: Seq<char>| alist_clocks(self.add@.take(i as int + 1)).dom().contains(k)
                        && !(remj.dom().contains(k) && clock_lt(addj[k], remj[k])),
                    |k: Seq<char>| addj[k],
                ));
            }
            i = i + 1;
        }
        proof {
            assert(self.add@.take(n as int) =~= self.add@);
        }
        self.add = kept;
        let ghost addp = alist_clocks(self.add@);
        proof {
            assert(self.rem@.take(0) =~= Seq::<(String, VClock)>::empty());
        }
        // drop remove entries whose element survived on the add side
        let m = self.rem.len();
        let mut kept_rem: Vec<(String, VClock)> = Vec::new();
        let mut j: usize = 0;
        while j < m
            invariant
                0 <= j <= m,
                alist_clocks(self.add@) == addp,
                clock_keys_unique(self.add@),
                forall|l: int| 0 <= l < self.add@.len() ==> (#[trigger] self.add@[l]).1.wf(),
                clock_keys_unique(kept_rem@),
                forall|l: int| 0 <= l < kept_rem@.len() ==> (#[trigger] kept_rem@[l]).1.wf(),
                alist_clocks(kept_rem@) =~= Map::new(
                    |k: Seq<char>| alist_clocks(self.rem@.take(j as int)).dom().contains(k)
                        && !addp.dom().contains(k),
                    |k: Seq<char>| remj[k],
                ),
                alist_clocks(self.rem@) == remj,
                clock_keys_unique(self.rem@),
                forall|l: int| 0 <= l < self.rem@.len() ==> (#[trigger] self.rem@[l]).1.wf(),
            decreases m - j,
        {
            let ghost part = alist_clocks(self.rem@.take(j as int));
            proof {
                lemma_clocks_get(self.rem@, j as int);
                lemma_clocks_dom(self.rem@.take(j as int), self.rem@[j as int].0@);
                assert(forall|l: int|
                    0 <= l < j ==> #[trigger] self.rem@.take(j as int)[l] == self.rem@[l]);
                assert(!part.dom().contains(self.rem@[j as int].0@));
                assert(self.rem@.take(j as int + 1).drop_last() =~= self.rem@.take(j as int));
                assert(alist_clocks(self.rem@.take(j as int + 1)) == part.insert(
                    self.rem@[j as int].0@,
                    self.rem@[j as int].1@,
                ));
            }
            let in_add = match lookup(&self.add, self.rem[j].0.as_str()) {
                Some(_) => true,
                None => false,
            };
            if !in_add {
                proof {
                    lemma_clocks_dom(kept_rem@, self.rem@[j as int].0@);
                    assert(!alist_clocks(kept_rem@).dom().contains(self.rem@[j as int].0@));
                }
                let ghost pk = kept_rem@;
                kept_rem.push((self.rem[j].0.clone(), self.rem[j].1.clone()));
                proof {
                    assert(kept_rem@.drop_last() =~= pk);
                    assert(kept_rem@[kept_rem@.len() - 1].0@ == self.rem@[j as int].0@
                        && kept_rem@[kept_rem@.len() - 1].1@ == self.rem@[j as int].1@);
                    assert forall|l1: int, l2: int|
                        0 <= l1 < l2 < kept_rem@.len() implies (#[trigger] kept_rem@[l1]).0@ != (
                    #[trigger] kept_rem@[l2]).0@ by {
                        if l2 == kept_rem@.len() - 1 {
                            lemma_clocks_get(pk, l1);
                        } else {
                            assert(kept_rem@[l1] == pk[l1] && kept_rem@[l2] == pk[l2]);
                        }
                    }
                    assert forall|l: int|
                        0 <= l < kept_rem@.len() implies (#[trigger] kept_rem@[l]).1.wf() by {
                        if l < kept_rem@.len() - 1 {
                            assert(kept_rem@[l] == pk[l]);
                        }
                    }
                    assert(alist_clocks(kept_rem@) =~= alist_clocks(pk).insert(
                        self.rem@[j as int].0@,
                        self.rem@[j as int].1@,
                    ));
                }
            }
            proof {
                assert(alist_clocks(kept_rem@) =~= Map::new(
                    |k: Seq<char>| alist_clocks(self.rem@.take(j as int + 1)).dom().contains(k)
                        && !addp.dom().contains(k),
                    |k: Seq<char>| remj[k],
                ));
            }
            j = j + 1;
        }
        proof {
            assert(self.rem@.take(m as int) =~= self.rem@);
        }
        self.rem = kept_rem;
        proof {
            assert(self@.add =~= Map::new(
                |k: Seq<char>| addj.dom().contains(k) && !(remj.dom().contains(k) && clock_lt(
                    addj[k],
                    remj[k],
                )),
                |k: Seq<char>| addj[k],
            ));
            assert(self@.rem =~= Map::new(
                |k: Seq<char>| remj.dom().contains(k) && !self@.add.dom().contains(k),
                |k: Seq<char>| remj[k],
            ));
        }
    }

    fn merge_delta(&mut self, delta: Self::Delta) {
        Convergent::merge(self, delta);
    }

    fn take_delta(&mut self) -> (d: Option<Self::Delta>) {
        Some(self.clone())
    }
}


/// Each side's clock is dominated by the pointwise join.
proof fn lemma_leq_join(a: Map<ReplicaId, u64>, b: Map<ReplicaId, u64>)
    ensures
        leq_counts(a, join_counts(a, b)),
        leq_counts(b, join_counts(a, b)),
{
    assert forall|r: ReplicaId| #[trigger] cnt(a, r) <= cnt(join_counts(a, b), r) by {
        if a.dom().contains(r) {
            assert(join_counts(a, b).dom().contains(r));
        }
    }
    assert forall|r: ReplicaId| #[trigger] cnt(b, r) <= cnt(join_counts(a, b), r) by {
        if b.dom().contains(r) {
            assert(join_counts(a, b).dom().contains(r));
        }
    }
}

/// Merging the same peer twice changes nothing beyond the first merge.
pub proof fn lemma_orset_merge_reapply(x: ORView, y: ORView, once: ORView, twice: ORView)
    requires
        clock_map_ok(x.add),
        clock_map_ok(x.rem),
        clock_map_ok(y.add),
        clock_map_ok(y.rem),
        or_merged(x, y, once),
        or_merged(once, y, twice),
    ensures
        twice.add == once.add,
        twice.rem == once.rem,
{
    let addj = join_clock_maps(x.add, y.add);
    let remj = join_clock_maps(x.rem, y.rem);
    let addj2 = join_clock_maps(once.add, y.add);
    let remj2 = join_clock_maps(once.rem, y.rem);
    assert forall|k: Seq<char>|
        true implies ((#[trigger] twice.add.dom().contains(k) <==> once.add.dom().contains(k))
            && (twice.add.dom().contains(k) ==> twice.add[k] == once.add[k])) by {
        if once.add.dom().contains(k) {
            assert(once.add[k] == addj[k]);
            if y.add.dom().contains(k) {
                lemma_leq_join(x.add[k], y.add[k]);
                if x.add.dom().contains(k) {
                    crate::common::lemma_join_counts_ok(x.add[k], y.add[k]);
                    crate::common::lemma_join_counts_absorb(addj[k], y.add[k]);
                } else {
                    crate::common::lemma_join_counts_idem(y.add[k]);
                }
                assert(addj2[k] == addj[k]);
            } else {
                assert(addj2[k] == addj[k]);
            }
            assert(!once.rem.dom().contains(k));
            if y.rem.dom().contains(k) {
                assert(remj2[k] == y.rem[k]);
                if clock_lt(addj2[k], remj2[k]) {
                    assert(remj.dom().contains(k));
                    lemma_leq_join(x.rem[k], y.rem[k]);
                    if x.rem.dom().contains(k) {
                        assert(leq_counts(y.rem[k], remj[k]));
                    } else {
                        crate::common::lemma_join_counts_idem(y.rem[k]);
                        assert(leq_counts(y.rem[k], remj[k]));
                    }
                    assert(leq_counts(addj[k], remj[k]));
                    assert(!clock_lt(addj[k], remj[k]));
                    assert(leq_counts(remj[k], addj[k]));
                    assert(leq_counts(y.rem[k], addj[k]));
                    assert(false);
                }
            }
            assert(twice.add.dom().contains(k) && twice.add[k] == once.add[k]);
        } else {
            if addj2.dom().contains(k) {
                assert(y.add.dom().contains(k));
                assert(addj.dom().contains(k));
                assert(remj.dom().contains(k) && clock_lt(addj[k], remj[k]));
                assert(once.rem.dom().contains(k) && once.rem[k] == remj[k]);
                lemma_leq_join(once.rem[k], y.rem[k]);
                if y.rem.dom().contains(k) {
                    lemma_leq_join(x.rem[k], y.rem[k]);
                    assert(leq_counts(y.rem[k], remj[k]) && counts_ok(remj[k])) by {
                        if x.rem.dom().contains(k) {
                            crate::common::lemma_join_counts_ok(x.rem[k], y.rem[k]);
                        } else {
                            crate::common::lemma_join_counts_idem(y.rem[k]);
                        }
                    }
                    crate::common::lemma_join_counts_absorb(remj[k], y.rem[k]);
                    assert(remj2[k] == remj[k]);
                } else {
                    assert(remj2[k] == remj[k]);
                }
                assert(addj2[k] == y.add[k]);
                assert(leq_counts(y.add[k], addj[k])) by {
                    lemma_leq_join(x.add[k], y.add[k]);
                    if !x.add.dom().contains(k) {
                        crate::common::lemma_join_counts_idem(y.add[k]);
                    }
                }
                assert(clock_lt(addj2[k], remj2[k])) by {
                    assert(leq_counts(addj2[k], remj2[k]));
                    if leq_counts(remj2[k], addj2[k]) {
                        assert(leq_counts(remj[k], addj[k]));
                        assert(false);
                    }
                }
                assert(!twice.add.dom().contains(k));
            }
        }
    }
    assert(twice.add =~= once.add);
    assert forall|k: Seq<char>|
        true implies ((#[trigger] twice.rem.dom().contains(k) <==> once.rem.dom().contains(k))
            && (twice.rem.dom().contains(k) ==> twice.rem[k] == once.rem[k])) by {
        if twice.rem.dom().contains(k) {
            assert(remj2.dom().contains(k) && !twice.add.dom().contains(k));
            assert(!once.add.dom().contains(k));
            if once.rem.dom().contains(k) {
            } else {
                assert(y.rem.dom().contains(k));
                assert(remj.dom().contains(k));
                assert(false);
            }
        }
        if once.rem.dom().contains(k) {
            assert(remj2.dom().contains(k));
            assert(!once.add.dom().contains(k));
            assert(!twice.add.dom().contains(k));
            assert(once.rem[k] == remj[k]);
            if y.rem.dom().contains(k) {
                lemma_leq_join(x.rem[k], y.rem[k]);
                assert(leq_counts(y.rem[k], remj[k]) && counts_ok(remj[k])) by {
                    if x.rem.dom().contains(k) {
                        crate::common::lemma_join_counts_ok(x.rem[k], y.rem[k]);
                    } else {
                        crate::common::lemma_join_counts_idem(y.rem[k]);
                    }
                }
                crate::common::lemma_join_counts_absorb(remj[k], y.rem[k]);
                assert(remj2[k] == remj[k]);
            } else {
                assert(remj2[k] == remj[k]);
            }
            assert(twice.rem[k] == once.rem[k]);
        }
    }
    assert(twice.rem =~= once.rem);
}

/// Merging in either order converges to the same value.
pub proof fn lemma_orset_merge_commutes(x: ORView, y: ORView, xy: ORView, yx: ORView)
    requires
        or_merged(x, y, xy),
        or_merged(y, x, yx),
    ensures
        xy.add == yx.add,
        xy.rem == yx.rem,
{
    assert forall|k: Seq<char>| #[trigger]
        join_clock_maps(x.add, y.add).dom().contains(k) implies join_clock_maps(x.add, y.add)[k]
        == join_clock_maps(y.add, x.add)[k] by {
        if x.add.dom().contains(k) && y.add.dom().contains(k) {
            crate::common::lemma_join_counts_comm(x.add[k], y.add[k]);
        }
    }
    assert(join_clock_maps(x.add, y.add) =~= join_clock_maps(y.add, x.add));
    assert forall|k: Seq<char>| #[trigger]
        join_clock_maps(x.rem, y.rem).dom().contains(k) implies join_clock_maps(x.rem, y.rem)[k]
        == join_clock_maps(y.rem, x.rem)[k] by {
        if x.rem.dom().contains(k) && y.rem.dom().contains(k) {
            crate::common::lemma_join_counts_comm(x.rem[k], y.rem[k]);
        }
    }
    assert(join_clock_maps(x.rem, y.rem) =~= join_clock_maps(y.rem, x.rem));
    assert(xy.add =~= yx.add);
    assert(xy.rem =~= yx.rem);
}

/// Associativity, on sets that carry no remove clocks: with no removals
/// in play the merge is a plain pointwise clock join.  With removals the
/// purge steps can discard clocks differently under the two groupings.
pub proof fn lemma_orset_merge_associates_add_only(
    x: ORView,
    y: ORView,
    z: ORView,
    xy: ORView,
    xy_z: ORView,
    yz: ORView,
    x_yz: ORView,
)
    requires
        x.rem =~= Map::<Seq<char>, Map<ReplicaId, u64>>::empty(),
        y.rem =~= Map::<Seq<char>, Map<ReplicaId, u64>>::empty(),
        z.rem =~= Map::<Seq<char>, Map<ReplicaId, u64>>::empty(),
        or_merged(x, y, xy),
        or_merged(xy, z, xy_z),
        or_merged(y, z, yz),
        or_merged(x, yz, x_yz),
    ensures
        xy_z.add == x_yz.add,
        xy_z.rem == x_yz.rem,
{
    assert(join_clock_maps(x.rem, y.rem) =~= Map::<Seq<char>, Map<ReplicaId, u64>>::empty());
    assert(xy.rem =~= Map::<Seq<char>, Map<ReplicaId, u64>>::empty());
    assert(yz.rem =~= Map::<Seq<char>, Map<ReplicaId, u64>>::empty());
    assert(xy_z.rem =~= Map::<Seq<char>, Map<ReplicaId, u64>>::empty());
    assert(x_yz.rem =~= Map::<Seq<char>, Map<ReplicaId, u64>>::empty());
    assert(xy.add =~= join_clock_maps(x.add, y.add));
    assert(yz.add =~= join_clock_maps(y.add, z.add));
    assert(xy_z.add =~= join_clock_maps(join_clock_maps(x.add, y.add), z.add));
    assert(x_yz.add =~= join_clock_maps(x.add, join_clock_maps(y.add, z.add)));
    assert forall|k: Seq<char>| #[trigger]
        xy_z.add.dom().contains(k) implies xy_z.add[k] == x_yz.add[k] by {
        crate::common::lemma_join_counts_assoc(
            if x.add.dom().contains(k) {
                x.add[k]
            } else {
                Map::<ReplicaId, u64>::empty()
            },
            if y.add.dom().contains(k) {
                y.add[k]
            } else {
                Map::<ReplicaId, u64>::empty()
            },
            if z.add.dom().contains(k) {
                z.add[k]
            } else {
                Map::<ReplicaId, u64>::empty()
            },
        );
        if x.add.dom().contains(k) && y.add.dom().contains(k) && z.add.dom().contains(k) {
        } else {
            assert(join_clock_maps(Map::<Seq<char>, Map<ReplicaId, u64>>::empty(), x.add)
                =~= x.add);
        }
    }
    assert(xy_z.add =~= x_yz.add);
}

} // verus!
