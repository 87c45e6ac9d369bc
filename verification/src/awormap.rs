//! The add-wins map: an add-wins key set paired with per-key convergent
//! values, merged recursively.

use crate::aworset::{
    ctx_contains, entries_minus, entry_dots_of, join_entries, kernel_elems, kernel_is_empty,
    AWORSet, Dot, DotKernel, KernelView, SetView,
};
use crate::common::{cnt, ReplicaId};
use crate::gcounter::Convergent;
use vstd::prelude::*;

verus! {

/// The model of a stored key-to-value list, keyed by the key's view and
/// holding the values' views.
pub open spec fn alist_vals<V: View>(s: Seq<(String, V)>) -> Map<Seq<char>, V::V>
    decreases s.len(),
{
    if s.len() == 0 {
        Map::<Seq<char>, V::V>::empty()
    } else {
        alist_vals(s.drop_last()).insert(s.last().0@, s.last().1@)
    }
}

pub open spec fn val_keys_unique<V>(s: Seq<(String, V)>) -> bool {
    forall|i: int, j: int| 0 <= i < j < s.len() ==> (#[trigger] s[i]).0@ != (#[trigger] s[j]).0@
}

proof fn lemma_vals_dom<V: View>(s: Seq<(String, V)>, k: Seq<char>)
    ensures
        alist_vals(s).dom().contains(k) <==> exists|i: int|
            0 <= i < s.len() && (#[trigger] s[i]).0@ == k,
    decreases s.len(),
{
    if s.len() > 0 {
        lemma_vals_dom(s.drop_last(), k);
        if alist_vals(s).dom().contains(k) {
            if s.last().0@ != k {
                let i = choose|i: int|
                    0 <= i < s.drop_last().len() && (#[trigger] s.drop_last()[i]).0@ == k;
                assert(s[i].0@ == k);
            } else {
                assert(s[s.len() - 1].0@ == k);
            }
        } else {
            assert(forall|i: int| 0 <= i < s.drop_last().len() ==> s.drop_last()[i] == s[i]);
        }
    }
}

proof fn lemma_vals_get<V: View>(s: Seq<(String, V)>, i: int)
    requires
        val_keys_unique(s),
        0 <= i < s.len(),
    ensures
        alist_vals(s).dom().contains(s[i].0@),
        alist_vals(s)[s[i].0@] == s[i].1@,
    decreases s.len(),
{
    if i == s.len() - 1 {
    } else {
        lemma_vals_get(s.drop_last(), i);
        assert(s.drop_last()[i] == s[i]);
        assert(s.last().0@ != s[i].0@);
    }
}

pub broadcast proof fn lemma_vals_update<V: View>(s: Seq<(String, V)>, i: int, p: (String, V))
    requires
        val_keys_unique(s),
        0 <= i < s.len(),
        p.0@ == s[i].0@,
    ensures
        #[trigger] alist_vals(s.update(i, p)) == alist_vals(s).insert(s[i].0@, p.1@),
    decreases s.len(),
{
    let t = s.update(i, p);
    if i == s.len() - 1 {
        assert(t.drop_last() =~= s.drop_last());
    } else {
        lemma_vals_update(s.drop_last(), i, p);
        assert(t.drop_last() =~= s.drop_last().update(i, p));
        assert(s.drop_last()[i] == s[i]);
        assert(s.last().0@ != s[i].0@);
        assert(t.last() == s.last());
    }
    assert(alist_vals(s.update(i, p)) =~= alist_vals(s).insert(s[i].0@, p.1@));
}

/// Two lists with pointwise equal key and value views have the same
/// model.
proof fn lemma_vals_view_eq<V: View>(s: Seq<(String, V)>, t: Seq<(String, V)>)
    requires
        s.len() == t.len(),
        forall|j: int| 0 <= j < s.len() ==> (#[trigger] s[j]).0@ == t[j].0@ && s[j].1@ == t[j].1@,
    ensures
        alist_vals(s) == alist_vals(t),
    decreases s.len(),
{
    if s.len() > 0 {
        lemma_vals_view_eq(s.drop_last(), t.drop_last());
        assert(forall|j: int|
            0 <= j < s.len() - 1 ==> (#[trigger] s.drop_last()[j]) == s[j] && t.drop_last()[j]
                == t[j]);
        assert(alist_vals(s) =~= alist_vals(t));
    }
}

/// Remove and return the value stored for `key`, if any.
#[verifier::loop_isolation(false)]
fn take_val<V: Convergent>(list: &mut Vec<(String, V)>, key: &str) -> (r: Option<V>)
    requires
        val_keys_unique(old(list)@),
        forall|l: int| 0 <= l < old(list)@.len() ==> (#[trigger] old(list)@[l]).1.wf(),
    ensures
        val_keys_unique(final(list)@),
        forall|l: int| 0 <= l < final(list)@.len() ==> (#[trigger] final(list)@[l]).1.wf(),
        match r {
            Some(v) => alist_vals(old(list)@).dom().contains(key@) && v@ == alist_vals(
                old(list)@,
            )[key@] && v.wf() && alist_vals(final(list)@) =~= alist_vals(old(list)@).remove(key@),
            None => !alist_vals(old(list)@).dom().contains(key@) && final(list)@ == old(list)@,
        },
{
    let k: String = key.to_owned();
    let n = list.len();
    let mut i: usize = 0;
    while i < n
        invariant
            0 <= i <= n,
            k@ == key@,
            list@ == old(list)@,
            forall|j: int| 0 <= j < i ==> (#[trigger] list@[j]).0@ != key@,
        decreases n - i,
    {
        if list[i].0 == k {
            proof {
                lemma_vals_get(list@, i as int);
            }
            let ghost pre = list@;
            let p = list.remove(i);
            proof {
                assert forall|k2: Seq<char>| #![trigger alist_vals(list@).dom().contains(k2)]
                    true implies (alist_vals(list@).dom().contains(k2) <==> alist_vals(pre).remove(
                    key@,
                ).dom().contains(k2)) && (alist_vals(list@).dom().contains(k2) ==> alist_vals(
                    list@,
                )[k2] == alist_vals(pre).remove(key@)[k2]) by {
                    lemma_vals_dom(list@, k2);
                    lemma_vals_dom(pre, k2);
                    if alist_vals(list@).dom().contains(k2) {
                        let l = choose|l: int|
                            0 <= l < list@.len() && (#[trigger] list@[l]).0@ == k2;
                        lemma_vals_get(list@, l);
                        if l < i {
                            assert(pre[l] == list@[l]);
                            lemma_vals_get(pre, l);
                        } else {
                            assert(pre[l + 1] == list@[l]);
                            lemma_vals_get(pre, l + 1);
                        }
                    } else if alist_vals(pre).remove(key@).dom().contains(k2) {
                        let l = choose|l: int| 0 <= l < pre.len() && (#[trigger] pre[l]).0@ == k2;
                        if l < i {
                            assert(list@[l] == pre[l]);
                        } else if l > i {
                            assert(list@[l - 1] == pre[l]);
                        }
                    }
                }
                assert(alist_vals(list@) =~= alist_vals(pre).remove(key@));
                assert forall|l1: int, l2: int|
                    0 <= l1 < l2 < list@.len() implies (#[trigger] list@[l1]).0@ != (
                #[trigger] list@[l2]).0@ by {
                    let p1: int = if l1 < i { l1 } else { l1 + 1 };
                    let p2: int = if l2 < i { l2 } else { l2 + 1 };
                    assert(list@[l1] == pre[p1] && list@[l2] == pre[p2]);
                }
                assert forall|l: int|
                    0 <= l < list@.len() implies (#[trigger] list@[l]).1.wf() by {
                    let q: int = if l < i { l } else { l + 1 };
                    assert(list@[l] == pre[q]);
                }
            }
            return Some(p.1);
        }
        i = i + 1;
    }
    proof {
        lemma_vals_dom(list@, key@);
    }
    None
}

/// Store `(key, value)`, replacing any entry for `key`.
#[verifier::loop_isolation(false)]
fn put_val<V: Convergent>(list: &mut Vec<(String, V)>, key: String, value: V)
    requires
        val_keys_unique(old(list)@),
        forall|l: int| 0 <= l < old(list)@.len() ==> (#[trigger] old(list)@[l]).1.wf(),
        value.wf(),
    ensures
        val_keys_unique(final(list)@),
        forall|l: int| 0 <= l < final(list)@.len() ==> (#[trigger] final(list)@[l]).1.wf(),
        alist_vals(final(list)@) =~= alist_vals(old(list)@).insert(key@, value@),
{
    let n = list.len();
    let mut i: usize = 0;
    while i < n
        invariant
            0 <= i <= n,
            list@ == old(list)@,
            forall|j: int| 0 <= j < i ==> (#[trigger] list@[j]).0@ != key@,
        decreases n - i,
    {
        if list[i].0 == key {
            let ghost pre = list@;
            list[i] = (key, value);
            proof {
                lemma_vals_update(pre, i as int, list@[i as int]);
                assert(list@ =~= pre.update(i as int, list@[i as int]));
                assert forall|l: int|
                    0 <= l < list@.len() implies (#[trigger] list@[l]).1.wf() by {
                    if l != i {
                        assert(list@[l] == pre[l]);
                    }
                }
                assert forall|l1: int, l2: int|
                    0 <= l1 < l2 < list@.len() implies (#[trigger] list@[l1]).0@ != (
                #[trigger] list@[l2]).0@ by {
                    assert(list@[l1].0@ == pre[l1].0@ && list@[l2].0@ == pre[l2].0@);
                }
            }
            return ;
        }
        i = i + 1;
    }
    proof {
        lemma_vals_dom(list@, key@);
    }
    let ghost pre = list@;
    list.push((key, value));
    proof {
        assert(list@.drop_last() =~= pre);
        assert forall|l: int| 0 <= l < list@.len() implies (#[trigger] list@[l]).1.wf() by {
            if l < list@.len() - 1 {
                assert(list@[l] == pre[l]);
            }
        }
        assert forall|l1: int, l2: int|
            0 <= l1 < l2 < list@.len() implies (#[trigger] list@[l1]).0@ != (
        #[trigger] list@[l2]).0@ by {
            if l2 == list@.len() - 1 {
                assert(list@[l1] == pre[l1]);
            } else {
                assert(list@[l1] == pre[l1] && list@[l2] == pre[l2]);
            }
        }
    }
}

/// The model of an add-wins map: the replica identity, the key set, and
/// the per-key value models.
#[verifier::ext_equal]
pub ghost struct MapView<VV> {
    pub replica: ReplicaId,
    pub keys: SetView,
    pub vals: Map<Seq<char>, VV>,
}

/// The model of a map delta: an optional key-set delta and per-key value
/// deltas.
#[verifier::ext_equal]
pub ghost struct MapDeltaView<DV> {
    pub keys: Option<KernelView>,
    pub vals: Map<Seq<char>, DV>,
}

/// A map from string keys to convergent values.  The key set is an
/// add-wins observed-remove set; concurrent inserts under the same key
/// converge by merging the values.
#[derive(Debug)]
pub struct AWORMap<V> {
    keys: AWORSet,
    vals: Vec<(String, V)>,
}

/// The causal difference shipped between replicas: the key-set delta, if
/// any, and one delta per locally changed value.
#[derive(Debug)]
pub struct AWORMapDelta<D> {
    keys: Option<DotKernel>,
    vals: Vec<(String, D)>,
}

impl<D: View> Default for AWORMapDelta<D> {
    /// An empty delta.
    fn default() -> (r: Self)
        ensures
            r@.keys == None::<KernelView>,
            r@.vals =~= Map::<Seq<char>, D::V>::empty(),
    {
        AWORMapDelta { keys: None, vals: Vec::new() }
    }
}

impl<V: View> View for AWORMap<V> {
    type V = MapView<V::V>;

    closed spec fn view(&self) -> MapView<V::V> {
        MapView { replica: self.keys@.replica, keys: self.keys@, vals: alist_vals(self.vals@) }
    }
}

impl<D: View> View for AWORMapDelta<D> {
    type V = MapDeltaView<D::V>;

    closed spec fn view(&self) -> MapDeltaView<D::V> {
        MapDeltaView {
            keys: match self.keys {
                Some(k) => Some(k@),
                None => None,
            },
            vals: alist_vals(self.vals@),
        }
    }
}

impl<V: Convergent> Clone for AWORMap<V> {
    /// A deep copy with the same model.
    fn clone(&self) -> (res: Self)
        ensures
            res@ == self@,
            self.wf() ==> res.wf(),
    {
        self.duplicate()
    }
}

impl<D: View + Clone> Clone for AWORMapDelta<D> {
    /// A deep copy: the key-set delta and the keys are preserved exactly;
    /// what a generic value delta's `clone` returns is unspecified, so
    /// only the domain of the value map is pinned here.  A copy with the
    /// value models preserved as well is available through
    /// `Convergent::duplicate_delta`.
    #[verifier::loop_isolation(false)]
    fn clone(&self) -> (res: Self)
        ensures
            res@.keys == self@.keys,
            res@.vals.dom() =~= self@.vals.dom(),
    {
        let keys2: Option<DotKernel> = match &self.keys {
            Some(k) => Some(k.clone()),
            None => None,
        };
        let n = self.vals.len();
        let mut vals2: Vec<(String, D)> = Vec::new();
        let mut i: usize = 0;
        while i < n
            invariant
                0 <= i <= n,
                vals2@.len() == i,
                forall|j: int| 0 <= j < i ==> (#[trigger] vals2@[j]).0@ == self.vals@[j].0@,
            decreases n - i,
        {
            vals2.push((self.vals[i].0.clone(), self.vals[i].1.clone()));
            i = i + 1;
        }
        let res = AWORMapDelta { keys: keys2, vals: vals2 };
        proof {
            assert forall|k: Seq<char>|
                res@.vals.dom().contains(k) <==> self@.vals.dom().contains(k) by {
                lemma_vals_dom(res.vals@, k);
                lemma_vals_dom(self.vals@, k);
                if res@.vals.dom().contains(k) {
                    let j = choose|j: int|
                        0 <= j < res.vals@.len() && (#[trigger] res.vals@[j]).0@ == k;
                    assert(self.vals@[j].0@ == k);
                }
                if self@.vals.dom().contains(k) {
                    let j = choose|j: int|
                        0 <= j < self.vals@.len() && (#[trigger] self.vals@[j]).0@ == k;
                    assert(res.vals@[j].0@ == k);
                }
            }
        }
        res
    }
}

impl<D: View> AWORMapDelta<D> {
    pub closed spec fn wf_with(&self, ok: spec_fn(&D) -> bool) -> bool {
        &&& match self.keys {
            Some(k) => k.wf(),
            None => true,
        }
        &&& val_keys_unique(self.vals@)
        &&& forall|l: int| 0 <= l < self.vals@.len() ==> ok(&(#[trigger] self.vals@[l]).1)
    }
}

impl<V: Convergent> AWORMap<V> {
    pub closed spec fn wf(&self) -> bool {
        &&& self.keys.wf()
        &&& val_keys_unique(self.vals@)
        &&& forall|l: int| 0 <= l < self.vals@.len() ==> (#[trigger] self.vals@[l]).1.wf()
        &&& forall|l: int| 0 <= l < self.vals@.len() ==> kernel_elems(self@.keys.state).contains(
            (#[trigger] self.vals@[l]).0@,
        )
    }

    /// Every key with a value is a present element of the key set.
    pub proof fn lemma_vals_covered(&self)
        requires
            self.wf(),
        ensures
            forall|k: Seq<char>| #[trigger] self@.vals.dom().contains(k) ==> kernel_elems(
                self@.keys.state,
            ).contains(k),
    {
        assert forall|k: Seq<char>| #[trigger]
            self@.vals.dom().contains(k) implies kernel_elems(self@.keys.state).contains(k) by {
            lemma_vals_dom(self.vals@, k);
            let l = choose|l: int| 0 <= l < self.vals@.len() && (#[trigger] self.vals@[l]).0@ == k;
        }
    }

    pub fn new(replica_id: ReplicaId) -> (m: AWORMap<V>)
        ensures
            m.wf(),
            m@.replica == replica_id,
            m@.keys.replica == replica_id,
            kernel_is_empty(m@.keys.state),
            kernel_is_empty(m@.keys.delta),
            m@.vals =~= Map::<Seq<char>, V::V>::empty(),
    {
        AWORMap { keys: AWORSet::new(replica_id), vals: Vec::new() }
    }

    /// The value stored under `key`, if the key is present.
    #[verifier::loop_isolation(false)]
    pub fn get(&self, key: &str) -> (r: Option<&V>)
        requires
            self.wf(),
        ensures
            match r {
                Some(v) => self@.vals.dom().contains(key@) && v@ == self@.vals[key@] && v.wf(),
                None => !self@.vals.dom().contains(key@),
            },
    {
        let k: String = key.to_owned();
        let n = self.vals.len();
        let mut i: usize = 0;
        while i < n
            invariant
                0 <= i <= n,
                k@ == key@,
                forall|j: int| 0 <= j < i ==> (#[trigger] self.vals@[j]).0@ != key@,
            decreases n - i,
        {
            if self.vals[i].0 == k {
                proof {
                    lemma_vals_get(self.vals@, i as int);
                }
                return Some(&self.vals[i].1);
            }
            i = i + 1;
        }
        proof {
            lemma_vals_dom(self.vals@, key@);
        }
        None
    }

    /// Mutable access to the value stored under `key`; the key must be
    /// present.
    #[verifier::loop_isolation(false)]
    pub fn get_mut(&mut self, key: &str) -> (r: &mut V)
        requires
            old(self).wf(),
            old(self)@.vals.dom().contains(key@),
        ensures
            (*r)@ == old(self)@.vals[key@],
            (*r).wf(),
            final(self)@.replica == old(self)@.replica,
            final(self)@.keys == old(self)@.keys,
            final(self)@.vals == old(self)@.vals.insert(key@, final(r)@),
            final(r).wf() ==> final(self).wf(),
    {
        broadcast use lemma_vals_update;

        proof {
            lemma_vals_dom(self.vals@, key@);
        }
        let k: String = key.to_owned();
        let n = self.vals.len();
        let mut i: usize = 0;
        while i < n
            invariant
                0 <= i <= n,
                k@ == key@,
                self == old(self),
                forall|j: int| 0 <= j < i ==> (#[trigger] self.vals@[j]).0@ != key@,
                exists|j: int| i <= j < n && (#[trigger] self.vals@[j]).0@ == key@,
            decreases n - i,
        {
            if self.vals[i].0 == k {
                proof {
                    lemma_vals_get(self.vals@, i as int);
                }
                return &mut self.vals[i].1;
            }
            i = i + 1;
        }
        proof {
            assert(false);
        }
        vstd::pervasive::unreached()
    }

    /// Insert `value` under `key`, replacing any local value: the key is
    /// re-added to the key set and the value stored.
    pub fn insert(&mut self, key: String, value: V)
        requires
            old(self).wf(),
            value.wf(),
            cnt(old(self)@.keys.state.ctx.clock, old(self)@.replica) < u64::MAX,
        ensures
            final(self).wf(),
            final(self)@.replica == old(self)@.replica,
            final(self)@.vals == old(self)@.vals.insert(key@, value@),
            final(self)@.keys.state.entries == entries_minus(
                old(self)@.keys.state.entries,
                key@,
            ).insert(
                Dot(old(self)@.replica, (cnt(old(self)@.keys.state.ctx.clock, old(self)@.replica) + 1) as u64),
                key@,
            ),
            forall|x: Dot| #![trigger ctx_contains(final(self)@.keys.state.ctx, x)]
                ctx_contains(final(self)@.keys.state.ctx, x) <==> ctx_contains(
                    old(self)@.keys.state.ctx,
                    x,
                ) || x == Dot(
                    old(self)@.replica,
                    (cnt(old(self)@.keys.state.ctx.clock, old(self)@.replica) + 1) as u64,
                ),
            final(self)@.keys.delta.entries == old(self)@.keys.delta.entries.insert(
                Dot(old(self)@.replica, (cnt(old(self)@.keys.state.ctx.clock, old(self)@.replica) + 1) as u64),
                key@,
            ),
            forall|x: Dot| #![trigger ctx_contains(final(self)@.keys.delta.ctx, x)]
                ctx_contains(final(self)@.keys.delta.ctx, x) <==> ctx_contains(
                    old(self)@.keys.delta.ctx,
                    x,
                ) || entry_dots_of(old(self)@.keys.state.entries, key@).contains(x) || x == Dot(
                    old(self)@.replica,
                    (cnt(old(self)@.keys.state.ctx.clock, old(self)@.replica) + 1) as u64,
                ),
    {
        let ghost vm = value@;
        let ghost key_view = key@;
        self.keys.add(key.as_str());
        put_val(&mut self.vals, key, value);
        proof {
            assert(self@.vals =~= alist_vals(old(self).vals@).insert(key_view, vm));
            let dn = Dot(
                old(self)@.replica,
                (cnt(old(self)@.keys.state.ctx.clock, old(self)@.replica) + 1) as u64,
            );
            assert(self@.keys.state.entries.dom().contains(dn) && self@.keys.state.entries[dn]
                == key@);
            assert forall|l: int|
                0 <= l < self.vals@.len() implies kernel_elems(self@.keys.state).contains(
                (#[trigger] self.vals@[l]).0@,
            ) by {
                let k2 = self.vals@[l].0@;
                if k2 == key@ {
                    assert(self@.keys.state.entries.dom().contains(dn) && self@.keys.state.entries[
                        dn] == k2);
                } else {
                    lemma_vals_dom(self.vals@, k2);
                    lemma_vals_dom(old(self).vals@, k2);
                    assert(alist_vals(self.vals@).dom().contains(k2)) by {
                        lemma_vals_get(self.vals@, l);
                    }
                    assert(alist_vals(old(self).vals@).dom().contains(k2));
                    let j = choose|j: int|
                        0 <= j < old(self).vals@.len() && (#[trigger] old(self).vals@[j]).0@ == k2;
                    assert(kernel_elems(old(self)@.keys.state).contains(k2));
                    let d2 = choose|d2: Dot| #[trigger]
                        old(self)@.keys.state.entries.dom().contains(d2) && old(
                            self,
                        )@.keys.state.entries[d2] == k2;
                    old(self).keys.lemma_wf_ok();
                    assert(ctx_contains(old(self)@.keys.state.ctx, d2));
                    assert(d2 != dn);
                    assert(self@.keys.state.entries.dom().contains(d2)
                        && self@.keys.state.entries[d2] == k2);
                }
            }
            assert(self@.vals =~= old(self)@.vals.insert(key_view, vm));
        }
    }

    /// Remove `key` from the key set and drop its value.
    pub fn remove(&mut self, key: &str)
        requires
            old(self).wf(),
        ensures
            final(self).wf(),
            final(self)@.replica == old(self)@.replica,
            final(self)@.vals == old(self)@.vals.remove(key@),
            final(self)@.keys.state.ctx == old(self)@.keys.state.ctx,
            final(self)@.keys.state.entries == entries_minus(old(self)@.keys.state.entries, key@),
            final(self)@.keys.delta.entries == old(self)@.keys.delta.entries,
            forall|x: Dot| #![trigger ctx_contains(final(self)@.keys.delta.ctx, x)]
                ctx_contains(final(self)@.keys.delta.ctx, x) <==> ctx_contains(
                    old(self)@.keys.delta.ctx,
                    x,
                ) || entry_dots_of(old(self)@.keys.state.entries, key@).contains(x),
    {
        self.keys.remove(key);
        let taken = take_val(&mut self.vals, key);
        proof {
            if taken matches Some(_) {
            } else {
                assert(alist_vals(self.vals@) =~= alist_vals(old(self).vals@).remove(key@));
            }
            assert forall|l: int|
                0 <= l < self.vals@.len() implies kernel_elems(self@.keys.state).contains(
                (#[trigger] self.vals@[l]).0@,
            ) by {
                let k2 = self.vals@[l].0@;
                lemma_vals_get(self.vals@, l);
                assert(self@.vals.dom().contains(k2));
                assert(k2 != key@);
                lemma_vals_dom(old(self).vals@, k2);
                let j = choose|j: int|
                    0 <= j < old(self).vals@.len() && (#[trigger] old(self).vals@[j]).0@ == k2;
                assert(kernel_elems(old(self)@.keys.state).contains(k2));
                let d2 = choose|d2: Dot| #[trigger]
                    old(self)@.keys.state.entries.dom().contains(d2) && old(
                        self,
                    )@.keys.state.entries[d2] == k2;
                assert(self@.keys.state.entries.dom().contains(d2) && self@.keys.state.entries[d2]
                    == k2);
            }
            assert(self@.vals =~= old(self)@.vals.remove(key@));
        }
    }
}


/// The key views of the first `i` entries of a key list.
pub open spec fn seen_keys(s: Seq<String>, i: int) -> Set<Seq<char>> {
    Set::new(|k: Seq<char>| exists|j: int| 0 <= j < i && (#[trigger] s[j])@ == k)
}

proof fn lemma_seen_step(s: Seq<String>, i: int)
    requires
        0 <= i < s.len(),
    ensures
        seen_keys(s, i + 1) =~= seen_keys(s, i).insert(s[i]@),
{
    assert forall|k: Seq<char>| #[trigger]
        seen_keys(s, i + 1).contains(k) implies seen_keys(s, i).insert(s[i]@).contains(k) by {
        let j = choose|j: int| 0 <= j < i + 1 && (#[trigger] s[j])@ == k;
        if j < i {
            assert(seen_keys(s, i).contains(k));
        }
    }
    assert forall|k: Seq<char>| #[trigger]
        seen_keys(s, i).insert(s[i]@).contains(k) implies seen_keys(s, i + 1).contains(k) by {
        if seen_keys(s, i).contains(k) {
            let j = choose|j: int| 0 <= j < i && (#[trigger] s[j])@ == k;
            assert(0 <= j < i + 1 && s[j]@ == k);
        } else {
            assert(s[i]@ == k);
        }
    }
}

/// Remove and return the delta stored for `key`, if any.
#[verifier::loop_isolation(false)]
fn take_dval<V: Convergent>(list: &mut Vec<(String, V::Delta)>, key: &str) -> (r: Option<
    V::Delta,
>)
    requires
        val_keys_unique(old(list)@),
        forall|l: int| 0 <= l < old(list)@.len() ==> V::delta_wf(&(#[trigger] old(list)@[l]).1),
    ensures
        val_keys_unique(final(list)@),
        forall|l: int| 0 <= l < final(list)@.len() ==> V::delta_wf(&(#[trigger] final(list)@[l]).1),
        match r {
            Some(v) => alist_vals(old(list)@).dom().contains(key@) && v@ == alist_vals(
                old(list)@,
            )[key@] && V::delta_wf(&v) && alist_vals(final(list)@) =~= alist_vals(
                old(list)@,
            ).remove(key@),
            None => !alist_vals(old(list)@).dom().contains(key@) && final(list)@ == old(list)@,
        },
{
    let k: String = key.to_owned();
    let n = list.len();
    let mut i: usize = 0;
    while i < n
        invariant
            0 <= i <= n,
            k@ == key@,
            list@ == old(list)@,
            forall|j: int| 0 <= j < i ==> (#[trigger] list@[j]).0@ != key@,
        decreases n - i,
    {
        if list[i].0 == k {
            proof {
                lemma_vals_get(list@, i as int);
            }
            let ghost pre = list@;
            let p = list.remove(i);
            proof {
                assert forall|k2: Seq<char>| #![trigger alist_vals(list@).dom().contains(k2)]
                    true implies (alist_vals(list@).dom().contains(k2) <==> alist_vals(pre).remove(
                    key@,
                ).dom().contains(k2)) && (alist_vals(list@).dom().contains(k2) ==> alist_vals(
                    list@,
                )[k2] == alist_vals(pre).remove(key@)[k2]) by {
                    lemma_vals_dom(list@, k2);
                    lemma_vals_dom(pre, k2);
                    if alist_vals(list@).dom().contains(k2) {
                        let l = choose|l: int|
                            0 <= l < list@.len() && (#[trigger] list@[l]).0@ == k2;
                        lemma_vals_get(list@, l);
                        if l < i {
                            assert(pre[l] == list@[l]);
                            lemma_vals_get(pre, l);
                        } else {
                            assert(pre[l + 1] == list@[l]);
                            lemma_vals_get(pre, l + 1);
                        }
                    } else if alist_vals(pre).remove(key@).dom().contains(k2) {
                        let l = choose|l: int| 0 <= l < pre.len() && (#[trigger] pre[l]).0@ == k2;
                        if l < i {
                            assert(list@[l] == pre[l]);
                        } else if l > i {
                            assert(list@[l - 1] == pre[l]);
                        }
                    }
                }
                assert(alist_vals(list@) =~= alist_vals(pre).remove(key@));
                assert forall|l1: int, l2: int|
                    0 <= l1 < l2 < list@.len() implies (#[trigger] list@[l1]).0@ != (
                #[trigger] list@[l2]).0@ by {
                    let p1: int = if l1 < i { l1 } else { l1 + 1 };
                    let p2: int = if l2 < i { l2 } else { l2 + 1 };
                    assert(list@[l1] == pre[p1] && list@[l2] == pre[p2]);
                }
                assert forall|l: int|
                    0 <= l < list@.len() implies V::delta_wf(&(#[trigger] list@[l]).1) by {
                    let q: int = if l < i { l } else { l + 1 };
                    assert(list@[l] == pre[q]);
                }
            }
            return Some(p.1);
        }
        i = i + 1;
    }
    proof {
        lemma_vals_dom(list@, key@);
    }
    None
}

/// Store `(key, delta)`, replacing any entry for `key`.
#[verifier::loop_isolation(false)]
fn put_dval<V: Convergent>(list: &mut Vec<(String, V::Delta)>, key: String, value: V::Delta)
    requires
        val_keys_unique(old(list)@),
        forall|l: int| 0 <= l < old(list)@.len() ==> V::delta_wf(&(#[trigger] old(list)@[l]).1),
        V::delta_wf(&value),
    ensures
        val_keys_unique(final(list)@),
        forall|l: int| 0 <= l < final(list)@.len() ==> V::delta_wf(&(#[trigger] final(list)@[l]).1),
        alist_vals(final(list)@) =~= alist_vals(old(list)@).insert(key@, value@),
{
    let n = list.len();
    let mut i: usize = 0;
    while i < n
        invariant
            0 <= i <= n,
            list@ == old(list)@,
            forall|j: int| 0 <= j < i ==> (#[trigger] list@[j]).0@ != key@,
        decreases n - i,
    {
        if list[i].0 == key {
            let ghost pre = list@;
            list[i] = (key, value);
            proof {
                lemma_vals_update(pre, i as int, list@[i as int]);
                assert(list@ =~= pre.update(i as int, list@[i as int]));
                assert forall|l: int|
                    0 <= l < list@.len() implies V::delta_wf(&(#[trigger] list@[l]).1) by {
                    if l != i {
                        assert(list@[l] == pre[l]);
                    }
                }
                assert forall|l1: int, l2: int|
                    0 <= l1 < l2 < list@.len() implies (#[trigger] list@[l1]).0@ != (
                #[trigger] list@[l2]).0@ by {
                    assert(list@[l1].0@ == pre[l1].0@ && list@[l2].0@ == pre[l2].0@);
                }
            }
            return ;
        }
        i = i + 1;
    }
    proof {
        lemma_vals_dom(list@, key@);
    }
    let ghost pre = list@;
    list.push((key, value));
    proof {
        assert(list@.drop_last() =~= pre);
        assert forall|l: int|
            0 <= l < list@.len() implies V::delta_wf(&(#[trigger] list@[l]).1) by {
            if l < list@.len() - 1 {
                assert(list@[l] == pre[l]);
            }
        }
        assert forall|l1: int, l2: int|
            0 <= l1 < l2 < list@.len() implies (#[trigger] list@[l1]).0@ != (
        #[trigger] list@[l2]).0@ by {
            if l2 == list@.len() - 1 {
                assert(list@[l1] == pre[l1]);
            } else {
                assert(list@[l1] == pre[l1] && list@[l2] == pre[l2]);
            }
        }
    }
}

/// Mutable access to the value at position `i`.
fn val_at_mut<V>(list: &mut Vec<(String, V)>, i: usize) -> (r: &mut V)
    requires
        i < old(list).len(),
    ensures
        *r == old(list)@[i as int].1,
        final(list)@ == old(list)@.update(i as int, (old(list)@[i as int].0, *final(r))),
{
    &mut list[i].1
}

impl<V: Convergent> Convergent for AWORMap<V> {
    type Delta = AWORMapDelta<V::Delta>;

    open spec fn wf(&self) -> bool {
        AWORMap::wf(self)
    }

    open spec fn delta_wf(d: &AWORMapDelta<V::Delta>) -> bool {
        d.wf_with(|dd: &V::Delta| V::delta_wf(dd))
    }

    /// Keys merge as an add-wins set; a value surviving on both sides is
    /// merged by `V`, one surviving on a single side is kept, and values
    /// whose key was removed by the key merge are dropped.
    open spec fn merged(pre: MapView<V::V>, other: MapView<V::V>, post: MapView<V::V>) -> bool {
        &&& post.replica == pre.replica
        &&& <AWORSet as Convergent>::merged(pre.keys, other.keys, post.keys)
        &&& forall|k: Seq<char>| #![trigger post.vals.dom().contains(k)]
            post.vals.dom().contains(k) <==> (kernel_elems(post.keys.state).contains(k) && (
            pre.vals.dom().contains(k) || other.vals.dom().contains(k)))
        &&& forall|k: Seq<char>| #![trigger post.vals[k]]
            post.vals.dom().contains(k) ==> {
                if pre.vals.dom().contains(k) && other.vals.dom().contains(k) {
                    V::merged(pre.vals[k], other.vals[k], post.vals[k])
                } else if pre.vals.dom().contains(k) {
                    post.vals[k] == pre.vals[k]
                } else {
                    post.vals[k] == other.vals[k]
                }
            }
    }

    /// The key delta, if present, is folded into the key set; a value
    /// with a matching delta folds it in, a value without one is kept, and
    /// a delta for an unseen key is folded into a synthesized value.
    open spec fn delta_merged(
        pre: MapView<V::V>,
        d: MapDeltaView<<V::Delta as View>::V>,
        post: MapView<V::V>,
    ) -> bool {
        &&& post.replica == pre.replica
        &&& match d.keys {
            Some(kv) => <AWORSet as Convergent>::delta_merged(pre.keys, kv, post.keys),
            None => post.keys == pre.keys,
        }
        &&& forall|k: Seq<char>| #![trigger post.vals.dom().contains(k)]
            post.vals.dom().contains(k) <==> (kernel_elems(post.keys.state).contains(k) && (
            pre.vals.dom().contains(k) || d.vals.dom().contains(k)))
        &&& forall|k: Seq<char>| #![trigger post.vals[k]]
            post.vals.dom().contains(k) ==> {
                if pre.vals.dom().contains(k) && d.vals.dom().contains(k) {
                    V::delta_merged(pre.vals[k], d.vals[k], post.vals[k])
                } else if pre.vals.dom().contains(k) {
                    post.vals[k] == pre.vals[k]
                } else {
                    V::delta_merged(V::fresh_val(), d.vals[k], post.vals[k])
                }
            }
    }

    /// The key-set delta is taken whole; each value contributes whatever
    /// delta it hands out; `None` stands for no change at all.
    open spec fn delta_taken(
        pre: MapView<V::V>,
        d: Option<MapDeltaView<<V::Delta as View>::V>>,
        post: MapView<V::V>,
    ) -> bool {
        &&& post.replica == pre.replica
        &&& post.vals.dom() =~= pre.vals.dom()
        &&& match d {
            Some(dd) => {
                &&& (dd.keys matches Some(_)) || exists|k: Seq<char>| #[trigger] dd.vals.dom(
                ).contains(k)
                &&& <AWORSet as Convergent>::delta_taken(pre.keys, dd.keys, post.keys)
                &&& forall|k: Seq<char>| #[trigger] dd.vals.dom().contains(k) ==> pre.vals.dom(
                ).contains(k)
                &&& forall|k: Seq<char>| #[trigger]
                    pre.vals.dom().contains(k) ==> V::delta_taken(
                        pre.vals[k],
                        if dd.vals.dom().contains(k) {
                            Some(dd.vals[k])
                        } else {
                            None
                        },
                        post.vals[k],
                    )
            },
            None => {
                &&& <AWORSet as Convergent>::delta_taken(pre.keys, None, post.keys)
                &&& forall|k: Seq<char>| #[trigger] pre.vals.dom().contains(k) ==> V::delta_taken(
                    pre.vals[k],
                    None,
                    post.vals[k],
                )
            },
        }
    }

    open spec fn fresh_val() -> MapView<V::V> {
        MapView {
            replica: 0,
            keys: <AWORSet as Convergent>::fresh_val(),
            vals: Map::<Seq<char>, V::V>::empty(),
        }
    }

    /// A synthesized map carries the null replica identity.
    fn fresh() -> (r: Self) {
        let r = AWORMap::<V>::new(0);
        proof {
            assert(r@ =~~= Self::fresh_val());
        }
        r
    }

    /// A deep copy with the same model: the key set is cloned and every
    /// value is duplicated.
    #[verifier::loop_isolation(false)]
    fn duplicate(&self) -> (r: Self) {
        let keys2 = self.keys.clone();
        let n = self.vals.len();
        let mut vals2: Vec<(String, V)> = Vec::new();
        let mut i: usize = 0;
        while i < n
            invariant
                0 <= i <= n,
                vals2@.len() == i,
                forall|j: int| 0 <= j < i ==> (#[trigger] vals2@[j]).0@ == self.vals@[j].0@
                    && vals2@[j].1@ == self.vals@[j].1@,
                AWORMap::wf(self) ==> forall|j: int|
                    0 <= j < i ==> (#[trigger] vals2@[j]).1.wf(),
            decreases n - i,
        {
            vals2.push((self.vals[i].0.clone(), self.vals[i].1.duplicate()));
            i = i + 1;
        }
        proof {
            lemma_vals_view_eq(vals2@, self.vals@);
        }
        let r = AWORMap { keys: keys2, vals: vals2 };
        proof {
            assert(r@ =~= self@);
            if AWORMap::wf(self) {
                assert forall|l1: int, l2: int|
                    0 <= l1 < l2 < r.vals@.len() implies (#[trigger] r.vals@[l1]).0@ != (
                #[trigger] r.vals@[l2]).0@ by {
                    assert(self.vals@[l1].0@ != self.vals@[l2].0@);
                }
                assert forall|l: int|
                    0 <= l < r.vals@.len() implies kernel_elems(r@.keys.state).contains(
                    (#[trigger] r.vals@[l]).0@,
                ) by {
                    assert(r.vals@[l].0@ == self.vals@[l].0@);
                    assert(kernel_elems(self@.keys.state).contains(self.vals@[l].0@));
                }
            }
        }
        r
    }

    /// A deep copy of a delta with the same model.
    #[verifier::loop_isolation(false)]
    fn duplicate_delta(d: &AWORMapDelta<V::Delta>) -> (r: AWORMapDelta<V::Delta>) {
        let keys2: Option<DotKernel> = match &d.keys {
            Some(k) => Some(k.clone()),
            None => None,
        };
        let n = d.vals.len();
        let mut vals2: Vec<(String, V::Delta)> = Vec::new();
        let mut i: usize = 0;
        while i < n
            invariant
                0 <= i <= n,
                vals2@.len() == i,
                forall|j: int| 0 <= j < i ==> (#[trigger] vals2@[j]).0@ == d.vals@[j].0@
                    && vals2@[j].1@ == d.vals@[j].1@,
                Self::delta_wf(d) ==> forall|j: int|
                    0 <= j < i ==> V::delta_wf(&(#[trigger] vals2@[j]).1),
            decreases n - i,
        {
            vals2.push((d.vals[i].0.clone(), V::duplicate_delta(&d.vals[i].1)));
            i = i + 1;
        }
        proof {
            lemma_vals_view_eq(vals2@, d.vals@);
        }
        let r = AWORMapDelta { keys: keys2, vals: vals2 };
        proof {
            assert(r@ =~= d@);
            if Self::delta_wf(d) {
                assert forall|l1: int, l2: int|
                    0 <= l1 < l2 < r.vals@.len() implies (#[trigger] r.vals@[l1]).0@ != (
                #[trigger] r.vals@[l2]).0@ by {
                    assert(d.vals@[l1].0@ != d.vals@[l2].0@);
                }
            }
        }
        r
    }

    #[verifier::loop_isolation(false)]
    fn merge(&mut self, other: Self) {
        let ghost o = other@;
        let ghost pre = old(self)@;
        let AWORMap { keys: other_keys, vals: mut other_vals } = other;
        Convergent::merge(&mut self.keys, other_keys);
        let mut own_vals: Vec<(String, V)> = Vec::new();
        core::mem::swap(&mut self.vals, &mut own_vals);
        let elems: Vec<String> = self.keys.keys();
        let ghost merged_keys = self.keys;
        let ghost elements = kernel_elems(self@.keys.state);
        let m = elems.len();
        let mut i: usize = 0;
        proof {
            assert(seen_keys(elems@, 0) =~= Set::<Seq<char>>::empty());
            assert(alist_vals(own_vals@) =~= pre.vals.remove_keys(seen_keys(elems@, 0)));
            assert(alist_vals(other_vals@) =~= o.vals.remove_keys(seen_keys(elems@, 0)));
            assert(alist_vals(self.vals@) =~= Map::<Seq<char>, V::V>::empty());
        }
        while i < m
            invariant
                0 <= i <= m,
                self.keys == merged_keys,
                val_keys_unique(own_vals@),
                forall|l: int| 0 <= l < own_vals@.len() ==> (#[trigger] own_vals@[l]).1.wf(),
                val_keys_unique(other_vals@),
                forall|l: int| 0 <= l < other_vals@.len() ==> (#[trigger] other_vals@[l]).1.wf(),
                val_keys_unique(self.vals@),
                forall|l: int| 0 <= l < self.vals@.len() ==> (#[trigger] self.vals@[l]).1.wf(),
                alist_vals(own_vals@) == pre.vals.remove_keys(seen_keys(elems@, i as int)),
                alist_vals(other_vals@) == o.vals.remove_keys(seen_keys(elems@, i as int)),
                forall|k: Seq<char>| #![trigger alist_vals(self.vals@).dom().contains(k)]
                    alist_vals(self.vals@).dom().contains(k) <==> (seen_keys(
                        elems@,
                        i as int,
                    ).contains(k) && (pre.vals.dom().contains(k) || o.vals.dom().contains(k))),
                forall|k: Seq<char>| #![trigger alist_vals(self.vals@)[k]]
                    alist_vals(self.vals@).dom().contains(k) ==> {
                        if pre.vals.dom().contains(k) && o.vals.dom().contains(k) {
                            V::merged(pre.vals[k], o.vals[k], alist_vals(self.vals@)[k])
                        } else if pre.vals.dom().contains(k) {
                            alist_vals(self.vals@)[k] == pre.vals[k]
                        } else {
                            alist_vals(self.vals@)[k] == o.vals[k]
                        }
                    },
            decreases m - i,
        {
            let ghost kv = elems@[i as int]@;
            proof {
                lemma_seen_step(elems@, i as int);
            }
            let v1 = take_val(&mut own_vals, elems[i].as_str());
            let v2 = take_val(&mut other_vals, elems[i].as_str());
            proof {
                if seen_keys(elems@, i as int).contains(kv) {
                    assert(!pre.vals.remove_keys(seen_keys(elems@, i as int)).dom().contains(kv));
                    assert(!o.vals.remove_keys(seen_keys(elems@, i as int)).dom().contains(kv));
                }
                assert(pre.vals.remove_keys(seen_keys(elems@, i as int + 1)) =~= pre.vals.remove_keys(
                    seen_keys(elems@, i as int),
                ).remove(kv));
                assert(o.vals.remove_keys(seen_keys(elems@, i as int + 1)) =~= o.vals.remove_keys(
                    seen_keys(elems@, i as int),
                ).remove(kv));
            }
            match (v1, v2) {
                (Some(a), Some(b)) => {
                    let mut a = a;
                    a.merge(b);
                    put_val(&mut self.vals, elems[i].clone(), a);
                },
                (Some(a), None) => {
                    put_val(&mut self.vals, elems[i].clone(), a);
                },
                (None, Some(b)) => {
                    put_val(&mut self.vals, elems[i].clone(), b);
                },
                (None, None) => {},
            }
            i = i + 1;
        }
        proof {
            assert forall|k: Seq<char>| #[trigger]
                seen_keys(elems@, m as int).contains(k) implies elements.contains(k) by {
                let j = choose|j: int| 0 <= j < m && (#[trigger] elems@[j])@ == k;
            }
            assert forall|k: Seq<char>| #[trigger]
                elements.contains(k) implies seen_keys(elems@, m as int).contains(k) by {
                let l = choose|l: int| 0 <= l < elems@.len() && (#[trigger] elems@[l])@ == k;
            }
            assert(seen_keys(elems@, m as int) =~= elements);
            assert forall|l: int|
                0 <= l < self.vals@.len() implies kernel_elems(self@.keys.state).contains(
                (#[trigger] self.vals@[l]).0@,
            ) by {
                lemma_vals_get(self.vals@, l);
            }
        }
    }

    #[verifier::loop_isolation(false)]
    fn merge_delta(&mut self, delta: Self::Delta) {
        let ghost dv = delta@;
        let ghost pre = old(self)@;
        let AWORMapDelta { keys: delta_keys, vals: mut delta_vals } = delta;
        match delta_keys {
            Some(dk) => {
                self.keys.merge_delta(dk);
            },
            None => {},
        }
        let mut own_vals: Vec<(String, V)> = Vec::new();
        core::mem::swap(&mut self.vals, &mut own_vals);
        let elems: Vec<String> = self.keys.keys();
        let ghost merged_keys = self.keys;
        let ghost elements = kernel_elems(self@.keys.state);
        let m = elems.len();
        let mut i: usize = 0;
        proof {
            assert(seen_keys(elems@, 0) =~= Set::<Seq<char>>::empty());
            assert(alist_vals(own_vals@) =~= pre.vals.remove_keys(seen_keys(elems@, 0)));
            assert(alist_vals(delta_vals@) =~= dv.vals.remove_keys(seen_keys(elems@, 0)));
            assert(alist_vals(self.vals@) =~= Map::<Seq<char>, V::V>::empty());
        }
        while i < m
            invariant
                0 <= i <= m,
                self.keys == merged_keys,
                val_keys_unique(own_vals@),
                forall|l: int| 0 <= l < own_vals@.len() ==> (#[trigger] own_vals@[l]).1.wf(),
                val_keys_unique(delta_vals@),
                forall|l: int|
                    0 <= l < delta_vals@.len() ==> V::delta_wf(&(#[trigger] delta_vals@[l]).1),
                val_keys_unique(self.vals@),
                forall|l: int| 0 <= l < self.vals@.len() ==> (#[trigger] self.vals@[l]).1.wf(),
                alist_vals(own_vals@) == pre.vals.remove_keys(seen_keys(elems@, i as int)),
                alist_vals(delta_vals@) == dv.vals.remove_keys(seen_keys(elems@, i as int)),
                forall|k: Seq<char>| #![trigger alist_vals(self.vals@).dom().contains(k)]
                    alist_vals(self.vals@).dom().contains(k) <==> (seen_keys(
                        elems@,
                        i as int,
                    ).contains(k) && (pre.vals.dom().contains(k) || dv.vals.dom().contains(k))),
                forall|k: Seq<char>| #![trigger alist_vals(self.vals@)[k]]
                    alist_vals(self.vals@).dom().contains(k) ==> {
                        if pre.vals.dom().contains(k) && dv.vals.dom().contains(k) {
                            V::delta_merged(pre.vals[k], dv.vals[k], alist_vals(self.vals@)[k])
                        } else if pre.vals.dom().contains(k) {
                            alist_vals(self.vals@)[k] == pre.vals[k]
                        } else {
                            V::delta_merged(V::fresh_val(), dv.vals[k], alist_vals(self.vals@)[k])
                        }
                    },
            decreases m - i,
        {
            let ghost kv = elems@[i as int]@;
            let ghost vh = self.vals@;
            proof {
                lemma_seen_step(elems@, i as int);
            }
            let v1 = take_val(&mut own_vals, elems[i].as_str());
            let d1 = take_dval::<V>(&mut delta_vals, elems[i].as_str());
            proof {
                if seen_keys(elems@, i as int).contains(kv) {
                    assert(!pre.vals.remove_keys(seen_keys(elems@, i as int)).dom().contains(kv));
                    assert(!dv.vals.remove_keys(seen_keys(elems@, i as int)).dom().contains(kv));
                }
                assert(pre.vals.remove_keys(seen_keys(elems@, i as int + 1))
                    =~= pre.vals.remove_keys(seen_keys(elems@, i as int)).remove(kv));
                assert(dv.vals.remove_keys(seen_keys(elems@, i as int + 1)) =~= dv.vals.remove_keys(
                    seen_keys(elems@, i as int),
                ).remove(kv));
            }
            match (v1, d1) {
                (Some(a), Some(b)) => {
                    let mut a = a;
                    a.merge_delta(b);
                    put_val(&mut self.vals, elems[i].clone(), a);
                },
                (Some(a), None) => {
                    put_val(&mut self.vals, elems[i].clone(), a);
                },
                (None, Some(b)) => {
                    let mut f = V::fresh();
                    f.merge_delta(b);
                    put_val(&mut self.vals, elems[i].clone(), f);
                },
                (None, None) => {},
            }
            i = i + 1;
        }
        proof {
            assert forall|k: Seq<char>| #[trigger]
                seen_keys(elems@, m as int).contains(k) implies elements.contains(k) by {
                let j = choose|j: int| 0 <= j < m && (#[trigger] elems@[j])@ == k;
            }
            assert forall|k: Seq<char>| #[trigger]
                elements.contains(k) implies seen_keys(elems@, m as int).contains(k) by {
                let l = choose|l: int| 0 <= l < elems@.len() && (#[trigger] elems@[l])@ == k;
            }
            assert(seen_keys(elems@, m as int) =~= elements);
            assert forall|l: int|
                0 <= l < self.vals@.len() implies kernel_elems(self@.keys.state).contains(
                (#[trigger] self.vals@[l]).0@,
            ) by {
                lemma_vals_get(self.vals@, l);
            }
        }
    }

    #[verifier::loop_isolation(false)]
    fn take_delta(&mut self) -> (d: Option<Self::Delta>) {
        let ghost pre = old(self)@;
        let kd = Convergent::take_delta(&mut self.keys);
        let ghost keys_after = self.keys;
        let mut dvals: Vec<(String, V::Delta)> = Vec::new();
        let n = self.vals.len();
        let mut i: usize = 0;
        proof {
            assert(alist_vals(dvals@) =~= Map::<Seq<char>, <V::Delta as View>::V>::empty());
        }
        while i < n
            invariant
                0 <= i <= n,
                self.keys == keys_after,
                self.vals@.len() == n,
                forall|l: int| 0 <= l < n ==> (#[trigger] self.vals@[l]).0 == old(self).vals@[l].0,
                forall|l: int| 0 <= l < self.vals@.len() ==> (#[trigger] self.vals@[l]).1.wf(),
                forall|l: int| i <= l < n ==> (#[trigger] self.vals@[l]).1 == old(self).vals@[l].1,
                val_keys_unique(dvals@),
                forall|l: int|
                    0 <= l < dvals@.len() ==> V::delta_wf(&(#[trigger] dvals@[l]).1),
                forall|k: Seq<char>| #[trigger] alist_vals(dvals@).dom().contains(k)
                    ==> exists|l: int| 0 <= l < i && (#[trigger] self.vals@[l]).0@ == k,
                forall|l: int| #![trigger self.vals@[l]]
                    0 <= l < i ==> V::delta_taken(
                        old(self).vals@[l].1@,
                        if alist_vals(dvals@).dom().contains(self.vals@[l].0@) {
                            Some(alist_vals(dvals@)[self.vals@[l].0@])
                        } else {
                            None
                        },
                        self.vals@[l].1@,
                    ),
            decreases n - i,
        {
            proof {
                assert(val_keys_unique(self.vals@)) by {
                    assert forall|l1: int, l2: int|
                        0 <= l1 < l2 < self.vals@.len() implies (#[trigger] self.vals@[l1]).0@
                            != (#[trigger] self.vals@[l2]).0@ by {
                        assert(self.vals@[l1].0 == old(self).vals@[l1].0 && self.vals@[l2].0
                            == old(self).vals@[l2].0);
                    }
                }
            }
            let ghost dpre = alist_vals(dvals@);
            let ghost vh = self.vals@;
            let r = val_at_mut(&mut self.vals, i);
            let dd = Convergent::take_delta(r);
            match dd {
                Some(x) => {
                    let kc = self.vals[i].0.clone();
                    put_dval::<V>(&mut dvals, kc, x);
                    proof {
                        assert forall|k: Seq<char>| #[trigger]
                            alist_vals(dvals@).dom().contains(k) implies exists|l: int|
                            0 <= l < i + 1 && (#[trigger] self.vals@[l]).0@ == k by {
                            if k != self.vals@[i as int].0@ {
                                assert(dpre.dom().contains(k));
                                let l = choose|l: int|
                                    0 <= l < i && (#[trigger] vh[l]).0@ == k;
                                assert(self.vals@[l].0 == vh[l].0);
                            } else {
                                assert(self.vals@[i as int].0@ == k);
                            }
                        }
                        assert forall|l: int| #![trigger self.vals@[l]]
                            0 <= l < i + 1 implies V::delta_taken(
                            old(self).vals@[l].1@,
                            if alist_vals(dvals@).dom().contains(self.vals@[l].0@) {
                                Some(alist_vals(dvals@)[self.vals@[l].0@])
                            } else {
                                None
                            },
                            self.vals@[l].1@,
                        ) by {
                            if l < i {
                                assert(self.vals@[l] == vh[l]);
                                assert(V::delta_taken(
                                    old(self).vals@[l].1@,
                                    if dpre.dom().contains(vh[l].0@) {
                                        Some(dpre[vh[l].0@])
                                    } else {
                                        None
                                    },
                                    vh[l].1@,
                                ));
                                assert(self.vals@[l].0@ != self.vals@[i as int].0@);
                            }
                        }
                    }
                },
                None => {
                    proof {
                        assert forall|k: Seq<char>| #[trigger]
                            alist_vals(dvals@).dom().contains(k) implies exists|l: int|
                            0 <= l < i + 1 && (#[trigger] self.vals@[l]).0@ == k by {
                            assert(dpre.dom().contains(k));
                            let l = choose|l: int| 0 <= l < i && (#[trigger] vh[l]).0@ == k;
                            assert(self.vals@[l].0 == vh[l].0);
                        }
                        assert forall|l: int| #![trigger self.vals@[l]]
                            0 <= l < i + 1 implies V::delta_taken(
                            old(self).vals@[l].1@,
                            if alist_vals(dvals@).dom().contains(self.vals@[l].0@) {
                                Some(alist_vals(dvals@)[self.vals@[l].0@])
                            } else {
                                None
                            },
                            self.vals@[l].1@,
                        ) by {
                            if l < i {
                                assert(self.vals@[l] == vh[l]);
                                assert(V::delta_taken(
                                    old(self).vals@[l].1@,
                                    if dpre.dom().contains(vh[l].0@) {
                                        Some(dpre[vh[l].0@])
                                    } else {
                                        None
                                    },
                                    vh[l].1@,
                                ));
                            } else {
                                if alist_vals(dvals@).dom().contains(self.vals@[l].0@) {
                                    let l2 = choose|l2: int|
                                        0 <= l2 < i && (#[trigger] vh[l2]).0@ == self.vals@[
                                            i as int].0@;
                                    assert(self.vals@[l2].0 == vh[l2].0);
                                    assert(false);
                                }
                            }
                        }
                    }
                },
            }
            i = i + 1;
        }
        proof {
            assert forall|k: Seq<char>| #[trigger]
                self@.vals.dom().contains(k) <==> pre.vals.dom().contains(k) by {
                lemma_vals_dom(self.vals@, k);
                lemma_vals_dom(old(self).vals@, k);
                if self@.vals.dom().contains(k) {
                    let l = choose|l: int|
                        0 <= l < self.vals@.len() && (#[trigger] self.vals@[l]).0@ == k;
                    assert(old(self).vals@[l].0@ == k);
                }
                if pre.vals.dom().contains(k) {
                    let l = choose|l: int|
                        0 <= l < old(self).vals@.len() && (#[trigger] old(self).vals@[l]).0@ == k;
                    assert(self.vals@[l].0@ == k);
                }
            }
            assert(val_keys_unique(self.vals@)) by {
                assert forall|l1: int, l2: int|
                    0 <= l1 < l2 < self.vals@.len() implies (#[trigger] self.vals@[l1]).0@ != (
                #[trigger] self.vals@[l2]).0@ by {
                    assert(self.vals@[l1].0 == old(self).vals@[l1].0 && self.vals@[l2].0 == old(
                        self,
                    ).vals@[l2].0);
                }
            }
            assert forall|k: Seq<char>| #[trigger]
                pre.vals.dom().contains(k) implies V::delta_taken(
                pre.vals[k],
                if alist_vals(dvals@).dom().contains(k) {
                    Some(alist_vals(dvals@)[k])
                } else {
                    None
                },
                self@.vals[k],
            ) by {
                lemma_vals_dom(old(self).vals@, k);
                let l = choose|l: int|
                    0 <= l < old(self).vals@.len() && (#[trigger] old(self).vals@[l]).0@ == k;
                lemma_vals_get(old(self).vals@, l);
                lemma_vals_get(self.vals@, l);
                assert(self.vals@[l].0@ == k);
            }
            assert forall|l: int|
                0 <= l < self.vals@.len() implies kernel_elems(self@.keys.state).contains(
                (#[trigger] self.vals@[l]).0@,
            ) by {
                assert(self.vals@[l].0 == old(self).vals@[l].0);
                assert(kernel_elems(old(self)@.keys.state).contains(old(self).vals@[l].0@));
            }
            assert forall|k: Seq<char>| #[trigger]
                alist_vals(dvals@).dom().contains(k) implies pre.vals.dom().contains(k) by {
                let l = choose|l: int| 0 <= l < n && (#[trigger] self.vals@[l]).0@ == k;
                lemma_vals_dom(old(self).vals@, k);
                assert(old(self).vals@[l].0@ == k);
            }
        }
        let no_key_delta = kd.is_none();
        if no_key_delta && dvals.len() == 0 {
            proof {
                assert(alist_vals(dvals@) =~= Map::<Seq<char>, <V::Delta as View>::V>::empty());
            }
            None
        } else {
            let result = AWORMapDelta { keys: kd, vals: dvals };
            proof {
                if result.keys matches Some(_) {
                    assert(result@.keys matches Some(_));
                } else {
                    assert(result.vals@.len() > 0);
                    lemma_vals_get(result.vals@, 0);
                    assert(result@.vals.dom().contains(result.vals@[0].0@));
                }
            }
            Some(result)
        }
    }
}


/// Recursive convergence: after a full merge, a key valued on both sides
/// holds exactly the merge of the two values.
pub proof fn lemma_map_merge_value<V: Convergent>(
    pre: MapView<V::V>,
    other: MapView<V::V>,
    post: MapView<V::V>,
    k: Seq<char>,
)
    requires
        <AWORMap<V> as Convergent>::merged(pre, other, post),
        post.vals.dom().contains(k),
        pre.vals.dom().contains(k),
        other.vals.dom().contains(k),
    ensures
        V::merged(pre.vals[k], other.vals[k], post.vals[k]),
{
}

/// Recursive convergence instantiated at signed counters: concurrent
/// mutations of the counter under one key converge to the pointwise
/// joined tallies.
pub proof fn lemma_map_counter_converges(
    pre: MapView<(Map<ReplicaId, u64>, Map<ReplicaId, u64>)>,
    other: MapView<(Map<ReplicaId, u64>, Map<ReplicaId, u64>)>,
    post: MapView<(Map<ReplicaId, u64>, Map<ReplicaId, u64>)>,
    k: Seq<char>,
)
    requires
        <AWORMap<crate::pncounter::PNCounter> as Convergent>::merged(pre, other, post),
        post.vals.dom().contains(k),
        pre.vals.dom().contains(k),
        other.vals.dom().contains(k),
    ensures
        post.vals[k].0 == crate::common::join_counts(pre.vals[k].0, other.vals[k].0),
        post.vals[k].1 == crate::common::join_counts(pre.vals[k].1, other.vals[k].1),
{
    lemma_map_merge_value::<crate::pncounter::PNCounter>(pre, other, post, k);
}


/// Two map models with observably equal key sets and equal value maps.
pub open spec fn map_equiv<VV>(a: MapView<VV>, b: MapView<VV>) -> bool {
    &&& crate::aworset::kernel_equiv(a.keys.state, b.keys.state)
    &&& crate::aworset::kernel_equiv(a.keys.delta, b.keys.delta)
    &&& a.vals =~= b.vals
}

/// Merging the same peer map twice changes nothing beyond the first
/// merge, for counter-valued maps.
pub proof fn lemma_map_merge_reapply(
    x: MapView<(Map<ReplicaId, u64>, Map<ReplicaId, u64>)>,
    y: MapView<(Map<ReplicaId, u64>, Map<ReplicaId, u64>)>,
    once: MapView<(Map<ReplicaId, u64>, Map<ReplicaId, u64>)>,
    twice: MapView<(Map<ReplicaId, u64>, Map<ReplicaId, u64>)>,
)
    requires
        crate::aworset::kernel_covered(x.keys.state),
        crate::aworset::kernel_covered(x.keys.delta),
        crate::aworset::kernel_covered(y.keys.state),
        crate::aworset::kernel_covered(y.keys.delta),
        <AWORMap<crate::pncounter::PNCounter> as Convergent>::merged(x, y, once),
        <AWORMap<crate::pncounter::PNCounter> as Convergent>::merged(once, y, twice),
    ensures
        map_equiv(twice, once),
{
    crate::aworset::lemma_set_merge_reapply(x.keys, y.keys, once.keys, twice.keys);
    assert forall|k: Seq<char>|
        true implies ((#[trigger] twice.vals.dom().contains(k) <==> once.vals.dom().contains(k))
            && (twice.vals.dom().contains(k) ==> twice.vals[k] == once.vals[k])) by {
        assert(kernel_elems(twice.keys.state) =~= kernel_elems(once.keys.state)) by {
            assert(twice.keys.state.entries =~= once.keys.state.entries);
        }
        if twice.vals.dom().contains(k) {
            if once.vals.dom().contains(k) && y.vals.dom().contains(k) {
                if x.vals.dom().contains(k) {
                    crate::common::lemma_join_counts_reapply(x.vals[k].0, y.vals[k].0);
                    crate::common::lemma_join_counts_reapply(x.vals[k].1, y.vals[k].1);
                } else {
                    crate::common::lemma_join_counts_idem(y.vals[k].0);
                    crate::common::lemma_join_counts_idem(y.vals[k].1);
                }
            }
        }
    }
    assert(twice.vals =~= once.vals);
}

/// Merging two counter-valued maps in either order converges to the same
/// observable map, when the key sets agree on shared dots.
pub proof fn lemma_map_merge_commutes(
    x: MapView<(Map<ReplicaId, u64>, Map<ReplicaId, u64>)>,
    y: MapView<(Map<ReplicaId, u64>, Map<ReplicaId, u64>)>,
    xy: MapView<(Map<ReplicaId, u64>, Map<ReplicaId, u64>)>,
    yx: MapView<(Map<ReplicaId, u64>, Map<ReplicaId, u64>)>,
)
    requires
        crate::aworset::kernel_covered(x.keys.state),
        crate::aworset::kernel_covered(x.keys.delta),
        crate::aworset::kernel_covered(y.keys.state),
        crate::aworset::kernel_covered(y.keys.delta),
        crate::aworset::kernel_agree(x.keys.state, y.keys.state),
        crate::aworset::kernel_agree(x.keys.delta, y.keys.delta),
        <AWORMap<crate::pncounter::PNCounter> as Convergent>::merged(x, y, xy),
        <AWORMap<crate::pncounter::PNCounter> as Convergent>::merged(y, x, yx),
    ensures
        map_equiv(xy, yx),
{
    crate::aworset::lemma_set_merge_commutes(x.keys, y.keys, xy.keys, yx.keys);
    assert forall|k: Seq<char>|
        true implies ((#[trigger] xy.vals.dom().contains(k) <==> yx.vals.dom().contains(k)) && (
        xy.vals.dom().contains(k) ==> xy.vals[k] == yx.vals[k])) by {
        assert(kernel_elems(xy.keys.state) =~= kernel_elems(yx.keys.state)) by {
            assert(xy.keys.state.entries =~= yx.keys.state.entries);
        }
        if xy.vals.dom().contains(k) && x.vals.dom().contains(k) && y.vals.dom().contains(k) {
            crate::common::lemma_join_counts_comm(x.vals[k].0, y.vals[k].0);
            crate::common::lemma_join_counts_comm(x.vals[k].1, y.vals[k].1);
        }
    }
    assert(xy.vals =~= yx.vals);
}


/// Either grouping of three counter-valued map merges converges to the
/// same observable map, when the key sets carry no tombstones (no key has
/// ever been removed) and agree on shared dots.  With removals in play,
/// a value dropped by one grouping's key merge can survive the other's.
pub proof fn lemma_map_merge_associates(
    x: MapView<(Map<ReplicaId, u64>, Map<ReplicaId, u64>)>,
    y: MapView<(Map<ReplicaId, u64>, Map<ReplicaId, u64>)>,
    z: MapView<(Map<ReplicaId, u64>, Map<ReplicaId, u64>)>,
    xy: MapView<(Map<ReplicaId, u64>, Map<ReplicaId, u64>)>,
    xy_z: MapView<(Map<ReplicaId, u64>, Map<ReplicaId, u64>)>,
    yz: MapView<(Map<ReplicaId, u64>, Map<ReplicaId, u64>)>,
    x_yz: MapView<(Map<ReplicaId, u64>, Map<ReplicaId, u64>)>,
)
    requires
        crate::aworset::kernel_covered(x.keys.state),
        crate::aworset::kernel_covered(x.keys.delta),
        crate::aworset::kernel_covered(y.keys.state),
        crate::aworset::kernel_covered(y.keys.delta),
        crate::aworset::kernel_covered(z.keys.state),
        crate::aworset::kernel_covered(z.keys.delta),
        crate::aworset::kernel_tombstone_free(x.keys.state),
        crate::aworset::kernel_tombstone_free(y.keys.state),
        crate::aworset::kernel_tombstone_free(z.keys.state),
        crate::aworset::kernel_agree(x.keys.state, y.keys.state),
        crate::aworset::kernel_agree(x.keys.state, z.keys.state),
        crate::aworset::kernel_agree(y.keys.state, z.keys.state),
        forall|k: Seq<char>| #[trigger] x.vals.dom().contains(k) ==> kernel_elems(
            x.keys.state,
        ).contains(k),
        forall|k: Seq<char>| #[trigger] y.vals.dom().contains(k) ==> kernel_elems(
            y.keys.state,
        ).contains(k),
        forall|k: Seq<char>| #[trigger] z.vals.dom().contains(k) ==> kernel_elems(
            z.keys.state,
        ).contains(k),
        <AWORMap<crate::pncounter::PNCounter> as Convergent>::merged(x, y, xy),
        <AWORMap<crate::pncounter::PNCounter> as Convergent>::merged(xy, z, xy_z),
        <AWORMap<crate::pncounter::PNCounter> as Convergent>::merged(y, z, yz),
        <AWORMap<crate::pncounter::PNCounter> as Convergent>::merged(x, yz, x_yz),
    ensures
        map_equiv(xy_z, x_yz),
{
    crate::aworset::lemma_set_merge_associates(
        x.keys,
        y.keys,
        z.keys,
        xy.keys,
        xy_z.keys,
        yz.keys,
        x_yz.keys,
    );
    crate::aworset::lemma_kernel_merge_elems_union(x.keys.state, y.keys.state, xy.keys.state);
    crate::aworset::lemma_kernel_merge_elems_union(y.keys.state, z.keys.state, yz.keys.state);
    assert(crate::aworset::kernel_agree(xy.keys.state, z.keys.state)) by {
        assert forall|d: Dot|
            #[trigger] xy.keys.state.entries.dom().contains(d)
                && #[trigger] z.keys.state.entries.dom().contains(d)
                implies xy.keys.state.entries[d] == z.keys.state.entries[d] by {
            if x.keys.state.entries.dom().contains(d) {
                assert(xy.keys.state.entries[d] == x.keys.state.entries[d]);
            } else {
                assert(xy.keys.state.entries[d] == y.keys.state.entries[d]);
            }
        }
    }
    assert(crate::aworset::kernel_agree(x.keys.state, yz.keys.state)) by {
        assert forall|d: Dot|
            #[trigger] x.keys.state.entries.dom().contains(d)
                && #[trigger] yz.keys.state.entries.dom().contains(d)
                implies x.keys.state.entries[d] == yz.keys.state.entries[d] by {
            if y.keys.state.entries.dom().contains(d) {
                assert(yz.keys.state.entries[d] == y.keys.state.entries[d]);
            } else {
                assert(yz.keys.state.entries[d] == z.keys.state.entries[d]);
            }
        }
    }
    crate::aworset::lemma_kernel_merge_elems_union(xy.keys.state, z.keys.state, xy_z.keys.state);
    crate::aworset::lemma_kernel_merge_elems_union(x.keys.state, yz.keys.state, x_yz.keys.state);
    let ex = kernel_elems(x.keys.state);
    let ey = kernel_elems(y.keys.state);
    let ez = kernel_elems(z.keys.state);
    assert(kernel_elems(xy_z.keys.state) =~= ex.union(ey).union(ez));
    assert(kernel_elems(x_yz.keys.state) =~= ex.union(ey.union(ez)));
    assert forall|k: Seq<char>|
        true implies ((#[trigger] xy_z.vals.dom().contains(k) <==> x_yz.vals.dom().contains(k))
            && (xy_z.vals.dom().contains(k) ==> xy_z.vals[k] == x_yz.vals[k])) by {
        let in_x = x.vals.dom().contains(k);
        let in_y = y.vals.dom().contains(k);
        let in_z = z.vals.dom().contains(k);
        assert(xy.vals.dom().contains(k) <==> (in_x || in_y)) by {
            if in_x {
                assert(ex.contains(k));
            }
            if in_y {
                assert(ey.contains(k));
            }
        }
        assert(yz.vals.dom().contains(k) <==> (in_y || in_z)) by {
            if in_y {
                assert(ey.contains(k));
            }
            if in_z {
                assert(ez.contains(k));
            }
        }
        assert(xy_z.vals.dom().contains(k) <==> ((in_x || in_y || in_z) && ex.union(ey).union(
            ez,
        ).contains(k)));
        assert(x_yz.vals.dom().contains(k) <==> ((in_x || in_y || in_z) && ex.union(
            ey.union(ez),
        ).contains(k)));
        if xy_z.vals.dom().contains(k) {
            if in_x && in_y && in_z {
                crate::common::lemma_join_counts_assoc(x.vals[k].0, y.vals[k].0, z.vals[k].0);
                crate::common::lemma_join_counts_assoc(x.vals[k].1, y.vals[k].1, z.vals[k].1);
            }
        }
    }
    assert(xy_z.vals =~= x_yz.vals);
}

} // verus!
