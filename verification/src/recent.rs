//! A cache that lets go of what was used least recently.

use std::collections::HashMap;
use std::num::NonZeroUsize;
use std::sync::Arc;
use vstd::prelude::*;

pub mod laws;

verus! {

broadcast use vstd::std_specs::hash::group_hash_axioms;

/// `Arc::clone`: another pointer to the same value.
#[verifier::external_body]
pub(crate) fn share<T>(a: &Arc<T>) -> (r: Arc<T>)
    ensures
        r == *a,
{
    a.clone()
}

/// `lru::LruCache`.
#[verifier::external_type_specification]
#[verifier::external_body]
#[verifier::reject_recursive_types(K)]
#[verifier::reject_recursive_types(V)]
#[verifier::reject_recursive_types(S)]
pub struct ExLruCache<K, V, S>(lru::LruCache<K, V, S>);

/// `lru::DefaultHasher`, the hasher of such a cache.
#[verifier::external_type_specification]
#[verifier::external_body]
pub struct ExDefaultHasher(lru::DefaultHasher);

/// The keys of a cache, the least recently used one first.
pub uninterp spec fn lru_keys(c: lru::LruCache<u128, ()>) -> Seq<u128>;

/// How many keys a cache keeps.
pub uninterp spec fn lru_cap(c: lru::LruCache<u128, ()>) -> nat;

/// `lru::LruCache::new`: an empty cache for `cap` keys.
#[verifier::external_body]
fn lru_new(cap: usize) -> (r: lru::LruCache<u128, ()>)
    requires
        0 < cap <= 0x10_0000,
    ensures
        lru_keys(r) == Seq::<u128>::empty(),
        lru_cap(r) == cap,
{
    lru::LruCache::new(NonZeroUsize::new(cap).unwrap_or(NonZeroUsize::MIN))
}

/// `lru::LruCache::unbounded`: an empty cache for any number of keys.
#[verifier::external_body]
fn lru_unbounded() -> (r: lru::LruCache<u128, ()>)
    ensures
        lru_keys(r) == Seq::<u128>::empty(),
        lru_cap(r) == usize::MAX,
{
    lru::LruCache::unbounded()
}

/// `lru::LruCache::get`: whether the key is there; if it is, it becomes the
/// most recently used one.
#[verifier::external_body]
fn lru_get(c: &mut lru::LruCache<u128, ()>, key: u128) -> (r: bool)
    ensures
        r == lru_keys(*old(c)).contains(key),
        lru_keys(*final(c)) == touched(lru_keys(*old(c)), key),
        lru_cap(*final(c)) == lru_cap(*old(c)),
{
    c.get(&key).is_some()
}

/// `lru::LruCache::push`: the key becomes the most recently used one. It is
/// handed back when it was there; otherwise, when the cache was full, the
/// least recently used key leaves and is handed back.
#[verifier::external_body]
fn lru_push(c: &mut lru::LruCache<u128, ()>, key: u128) -> (r: Option<u128>)
    ensures
        (r, lru_keys(*final(c))) == pushed(lru_keys(*old(c)), lru_cap(*old(c)), key),
        lru_cap(*final(c)) == lru_cap(*old(c)),
{
    c.push(key, ()).map(|e| e.0)
}

/// `lru::LruCache::pop_lru`: the least recently used key leaves.
#[verifier::external_body]
fn lru_pop(c: &mut lru::LruCache<u128, ()>) -> (r: Option<u128>)
    ensures
        match r {
            Some(k) => lru_keys(*old(c)).len() > 0 && k == lru_keys(*old(c))[0] && lru_keys(
                *final(c),
            ) == lru_keys(*old(c)).skip(1),
            None => lru_keys(*old(c)).len() == 0 && lru_keys(*final(c)) == lru_keys(*old(c)),
        },
        lru_cap(*final(c)) == lru_cap(*old(c)),
{
    c.pop_lru().map(|e| e.0)
}

/// `s` without `x`.
pub open spec fn without(s: Seq<u128>, x: u128) -> Seq<u128>
    decreases s.len(),
{
    if s.len() == 0 {
        s
    } else if s.last() == x {
        without(s.drop_last(), x)
    } else {
        without(s.drop_last(), x).push(s.last())
    }
}

/// `s` with `x`, if it is there, moved to its end.
pub open spec fn touched(s: Seq<u128>, x: u128) -> Seq<u128> {
    if s.contains(x) {
        without(s, x).push(x)
    } else {
        s
    }
}

/// What pushing `x` onto `s` hands back and leaves, when `cap` keys are kept.
pub open spec fn pushed(s: Seq<u128>, cap: nat, x: u128) -> (Option<u128>, Seq<u128>) {
    if s.contains(x) {
        (Some(x), without(s, x).push(x))
    } else if s.len() >= cap && s.len() > 0 {
        (Some(s[0]), s.skip(1).push(x))
    } else {
        (None, s.push(x))
    }
}

pub proof fn lemma_without(s: Seq<u128>, x: u128)
    ensures
        forall|y: u128| without(s, x).contains(y) <==> s.contains(y) && y != x,
        s.no_duplicates() ==> without(s, x).no_duplicates(),
        without(s, x).len() <= s.len(),
        s.contains(x) ==> without(s, x).len() < s.len(),
        !s.contains(x) ==> without(s, x) == s,
    decreases s.len(),
{
    if s.len() > 0 {
        let t = s.drop_last();
        lemma_without(t, x);
        let w = without(t, x);
        assert forall|y: u128| s.contains(y) <==> t.contains(y) || y == s.last() by {
            if s.contains(y) {
                let i = choose|i: int| 0 <= i < s.len() && s[i] == y;
                if i < t.len() {
                    assert(t[i] == y);
                }
            }
            if t.contains(y) {
                let i = choose|i: int| 0 <= i < t.len() && t[i] == y;
                assert(s[i] == y);
            }
            assert(s[s.len() - 1] == s.last());
        }
        assert forall|y: u128| w.push(s.last()).contains(y) <==> w.contains(y) || y
            == s.last() by {
            let p = w.push(s.last());
            if w.contains(y) {
                let i = choose|i: int| 0 <= i < w.len() && w[i] == y;
                assert(p[i] == y);
            }
            assert(p[w.len() as int] == s.last());
            if p.contains(y) {
                let i = choose|i: int| 0 <= i < p.len() && p[i] == y;
                if i < w.len() {
                    assert(w[i] == y);
                }
            }
        }
        if s.no_duplicates() {
            assert(t.no_duplicates());
            if t.contains(s.last()) {
                let i = choose|i: int| 0 <= i < t.len() && t[i] == s.last();
                assert(s[i] == s[s.len() - 1]);
            }
            assert(!w.contains(s.last()));
        }
        if !s.contains(x) {
            assert(s =~= t.push(s.last()));
        }
    } else {
        assert(without(s, x) =~= s);
    }
}

proof fn lemma_push_distinct(s: Seq<u128>, x: u128)
    requires
        s.no_duplicates(),
        !s.contains(x),
    ensures
        s.push(x).no_duplicates(),
        forall|y: u128| s.push(x).contains(y) <==> s.contains(y) || y == x,
{
    let p = s.push(x);
    assert forall|y: u128| p.contains(y) <==> s.contains(y) || y == x by {
        if s.contains(y) {
            let i = choose|i: int| 0 <= i < s.len() && s[i] == y;
            assert(p[i] == y);
        }
        assert(p[s.len() as int] == x);
        if p.contains(y) {
            let i = choose|i: int| 0 <= i < p.len() && p[i] == y;
            if i < s.len() {
                assert(s[i] == y);
            }
        }
    }
    assert forall|i: int, j: int| 0 <= i < p.len() && 0 <= j < p.len() && i != j implies p[i]
        != p[j] by {
        if i < s.len() && j < s.len() {
            assert(s[i] != s[j]);
        } else if i < s.len() {
            assert(s.contains(s[i]));
        } else {
            assert(s.contains(s[j]));
        }
    }
}

pub proof fn lemma_skip_distinct(s: Seq<u128>)
    requires
        s.no_duplicates(),
        s.len() > 0,
    ensures
        s.skip(1).no_duplicates(),
        forall|y: u128| s.skip(1).contains(y) <==> s.contains(y) && y != s[0],
{
    let t = s.skip(1);
    assert forall|y: u128| t.contains(y) <==> s.contains(y) && y != s[0] by {
        if t.contains(y) {
            let i = choose|i: int| 0 <= i < t.len() && t[i] == y;
            assert(s[i + 1] == y);
        }
        if s.contains(y) && y != s[0] {
            let i = choose|i: int| 0 <= i < s.len() && s[i] == y;
            assert(t[i - 1] == y);
        }
    }
}

/// A cache, as the contracts see it: its keys, the least recently used one
/// first, and what is kept under them.
#[verifier::ext_equal]
#[verifier::reject_recursive_types(V)]
pub struct RecentView<V> {
    pub order: Seq<u128>,
    pub values: Map<u128, V>,
    pub cap: nat,
}

/// Keys in order of use, with a value for each.
#[verifier::reject_recursive_types(V)]
pub struct Recent<V> {
    order: lru::LruCache<u128, ()>,
    values: HashMap<u128, V>,
}

impl<V> View for Recent<V> {
    type V = RecentView<V>;

    closed spec fn view(&self) -> RecentView<V> {
        RecentView {
            order: lru_keys(self.order),
            values: self.values@,
            cap: lru_cap(self.order),
        }
    }
}

impl<V> RecentView<V> {
    /// Each key occurs once, and has a value.
    pub open spec fn sound(self) -> bool {
        &&& self.order.no_duplicates()
        &&& forall|k: u128| self.order.contains(k) <==> #[trigger] self.values.contains_key(k)
    }

    /// After `key` was asked for.
    pub open spec fn after_get(self, key: u128) -> RecentView<V> {
        RecentView { order: touched(self.order, key), ..self }
    }

    /// After `value` was put under `key`.
    pub open spec fn after_put(self, key: u128, value: V) -> RecentView<V> {
        let (out, order) = pushed(self.order, self.cap, key);
        let values = match out {
            Some(k) => self.values.remove(k),
            None => self.values,
        };
        RecentView { order, values: values.insert(key, value), ..self }
    }

    /// After the least recently used key left.
    pub open spec fn after_pop(self) -> RecentView<V> {
        if self.order.len() == 0 {
            self
        } else {
            RecentView {
                order: self.order.skip(1),
                values: self.values.remove(self.order[0]),
                ..self
            }
        }
    }
}

/// To ask for what is not there changes nothing.
pub proof fn lemma_missed<V>(c: RecentView<V>, key: u128)
    requires
        c.sound(),
        !c.values.contains_key(key),
    ensures
        c.after_get(key) == c,
{
    assert(!c.order.contains(key));
}

impl<V> Recent<V> {
    pub open spec fn wf(&self) -> bool {
        self@.sound()
    }

    /// An empty cache for `cap` keys.
    pub fn new(cap: usize) -> (r: Recent<V>)
        requires
            0 < cap <= 0x10_0000,
        ensures
            r.wf(),
            r@ == (RecentView::<V> {
                order: Seq::empty(),
                values: Map::empty(),
                cap: cap as nat,
            }),
    {
        Recent { order: lru_new(cap), values: HashMap::new() }
    }

    /// An empty cache for any number of keys.
    pub fn unbounded() -> (r: Recent<V>)
        ensures
            r.wf(),
            r@ == (RecentView::<V> {
                order: Seq::empty(),
                values: Map::empty(),
                cap: usize::MAX as nat,
            }),
    {
        Recent { order: lru_unbounded(), values: HashMap::new() }
    }

    /// What is kept under `key`, which becomes the most recently used one.
    pub fn get(&mut self, key: u128) -> (r: Option<&V>)
        requires
            old(self).wf(),
        ensures
            final(self).wf(),
            final(self)@ == old(self)@.after_get(key),
            match r {
                Some(v) => old(self)@.values.contains_key(key) && *v == old(self)@.values[key],
                None => !old(self)@.values.contains_key(key),
            },
    {
        proof {
            lemma_without(self@.order, key);
            lemma_push_distinct(without(self@.order, key), key);
            assert(self@.order.contains(key) <==> self@.values.contains_key(key));
        }
        let _ = lru_get(&mut self.order, key);
        self.values.get(&key)
    }

    /// Keep `value` under `key`; what was there, or had to make room for it,
    /// is handed back.
    pub fn put(&mut self, key: u128, value: V) -> (r: Option<V>)
        requires
            old(self).wf(),
        ensures
            final(self).wf(),
            final(self)@ == old(self)@.after_put(key, value),
            match pushed(old(self)@.order, old(self)@.cap, key).0 {
                Some(k) => old(self)@.values.contains_key(k) && r == Some(old(self)@.values[k]),
                None => r is None,
            },
    {
        let ghost s = self@.order;
        proof {
            lemma_without(s, key);
            lemma_push_distinct(without(s, key), key);
            if s.len() > 0 {
                lemma_skip_distinct(s);
                assert(s.contains(s[0]));
                if !s.contains(key) {
                    lemma_push_distinct(s.skip(1), key);
                }
            }
            if !s.contains(key) {
                lemma_push_distinct(s, key);
            }
        }
        let out = lru_push(&mut self.order, key);
        let gone = match out {
            Some(k) => {
                assert(s.contains(k));
                self.values.remove(&k)
            },
            None => None,
        };
        let _ = self.values.insert(key, value);
        proof {
            assert forall|k: u128| self@.order.contains(k) <==> #[trigger] self@.values.contains_key(
                k,
            ) by {
                assert(s.contains(k) <==> old(self)@.values.contains_key(k));
            }
        }
        gone
    }

    /// The least recently used value leaves.
    pub fn pop_lru(&mut self) -> (r: Option<V>)
        requires
            old(self).wf(),
        ensures
            final(self).wf(),
            final(self)@ == old(self)@.after_pop(),
            match r {
                Some(v) => old(self)@.order.len() > 0 && old(self)@.values.contains_key(
                    old(self)@.order[0],
                ) && v == old(self)@.values[old(self)@.order[0]],
                None => old(self)@.order.len() == 0,
            },
    {
        let ghost s = self@.order;
        proof {
            if s.len() > 0 {
                lemma_skip_distinct(s);
                assert(s.contains(s[0]));
            }
        }
        match lru_pop(&mut self.order) {
            None => None,
            Some(k) => {
                let r = self.values.remove(&k);
                proof {
                    assert forall|x: u128| self@.order.contains(x)
                        <==> #[trigger] self@.values.contains_key(x) by {
                        assert(s.contains(x) <==> old(self)@.values.contains_key(x));
                    }
                }
                r
            },
        }
    }
}

} // verus!
