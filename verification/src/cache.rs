//! Byte-bounded LRU cache of immutable buffers.

use std::sync::Arc;
use vstd::prelude::*;

use crate::recent;
use crate::recent::{Recent, RecentView};

pub mod laws;

verus! {

/// A buffer that is shared.
pub type Buffer = Arc<Vec<u8>>;

/// How many bytes the values under some keys have.
pub open spec fn total(order: Seq<u128>, values: Map<u128, Buffer>) -> nat
    decreases order.len(),
{
    if order.len() == 0 {
        0
    } else {
        values[order[0]]@.len() + total(order.skip(1), values)
    }
}

/// A cache after the least recently used values have left, one by one, until
/// no more than `capacity` bytes are kept.
pub open spec fn trimmed(c: RecentView<Buffer>, capacity: nat) -> RecentView<Buffer>
    decreases c.order.len(),
{
    if total(c.order, c.values) <= capacity || c.order.len() == 0 {
        c
    } else {
        trimmed(c.after_pop(), capacity)
    }
}

/// A cache after a value was inserted; one larger than the whole cache is
/// skipped.
pub open spec fn inserted(
    c: RecentView<Buffer>,
    capacity: nat,
    key: u128,
    value: Buffer,
) -> RecentView<Buffer> {
    if value@.len() > capacity {
        c
    } else {
        trimmed(c.after_put(key, value), capacity)
    }
}

proof fn lemma_total_push(order: Seq<u128>, values: Map<u128, Buffer>, key: u128)
    ensures
        total(order.push(key), values) == total(order, values) + values[key]@.len(),
    decreases order.len(),
{
    if order.len() == 0 {
        assert(order.push(key).skip(1) =~= Seq::<u128>::empty());
        reveal_with_fuel(total, 2);
    } else {
        lemma_total_push(order.skip(1), values, key);
        assert(order.push(key).skip(1) =~= order.skip(1).push(key));
        assert(order.push(key)[0] == order[0]);
    }
}

/// Values under other keys do not count.
proof fn lemma_total_same(order: Seq<u128>, a: Map<u128, Buffer>, b: Map<u128, Buffer>)
    requires
        forall|k: u128| #[trigger] order.contains(k) ==> a[k] == b[k],
    ensures
        total(order, a) == total(order, b),
    decreases order.len(),
{
    if order.len() > 0 {
        assert(order.contains(order[0]));
        assert forall|k: u128| #[trigger] order.skip(1).contains(k) implies a[k] == b[k] by {
            let i = choose|i: int| 0 <= i < order.skip(1).len() && order.skip(1)[i] == k;
            assert(order[i + 1] == k);
            assert(order.contains(k));
        }
        lemma_total_same(order.skip(1), a, b);
    }
}

proof fn lemma_total_without(order: Seq<u128>, values: Map<u128, Buffer>, key: u128)
    requires
        order.no_duplicates(),
    ensures
        total(recent::without(order, key), values) + (if order.contains(key) {
            values[key]@.len()
        } else {
            0
        }) == total(order, values),
    decreases order.len(),
{
    if order.len() > 0 {
        let t = order.drop_last();
        assert(t.no_duplicates());
        lemma_total_without(t, values, key);
        assert(order =~= t.push(order.last()));
        lemma_total_push(t, values, order.last());
        lemma_total_push(recent::without(t, key), values, order.last());
        assert(order.contains(key) <==> t.contains(key) || key == order.last()) by {
            if order.contains(key) {
                let i = choose|i: int| 0 <= i < order.len() && order[i] == key;
                if i < t.len() {
                    assert(t[i] == key);
                }
            }
            if t.contains(key) {
                let i = choose|i: int| 0 <= i < t.len() && t[i] == key;
                assert(order[i] == key);
            }
            assert(order[order.len() - 1] == order.last());
        }
        if key == order.last() && t.contains(key) {
            let i = choose|i: int| 0 <= i < t.len() && t[i] == key;
            assert(order[i] == order[order.len() - 1]);
        }
    }
}

/// What a push leaves, in bytes.
proof fn lemma_total_put(c: RecentView<Buffer>, key: u128, value: Buffer)
    requires
        c.sound(),
    ensures
        total(c.after_put(key, value).order, c.after_put(key, value).values) == total(
            c.order,
            c.values,
        ) + value@.len() - (match recent::pushed(c.order, c.cap, key).0 {
            Some(k) => c.values[k]@.len(),
            None => 0,
        }),
        recent::pushed(c.order, c.cap, key).0 matches Some(k) ==> c.values[k]@.len() <= total(
            c.order,
            c.values,
        ),
        c.after_put(key, value).sound(),
{
    let s = c.order;
    let after = c.after_put(key, value);
    recent::lemma_without(s, key);
    lemma_total_without(s, c.values, key);
    let kept = if s.contains(key) {
        recent::without(s, key)
    } else if s.len() >= c.cap && s.len() > 0 {
        s.skip(1)
    } else {
        s
    };
    if s.len() > 0 {
        recent::lemma_skip_distinct(s);
        assert(s.contains(s[0]));
    }
    assert(after.order == kept.push(key));
    lemma_total_push(kept, after.values, key);
    assert forall|k: u128| #[trigger] kept.contains(k) implies after.values[k] == c.values[k] by {
        assert(s.contains(k));
        assert(k != key);
    }
    lemma_total_same(kept, after.values, c.values);
    assert(!kept.contains(key));
    assert forall|y: u128| kept.push(key).contains(y) <==> kept.contains(y) || y == key by {
        let p = kept.push(key);
        if kept.contains(y) {
            let i = choose|i: int| 0 <= i < kept.len() && kept[i] == y;
            assert(p[i] == y);
        }
        assert(p[kept.len() as int] == key);
        if p.contains(y) {
            let i = choose|i: int| 0 <= i < p.len() && p[i] == y;
            if i < kept.len() {
                assert(kept[i] == y);
            }
        }
    }
    assert forall|i: int, j: int|
        0 <= i < after.order.len() && 0 <= j < after.order.len() && i
            != j implies after.order[i] != after.order[j] by {
        if i < kept.len() && j < kept.len() {
            assert(kept[i] != kept[j]);
        } else if i < kept.len() {
            assert(kept.contains(kept[i]));
        } else {
            assert(kept.contains(kept[j]));
        }
    }
    assert forall|k: u128| after.order.contains(k) <==> #[trigger] after.values.contains_key(k) by {
        assert(s.contains(k) <==> c.values.contains_key(k));
    }
}

pub proof fn lemma_total_pop(c: RecentView<Buffer>)
    requires
        c.sound(),
        c.order.len() > 0,
    ensures
        total(c.after_pop().order, c.after_pop().values) + c.values[c.order[0]]@.len() == total(
            c.order,
            c.values,
        ),
        c.after_pop().sound(),
{
    let t = c.order.skip(1);
    recent::lemma_skip_distinct(c.order);
    lemma_total_same(t, c.values, c.after_pop().values);
    let after = c.after_pop();
    assert forall|k: u128| after.order.contains(k) <==> #[trigger] after.values.contains_key(k) by {
        assert(c.order.contains(k) <==> c.values.contains_key(k));
    }
}

/// What is kept after an insertion was kept before, or is what was inserted.
pub proof fn lemma_inserted_values(
    c: RecentView<Buffer>,
    capacity: nat,
    key: u128,
    value: Buffer,
    k: u128,
)
    requires
        inserted(c, capacity, key, value).values.contains_key(k),
    ensures
        if k == key && value@.len() <= capacity {
            inserted(c, capacity, key, value).values[k] == value
        } else {
            c.values.contains_key(k) && inserted(c, capacity, key, value).values[k] == c.values[k]
        },
{
    if value@.len() <= capacity {
        lemma_trimmed_values(c.after_put(key, value), capacity, k);
    }
}

proof fn lemma_trimmed_values(c: RecentView<Buffer>, capacity: nat, k: u128)
    requires
        trimmed(c, capacity).values.contains_key(k),
    ensures
        c.values.contains_key(k),
        trimmed(c, capacity).values[k] == c.values[k],
    decreases c.order.len(),
{
    if total(c.order, c.values) > capacity && c.order.len() > 0 {
        lemma_trimmed_values(c.after_pop(), capacity, k);
    }
}

/// Buffers in order of use, never more than `capacity` bytes of them.
pub struct ByteLru {
    kept: Recent<Buffer>,
    bytes: usize,
    capacity: usize,
}

impl View for ByteLru {
    type V = RecentView<Buffer>;

    closed spec fn view(&self) -> RecentView<Buffer> {
        self.kept@
    }
}

impl ByteLru {
    /// How many bytes may be kept.
    pub closed spec fn cap(&self) -> nat {
        self.capacity as nat
    }

    /// How many bytes are kept.
    pub closed spec fn used(&self) -> nat {
        self.bytes as nat
    }

    /// The count of bytes is right, and within the capacity.
    pub closed spec fn wf(&self) -> bool {
        &&& self.kept.wf()
        &&& self.bytes == total(self.kept@.order, self.kept@.values)
        &&& self.bytes <= self.capacity
    }

    /// What is well formed is a sound cache, within its capacity.
    pub proof fn lemma_sound(&self)
        requires
            self.wf(),
        ensures
            self@.sound(),
            self.used() == total(self@.order, self@.values),
            self.used() <= self.cap(),
    {
    }

    pub fn new(capacity_bytes: usize) -> (r: ByteLru)
        ensures
            r.wf(),
            r.cap() == capacity_bytes,
            r@ == (RecentView::<Buffer> {
                order: Seq::empty(),
                values: Map::empty(),
                cap: usize::MAX as nat,
            }),
    {
        ByteLru { kept: Recent::unbounded(), bytes: 0, capacity: capacity_bytes }
    }

    /// What is kept under `key`, which becomes the most recently used one.
    pub fn get(&mut self, key: u128) -> (r: Option<Buffer>)
        requires
            old(self).wf(),
        ensures
            final(self).wf(),
            final(self).cap() == old(self).cap(),
            final(self)@ == old(self)@.after_get(key),
            match r {
                Some(v) => old(self)@.values.contains_key(key) && v == old(self)@.values[key],
                None => !old(self)@.values.contains_key(key),
            },
    {
        proof {
            let s = self.kept@.order;
            let values = self.kept@.values;
            lemma_total_without(s, values, key);
            lemma_total_push(recent::without(s, key), values, key);
        }
        match self.kept.get(key) {
            Some(v) => Some(recent::share(v)),
            None => None,
        }
    }

    /// Keep a value. One larger than the whole cache is skipped; to make room
    /// for any other, the least recently used values leave.
    pub fn insert(&mut self, key: u128, value: Buffer)
        requires
            old(self).wf(),
        ensures
            final(self).wf(),
            final(self).cap() == old(self).cap(),
            final(self)@ == inserted(old(self)@, old(self).cap(), key, value),
    {
        let size: usize = value.len();
        if size > self.capacity {
            return;
        }
        proof {
            lemma_total_put(self.kept@, key, value);
        }
        let mut bytes: u128 = self.bytes as u128;
        if let Some(old_value) = self.kept.put(key, value) {
            bytes = bytes - old_value.len() as u128;
        }
        bytes = bytes + size as u128;
        let ghost goal = inserted(old(self)@, old(self).cap(), key, value);
        while bytes > self.capacity as u128
            invariant
                self.kept.wf(),
                self.capacity == old(self).capacity,
                bytes == total(self.kept@.order, self.kept@.values),
                goal == trimmed(self.kept@, self.capacity as nat),
            decreases self.kept@.order.len(),
        {
            proof {
                if self.kept@.order.len() > 0 {
                    lemma_total_pop(self.kept@);
                }
            }
            match self.kept.pop_lru() {
                Some(v) => {
                    bytes = bytes - v.len() as u128;
                },
                None => {},
            }
        }
        self.bytes = bytes as usize;
    }

    /// How many bytes are kept.
    pub fn bytes(&self) -> (r: usize)
        requires
            self.wf(),
        ensures
            r == total(self@.order, self@.values),
            r <= self.cap(),
    {
        self.bytes
    }
}

/// A value that fits is there after it was inserted.
pub proof fn law_inserted_is_kept(c: RecentView<Buffer>, capacity: nat, key: u128, value: Buffer)
    requires
        c.sound(),
        value@.len() <= capacity,
    ensures
        inserted(c, capacity, key, value).values.contains_key(key),
        inserted(c, capacity, key, value).values[key] == value,
        total(
            inserted(c, capacity, key, value).order,
            inserted(c, capacity, key, value).values,
        ) <= capacity,
{
    lemma_total_put(c, key, value);
    let after = c.after_put(key, value);
    assert(after.order.last() == key);
    lemma_trim_keeps_last(after, capacity, key);
}

proof fn lemma_trim_keeps_last(c: RecentView<Buffer>, capacity: nat, key: u128)
    requires
        c.sound(),
        c.order.len() > 0,
        c.order.last() == key,
        c.values[key]@.len() <= capacity,
    ensures
        trimmed(c, capacity).values.contains_key(key),
        trimmed(c, capacity).values[key] == c.values[key],
        total(trimmed(c, capacity).order, trimmed(c, capacity).values) <= capacity,
    decreases c.order.len(),
{
    assert(c.order.contains(key));
    assert(c.values.contains_key(key));
    if total(c.order, c.values) > capacity {
        lemma_total_pop(c);
        if c.order.len() == 1 {
            assert(c.order.skip(1) =~= Seq::<u128>::empty());
            reveal_with_fuel(total, 2);
        } else {
            let after = c.after_pop();
            assert(after.order.last() == key);
            assert(c.order[0] != c.order[c.order.len() - 1]);
            lemma_trim_keeps_last(after, capacity, key);
        }
    }
}

/// A value larger than the whole cache changes nothing.
pub proof fn law_oversized_is_skipped(
    c: RecentView<Buffer>,
    capacity: nat,
    key: u128,
    value: Buffer,
)
    requires
        value@.len() > capacity,
    ensures
        inserted(c, capacity, key, value) == c,
{
}

/// A value leaves only for the least recently used ones to leave before it:
/// what is kept of the old order is its end.
pub proof fn law_least_recent_leaves_first(c: RecentView<Buffer>, capacity: nat)
    requires
        c.sound(),
    ensures
        exists|n: int|
            0 <= n <= c.order.len() && trimmed(c, capacity).order == #[trigger] c.order.skip(n),
    decreases c.order.len(),
{
    if total(c.order, c.values) <= capacity || c.order.len() == 0 {
        assert(c.order.skip(0) =~= c.order);
    } else {
        let after = c.after_pop();
        lemma_total_pop(c);
        law_least_recent_leaves_first(after, capacity);
        let n = choose|n: int|
            0 <= n <= after.order.len() && trimmed(after, capacity).order
                == #[trigger] after.order.skip(n);
        assert(after.order.skip(n) =~= c.order.skip(n + 1));
    }
}

} // verus!
