//! Inode numbers: each key that is asked for gets the next one, and keeps it.

use std::collections::HashMap;
use vstd::prelude::*;

use crate::tree::Key;

verus! {

broadcast use vstd::std_specs::hash::group_hash_axioms;

/// A key as a number.
pub open spec fn packed(key: Key) -> int {
    let (tag, a, b): (int, int, int) = match key {
        Key::Root => (0, 0, 0),
        Key::Depot(d) => (1, d as int, 0),
        Key::Latest(d) => (2, d as int, 0),
        Key::ByDate(d) => (3, d as int, 0),
        Key::DateLink(b) => (4, b.0 as int, 0),
        Key::Version(b) => (5, b.0 as int, 0),
        Key::Node(b, i) => (6, b.0 as int, i as int),
    };
    tag * 0x1_0000_0000_0000_0000 + a * 0x1_0000_0000 + b
}

proof fn lemma_packed_apart(a: Key, b: Key)
    ensures
        packed(a) == packed(b) <==> a == b,
        0 <= packed(a) <= u128::MAX,
{
}

fn pack(key: Key) -> (r: u128)
    ensures
        r == packed(key),
{
    let (tag, a, b): (u8, u32, u32) = match key {
        Key::Root => (0, 0, 0),
        Key::Depot(d) => (1, d, 0),
        Key::Latest(d) => (2, d, 0),
        Key::ByDate(d) => (3, d, 0),
        Key::DateLink(b) => (4, b.0, 0),
        Key::Version(b) => (5, b.0, 0),
        Key::Node(b, i) => (6, b.0, i),
    };
    tag as u128 * 0x1_0000_0000_0000_0000 + a as u128 * 0x1_0000_0000 + b as u128
}

/// The place of a key among some.
pub open spec fn place(keys: Seq<Key>, key: Key) -> int {
    choose|i: int| 0 <= i < keys.len() && keys[i] == key
}

/// The number of a key: the numbers begin at 1, and 0 is for a key that has
/// none.
pub open spec fn number(keys: Seq<Key>, key: Key) -> u64 {
    if keys.contains(key) {
        (place(keys, key) + 1) as u64
    } else {
        0
    }
}

/// The key with a number.
pub open spec fn key_at(keys: Seq<Key>, ino: u64) -> Option<Key> {
    if 1 <= ino <= keys.len() {
        Some(keys[ino - 1])
    } else {
        None
    }
}

/// The keys after one more has been asked for.
pub open spec fn after(keys: Seq<Key>, key: Key) -> Seq<Key> {
    if keys.contains(key) || keys.len() == usize::MAX {
        keys
    } else {
        keys.push(key)
    }
}

/// A key that is asked for has a number as long as there is one to give, the
/// number leads back to it, and every number that was given out before stays.
pub proof fn law_inodes(keys: Seq<Key>, key: Key)
    requires
        keys.no_duplicates(),
        keys.len() < usize::MAX,
    ensures
        after(keys, key).no_duplicates(),
        key_at(after(keys, key), number(after(keys, key), key)) == Some(key),
        forall|ino: u64|
            #![trigger key_at(keys, ino)]
            key_at(keys, ino) is Some ==> key_at(after(keys, key), ino) == key_at(keys, ino),
        forall|k: Key|
            #![trigger number(keys, k)]
            keys.contains(k) ==> number(after(keys, key), k) == number(keys, k),
{
    let n = after(keys, key);
    lemma_after(keys, key);
    if !keys.contains(key) {
        assert(n[keys.len() as int] == key);
    }
    assert(n.contains(key));
    assert forall|k: Key| #![trigger number(keys, k)] keys.contains(k) implies number(n, k)
        == number(keys, k) by {
        let i = place(keys, k);
        assert(n[i] == k);
        assert(n.contains(k));
        let j = place(n, k);
        assert(n[j] == n[i]);
    }
}

/// Two keys that have a number have the same number only if they are the same.
pub proof fn law_inodes_are_distinct(keys: Seq<Key>, a: Key, b: Key)
    requires
        keys.contains(a),
        keys.contains(b),
        keys.len() <= usize::MAX,
        number(keys, a) == number(keys, b),
    ensures
        a == b,
{
}

pub proof fn lemma_after(keys: Seq<Key>, key: Key)
    ensures
        keys.no_duplicates() ==> after(keys, key).no_duplicates(),
        after(keys, key).len() >= keys.len(),
        forall|i: int| 0 <= i < keys.len() ==> after(keys, key)[i] == keys[i],
        forall|i: int|
            keys.len() <= i < after(keys, key).len() ==> #[trigger] after(keys, key)[i] == key,
{
    if keys.no_duplicates() && !keys.contains(key) {
        let n = after(keys, key);
        assert forall|i: int, j: int| 0 <= i < n.len() && 0 <= j < n.len() && i != j implies n[i]
            != n[j] by {
            if i < keys.len() {
                assert(keys.contains(keys[i]));
            }
            if j < keys.len() {
                assert(keys.contains(keys[j]));
            }
        }
    }
}

/// Asking again changes nothing.
pub proof fn lemma_after_again(keys: Seq<Key>, key: Key)
    ensures
        after(after(keys, key), key) == after(keys, key),
{
    let n = after(keys, key);
    if !keys.contains(key) && keys.len() != usize::MAX {
        assert(n[keys.len() as int] == key);
        assert(n.contains(key));
    }
}

/// The keys that have an inode.
pub struct Inodes {
    by_key: HashMap<u128, u64>,
    keys: Vec<Key>,
}

impl View for Inodes {
    type V = Seq<Key>;

    closed spec fn view(&self) -> Seq<Key> {
        self.keys@
    }
}

impl Inodes {
    spec fn kept(&self, key: Key) -> bool {
        let n = packed(key) as u128;
        if self.keys@.contains(key) {
            self.by_key@.contains_key(n) && self.by_key@[n] == number(self.keys@, key)
        } else {
            !self.by_key@.contains_key(n)
        }
    }

    /// No key has two numbers, and `by_key` holds them.
    pub closed spec fn wf(&self) -> bool {
        &&& self.keys@.no_duplicates()
        &&& forall|key: Key| #[trigger] self.kept(key)
    }

    /// The key with a number has that number.
    pub proof fn lemma_number(&self, ino: u64)
        requires
            self.wf(),
            key_at(self@, ino) is Some,
        ensures
            after(self@, key_at(self@, ino)->0) == self@,
            number(self@, key_at(self@, ino)->0) == ino,
    {
        let key = self@[ino - 1];
        assert(self@.contains(key));
        let i = place(self@, key);
        assert(self@[i] == self@[ino - 1]);
    }

    pub fn new() -> (r: Inodes)
        ensures
            r.wf(),
            r@ == Seq::<Key>::empty(),
    {
        Inodes { by_key: HashMap::new(), keys: Vec::new() }
    }

    /// The number of a key, which gets one if it has none.
    pub fn intern(&mut self, key: Key) -> (r: u64)
        requires
            old(self).wf(),
        ensures
            final(self).wf(),
            final(self)@ == after(old(self)@, key),
            r == number(final(self)@, key),
    {
        let n: u128 = pack(key);
        let ghost before = self.keys@;
        assert(self.kept(key));
        match self.by_key.get(&n) {
            Some(ino) => {
                return *ino;
            },
            None => {},
        }
        if self.keys.len() == usize::MAX {
            return 0;
        }
        let ino: u64 = (self.keys.len() + 1) as u64;
        self.keys.push(key);
        let _ = self.by_key.insert(n, ino);
        proof {
            lemma_after(before, key);
            assert(self.keys@ == after(before, key));
            assert(self.keys@[before.len() as int] == key);
            assert(self.keys@.contains(key));
            let j = place(self.keys@, key);
            assert(self.keys@[j] == self.keys@[before.len() as int]);
            assert forall|k: Key| #[trigger] self.kept(k) by {
                assert(old(self).kept(k));
                lemma_packed_apart(k, key);
                law_inodes(before, key);
                if k != key {
                    if before.contains(k) {
                        assert(number(before, k) == number(self.keys@, k));
                        let i = place(before, k);
                        assert(self.keys@[i] == k);
                    } else if self.keys@.contains(k) {
                        let i = choose|i: int| 0 <= i < self.keys@.len() && self.keys@[i] == k;
                        assert(before[i] == k);
                    }
                }
            }
        }
        ino
    }

    /// The key with a number.
    pub fn key(&self, ino: u64) -> (r: Option<Key>)
        ensures
            r == key_at(self@, ino),
    {
        if ino >= 1 && ino <= self.keys.len() as u64 {
            Some(self.keys[(ino - 1) as usize])
        } else {
            None
        }
    }
}

} // verus!
