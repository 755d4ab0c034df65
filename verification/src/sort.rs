//! Sorting numbers by keys that compare as sequences do: element by element,
//! a prefix before what it begins.

use vstd::prelude::*;

pub mod laws;

verus! {

/// How one key stands to another.
#[derive(Debug, Clone, Copy, PartialEq, Eq, Structural)]
pub enum Rank {
    Less,
    Same,
    Greater,
}

/// How `a` stands to `b`.
pub open spec fn rank(a: Seq<int>, b: Seq<int>) -> Rank
    decreases a.len(),
{
    if a.len() == 0 {
        if b.len() == 0 {
            Rank::Same
        } else {
            Rank::Less
        }
    } else if b.len() == 0 {
        Rank::Greater
    } else if a[0] < b[0] {
        Rank::Less
    } else if a[0] > b[0] {
        Rank::Greater
    } else {
        rank(a.skip(1), b.skip(1))
    }
}

/// Bytes as a key.
pub open spec fn byte_key(b: Seq<u8>) -> Seq<int> {
    b.map_values(|x: u8| x as int)
}

/// Characters as a key.
pub open spec fn char_key(s: Seq<char>) -> Seq<int> {
    s.map_values(|c: char| c as int)
}

/// Only equal keys stand the same, and swapping the sides swaps the answer.
pub proof fn lemma_rank_swaps(a: Seq<int>, b: Seq<int>)
    ensures
        rank(a, b) == Rank::Same <==> a == b,
        rank(a, b) == Rank::Less <==> rank(b, a) == Rank::Greater,
        rank(a, b) == Rank::Greater <==> rank(b, a) == Rank::Less,
    decreases a.len(),
{
    if a.len() > 0 && b.len() > 0 {
        lemma_rank_swaps(a.skip(1), b.skip(1));
        if a[0] == b[0] {
            assert(a =~= seq![a[0]] + a.skip(1));
            assert(b =~= seq![b[0]] + b.skip(1));
            if a.skip(1) == b.skip(1) {
                assert(a == b);
            }
        }
    } else {
        assert(a.len() == 0 && b.len() == 0 ==> a =~= b);
    }
}

/// `Less` is transitive.
pub proof fn lemma_rank_chains(a: Seq<int>, b: Seq<int>, c: Seq<int>)
    requires
        rank(a, b) == Rank::Less,
        rank(b, c) == Rank::Less,
    ensures
        rank(a, c) == Rank::Less,
    decreases a.len(),
{
    if a.len() > 0 && a[0] == b[0] && b[0] == c[0] {
        lemma_rank_chains(a.skip(1), b.skip(1), c.skip(1));
    }
}

/// A common first element does not count.
pub proof fn lemma_rank_step(x: int, a: Seq<int>, b: Seq<int>)
    ensures
        rank(seq![x] + a, seq![x] + b) == rank(a, b),
{
    assert((seq![x] + a).skip(1) =~= a);
    assert((seq![x] + b).skip(1) =~= b);
}

/// Compare two byte strings.
pub fn compare_bytes(a: &[u8], b: &[u8]) -> (r: Rank)
    ensures
        r == rank(byte_key(a@), byte_key(b@)),
{
    let ghost x = byte_key(a@);
    let ghost y = byte_key(b@);
    let mut i: usize = 0;
    assert(x.skip(0) =~= x);
    assert(y.skip(0) =~= y);
    while i < a.len() && i < b.len()
        invariant
            i <= a@.len(),
            i <= b@.len(),
            x == byte_key(a@),
            y == byte_key(b@),
            rank(x, y) == rank(x.skip(i as int), y.skip(i as int)),
        decreases a@.len() - i,
    {
        assert(x.skip(i as int)[0] == a@[i as int] as int);
        assert(y.skip(i as int)[0] == b@[i as int] as int);
        if a[i] < b[i] {
            return Rank::Less;
        }
        if a[i] > b[i] {
            return Rank::Greater;
        }
        assert(x.skip(i as int).skip(1) =~= x.skip(i + 1));
        assert(y.skip(i as int).skip(1) =~= y.skip(i + 1));
        i += 1;
    }
    if i < b.len() {
        Rank::Less
    } else if i < a.len() {
        Rank::Greater
    } else {
        Rank::Same
    }
}

/// Compare two runs of characters.
pub fn compare_chars(a: &[char], b: &[char]) -> (r: Rank)
    ensures
        r == rank(char_key(a@), char_key(b@)),
{
    let ghost x = char_key(a@);
    let ghost y = char_key(b@);
    let mut i: usize = 0;
    assert(x.skip(0) =~= x);
    assert(y.skip(0) =~= y);
    while i < a.len() && i < b.len()
        invariant
            i <= a@.len(),
            i <= b@.len(),
            x == char_key(a@),
            y == char_key(b@),
            rank(x, y) == rank(x.skip(i as int), y.skip(i as int)),
        decreases a@.len() - i,
    {
        assert(x.skip(i as int)[0] == a@[i as int] as int);
        assert(y.skip(i as int)[0] == b@[i as int] as int);
        if a[i] < b[i] {
            return Rank::Less;
        }
        if a[i] > b[i] {
            return Rank::Greater;
        }
        assert(x.skip(i as int).skip(1) =~= x.skip(i + 1));
        assert(y.skip(i as int).skip(1) =~= y.skip(i + 1));
        i += 1;
    }
    if i < b.len() {
        Rank::Less
    } else if i < a.len() {
        Rank::Greater
    } else {
        Rank::Same
    }
}

/// Numbers with a key each.
pub trait Keyed {
    /// Whether `i` has a key.
    spec fn has(&self, i: u32) -> bool;

    /// The key of `i`.
    spec fn key(&self, i: u32) -> Seq<int>;

    /// Compare the keys of two numbers.
    fn compare(&self, a: u32, b: u32) -> (r: Rank)
        requires
            self.has(a),
            self.has(b),
        ensures
            r == rank(self.key(a), self.key(b)),
    ;
}

/// `a` comes before `b`: by key, and by number where the keys are the same.
pub open spec fn precedes<K: Keyed>(k: &K, a: u32, b: u32) -> bool {
    match rank(k.key(a), k.key(b)) {
        Rank::Less => true,
        Rank::Same => a < b,
        Rank::Greater => false,
    }
}

/// Every number comes before those behind it.
pub open spec fn in_order<K: Keyed>(k: &K, s: Seq<u32>) -> bool {
    forall|i: int, j: int| 0 <= i < j < s.len() ==> precedes(k, #[trigger] s[i], #[trigger] s[j])
}

pub open spec fn all_keyed<K: Keyed>(k: &K, s: Seq<u32>) -> bool {
    forall|i: int| 0 <= i < s.len() ==> k.has(#[trigger] s[i])
}

/// Of two different numbers exactly one comes before the other.
pub proof fn lemma_precedes_total<K: Keyed>(k: &K, a: u32, b: u32)
    ensures
        precedes(k, a, b) ==> !precedes(k, b, a),
        a != b ==> precedes(k, a, b) || precedes(k, b, a),
        !precedes(k, a, a),
{
    lemma_rank_swaps(k.key(a), k.key(b));
    lemma_rank_swaps(k.key(a), k.key(a));
}

pub proof fn lemma_precedes_chains<K: Keyed>(k: &K, a: u32, b: u32, c: u32)
    requires
        precedes(k, a, b),
        precedes(k, b, c),
    ensures
        precedes(k, a, c),
{
    lemma_rank_swaps(k.key(a), k.key(b));
    lemma_rank_swaps(k.key(b), k.key(c));
    if rank(k.key(a), k.key(b)) == Rank::Less && rank(k.key(b), k.key(c)) == Rank::Less {
        lemma_rank_chains(k.key(a), k.key(b), k.key(c));
    }
}

fn comes_first<K: Keyed>(k: &K, a: u32, b: u32) -> (r: bool)
    requires
        k.has(a),
        k.has(b),
    ensures
        r == precedes(k, a, b),
{
    match k.compare(a, b) {
        Rank::Less => true,
        Rank::Same => a < b,
        Rank::Greater => false,
    }
}

/// Whether every number of `s` comes before every one of `t` from `from` on.
spec fn all_before<K: Keyed>(k: &K, s: Seq<u32>, t: Seq<u32>, from: int) -> bool {
    forall|i: int, j: int|
        0 <= i < s.len() && from <= j < t.len() ==> precedes(k, #[trigger] s[i], #[trigger] t[j])
}

spec fn apart(a: Seq<u32>, b: Seq<u32>) -> bool {
    forall|i: int, j: int| 0 <= i < a.len() && 0 <= j < b.len() ==> #[trigger] a[i] != #[trigger] b[j]
}

/// What holds while `a` and `b` are merged into `out` and `i` and `j` of them
/// have been taken.
spec fn merging<K: Keyed>(k: &K, a: Seq<u32>, b: Seq<u32>, i: int, j: int, out: Seq<u32>) -> bool {
    &&& 0 <= i <= a.len()
    &&& 0 <= j <= b.len()
    &&& out.len() == i + j
    &&& in_order(k, a)
    &&& in_order(k, b)
    &&& in_order(k, out)
    &&& all_keyed(k, a)
    &&& all_keyed(k, b)
    &&& apart(a, b)
    &&& all_before(k, out, a, i)
    &&& all_before(k, out, b, j)
    &&& forall|x: u32| out.contains(x) <==> a.take(i).contains(x) || b.take(j).contains(x)
}

proof fn lemma_take_contains(s: Seq<u32>, i: int, x: u32)
    requires
        0 <= i < s.len(),
    ensures
        s.take(i + 1).contains(x) <==> s.take(i).contains(x) || s[i] == x,
{
    let t = s.take(i);
    let u = s.take(i + 1);
    if u.contains(x) {
        let n = choose|n: int| 0 <= n < u.len() && u[n] == x;
        if n < i {
            assert(t[n] == x);
        }
    }
    if t.contains(x) {
        let n = choose|n: int| 0 <= n < t.len() && t[n] == x;
        assert(u[n] == x);
    }
    assert(u[i] == s[i]);
}

/// Taking the next number of `a` keeps `merging`, when it comes before the
/// next one of `b`.
proof fn lemma_take_left<K: Keyed>(
    k: &K,
    a: Seq<u32>,
    b: Seq<u32>,
    i: int,
    j: int,
    out: Seq<u32>,
)
    requires
        merging(k, a, b, i, j, out),
        i < a.len(),
        j < b.len() ==> precedes(k, a[i], b[j]),
    ensures
        merging(k, a, b, i + 1, j, out.push(a[i])),
{
    let o = out.push(a[i]);
    assert forall|m: int, n: int| 0 <= m < o.len() && j <= n < b.len() implies precedes(
        k,
        #[trigger] o[m],
        #[trigger] b[n],
    ) by {
        if m == out.len() {
            if n > j {
                lemma_precedes_chains(k, a[i], b[j], b[n]);
            }
        }
    }
    assert forall|x: u32| o.contains(x) <==> a.take(i + 1).contains(x) || b.take(j).contains(x) by {
        lemma_take_contains(a, i, x);
        if out.contains(x) {
            let n = choose|n: int| 0 <= n < out.len() && out[n] == x;
            assert(o[n] == x);
        }
        if o.contains(x) {
            let n = choose|n: int| 0 <= n < o.len() && o[n] == x;
            if n < out.len() {
                assert(out[n] == x);
            }
        }
        assert(o[out.len() as int] == a[i]);
    }
}

proof fn lemma_take_right<K: Keyed>(
    k: &K,
    a: Seq<u32>,
    b: Seq<u32>,
    i: int,
    j: int,
    out: Seq<u32>,
)
    requires
        merging(k, a, b, i, j, out),
        j < b.len(),
        i < a.len() ==> precedes(k, b[j], a[i]),
    ensures
        merging(k, a, b, i, j + 1, out.push(b[j])),
{
    assert(merging(k, b, a, j, i, out));
    lemma_take_left(k, b, a, j, i, out);
}

fn merge<K: Keyed>(k: &K, a: &Vec<u32>, b: &Vec<u32>) -> (out: Vec<u32>)
    requires
        in_order(k, a@),
        in_order(k, b@),
        all_keyed(k, a@),
        all_keyed(k, b@),
        apart(a@, b@),
    ensures
        in_order(k, out@),
        out@.len() == a@.len() + b@.len(),
        forall|x: u32| out@.contains(x) <==> a@.contains(x) || b@.contains(x),
{
    let mut out: Vec<u32> = Vec::new();
    let mut i: usize = 0;
    let mut j: usize = 0;
    while i < a.len() || j < b.len()
        invariant
            merging(k, a@, b@, i as int, j as int, out@),
        decreases a@.len() - i + b@.len() - j,
    {
        let left: bool = if j >= b.len() {
            true
        } else if i >= a.len() {
            false
        } else {
            comes_first(k, a[i], b[j])
        };
        proof {
            if i < a@.len() && j < b@.len() {
                lemma_precedes_total(k, a@[i as int], b@[j as int]);
            }
        }
        if left {
            proof {
                lemma_take_left(k, a@, b@, i as int, j as int, out@);
            }
            out.push(a[i]);
            i += 1;
        } else {
            proof {
                lemma_take_right(k, a@, b@, i as int, j as int, out@);
            }
            out.push(b[j]);
            j += 1;
        }
    }
    assert(a@.take(a@.len() as int) =~= a@);
    assert(b@.take(b@.len() as int) =~= b@);
    out
}

fn sort_range<K: Keyed>(k: &K, v: &Vec<u32>, lo: usize, hi: usize) -> (out: Vec<u32>)
    requires
        lo <= hi <= v@.len(),
        all_keyed(k, v@),
        v@.no_duplicates(),
    ensures
        in_order(k, out@),
        out@.len() == hi - lo,
        forall|x: u32| out@.contains(x) <==> v@.subrange(lo as int, hi as int).contains(x),
    decreases hi - lo,
{
    if hi - lo <= 1 {
        let mut out: Vec<u32> = Vec::new();
        if lo < hi {
            out.push(v[lo]);
        }
        assert(out@ =~= v@.subrange(lo as int, hi as int));
        return out;
    }
    let mid: usize = lo + (hi - lo) / 2;
    let a = sort_range(k, v, lo, mid);
    let b = sort_range(k, v, mid, hi);
    proof {
        let whole = v@.subrange(lo as int, hi as int);
        let x = v@.subrange(lo as int, mid as int);
        let y = v@.subrange(mid as int, hi as int);
        assert forall|i: int, j: int| 0 <= i < a@.len() && 0 <= j < b@.len() implies #[trigger] a@[i]
            != #[trigger] b@[j] by {
            assert(a@.contains(a@[i]));
            assert(b@.contains(b@[j]));
            let p = choose|p: int| 0 <= p < x.len() && x[p] == a@[i];
            let q = choose|q: int| 0 <= q < y.len() && y[q] == b@[j];
            assert(v@[lo + p] == a@[i]);
            assert(v@[mid + q] == b@[j]);
        }
        assert forall|i: int| 0 <= i < a@.len() implies k.has(#[trigger] a@[i]) by {
            assert(a@.contains(a@[i]));
            let p = choose|p: int| 0 <= p < x.len() && x[p] == a@[i];
            assert(v@[lo + p] == a@[i]);
        }
        assert forall|i: int| 0 <= i < b@.len() implies k.has(#[trigger] b@[i]) by {
            assert(b@.contains(b@[i]));
            let p = choose|p: int| 0 <= p < y.len() && y[p] == b@[i];
            assert(v@[mid + p] == b@[i]);
        }
        assert forall|n: u32| whole.contains(n) <==> x.contains(n) || y.contains(n) by {
            if whole.contains(n) {
                let p = choose|p: int| 0 <= p < whole.len() && whole[p] == n;
                if p < mid - lo {
                    assert(x[p] == n);
                } else {
                    assert(y[p - (mid - lo)] == n);
                }
            }
            if x.contains(n) {
                let p = choose|p: int| 0 <= p < x.len() && x[p] == n;
                assert(whole[p] == n);
            }
            if y.contains(n) {
                let p = choose|p: int| 0 <= p < y.len() && y[p] == n;
                assert(whole[p + (mid - lo)] == n);
            }
        }
    }
    merge(k, &a, &b)
}

/// The numbers of `v`, in order.
pub fn sorted<K: Keyed>(k: &K, v: &Vec<u32>) -> (out: Vec<u32>)
    requires
        all_keyed(k, v@),
        v@.no_duplicates(),
    ensures
        in_order(k, out@),
        out@.len() == v@.len(),
        forall|x: u32| out@.contains(x) <==> v@.contains(x),
{
    let out = sort_range(k, v, 0, v.len());
    assert(v@.subrange(0, v@.len() as int) =~= v@);
    out
}

} // verus!
