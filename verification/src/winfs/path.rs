//! Paths as Windows spells them.

use vstd::prelude::*;

use crate::text;

verus! {

/// A character, with the case of ASCII letters taken away.
pub open spec fn folded(c: char) -> int {
    if 'A' <= c <= 'Z' {
        c as int + 32
    } else {
        c as int
    }
}

/// Two texts differ at most in the case of ASCII letters.
pub open spec fn folds_alike(a: Seq<char>, b: Seq<char>) -> bool {
    a.len() == b.len() && forall|i: int| 0 <= i < a.len() ==> #[trigger] folded(a[i]) == folded(b[i])
}

/// A text folds like itself, and folding is mutual and carries over.
pub proof fn law_folding_is_equivalence(a: Seq<char>, b: Seq<char>, c: Seq<char>)
    ensures
        folds_alike(a, a),
        folds_alike(a, b) ==> folds_alike(b, a),
        folds_alike(a, b) && folds_alike(b, c) ==> folds_alike(a, c),
{
    if folds_alike(a, b) {
        assert forall|i: int| 0 <= i < b.len() implies #[trigger] folded(b[i]) == folded(a[i]) by {
            assert(folded(a[i]) == folded(b[i]));
        }
        if folds_alike(b, c) {
            assert forall|i: int| 0 <= i < a.len() implies #[trigger] folded(a[i]) == folded(
                c[i],
            ) by {
                assert(folded(b[i]) == folded(c[i]));
            }
        }
    }
}

fn fold(c: char) -> (r: u32)
    ensures
        r == folded(c),
{
    if c >= 'A' && c <= 'Z' {
        c as u32 + 32
    } else {
        c as u32
    }
}

/// Whether two texts differ at most in the case of ASCII letters.
pub fn same_folded(a: &str, b: &str) -> (r: bool)
    ensures
        r == folds_alike(a@, b@),
{
    let x = text::chars_of(a);
    let y = text::chars_of(b);
    if x.len() != y.len() {
        return false;
    }
    let mut i: usize = 0;
    while i < x.len()
        invariant
            i <= x@.len(),
            x@.len() == y@.len(),
            x@ == a@,
            y@ == b@,
            forall|k: int| 0 <= k < i ==> #[trigger] folded(x@[k]) == folded(y@[k]),
        decreases x@.len() - i,
    {
        if fold(x[i]) != fold(y[i]) {
            assert(folded(a@[i as int]) != folded(b@[i as int]));
            return false;
        }
        i += 1;
    }
    true
}

pub open spec fn texts(v: Seq<String>) -> Seq<Seq<char>> {
    v.map_values(|s: String| s@)
}

/// One name, unless it is empty.
pub open spec fn one(name: Seq<char>) -> Seq<Seq<char>> {
    if name.len() == 0 {
        Seq::empty()
    } else {
        seq![name]
    }
}

/// The names between the backslashes of a path; empty ones do not count.
pub open spec fn components(p: Seq<char>) -> Seq<Seq<char>>
    decreases p.len(),
{
    match text::split_once(p, '\\') {
        None => one(p),
        Some((head, tail)) => if tail.len() < p.len() {
            one(head) + components(tail)
        } else {
            Seq::empty()
        },
    }
}

/// The names between the backslashes of a path; empty ones do not count.
pub fn split(p: &str) -> (r: Vec<String>)
    ensures
        texts(r@) == components(p@),
{
    let chars = text::chars_of(p);
    let mut out: Vec<String> = Vec::new();
    let mut rest: &[char] = chars.as_slice();
    assert(texts(out@) + components(rest@) =~= components(p@));
    loop
        invariant
            texts(out@) + components(rest@) == components(p@),
        decreases rest@.len(),
    {
        match text::split_once_at(rest, '\\') {
            None => {
                put(&mut out, rest);
                return out;
            },
            Some((head, tail)) => {
                let ghost before = texts(out@);
                proof {
                    text::lemma_find(rest@, '\\');
                    assert(tail@.len() < rest@.len());
                    assert(before + (one(head@) + components(tail@)) =~= (before + one(head@))
                        + components(tail@));
                }
                put(&mut out, head);
                rest = tail;
            },
        }
    }
}

fn put(out: &mut Vec<String>, name: &[char])
    ensures
        texts(final(out)@) == texts(old(out)@) + one(name@),
{
    if name.len() > 0 {
        let s = text::string_of(name);
        let ghost shown = s@;
        out.push(s);
        assert(texts(out@) =~= texts(old(out)@).push(shown));
        assert(texts(out@) =~= texts(old(out)@) + one(name@));
    } else {
        assert(texts(out@) =~= texts(old(out)@) + one(name@));
    }
}

} // verus!
