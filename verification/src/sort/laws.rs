//! How keys are ordered.

use vstd::prelude::*;

use super::{lemma_rank_step, lemma_rank_swaps, rank, Rank};

verus! {

/// One key comes before another as words do in a dictionary: where they first
/// differ the lesser element decides, and a key comes before those that go on from
/// it.
pub proof fn law_keys_are_ordered_as_words(
    front: Seq<int>,
    x: int,
    a: Seq<int>,
    y: int,
    b: Seq<int>,
)
    ensures
        x < y ==> rank(front + seq![x] + a, front + seq![y] + b) == Rank::Less,
        x > y ==> rank(front + seq![x] + a, front + seq![y] + b) == Rank::Greater,
        rank(front, front + seq![y] + b) == Rank::Less,
        rank(front + seq![x] + a, front) == Rank::Greater,
        rank(front, front) == Rank::Same,
    decreases front.len(),
{
    let (p, q) = (front + seq![x] + a, front + seq![y] + b);
    lemma_rank_swaps(front, front);
    if front.len() == 0 {
        assert(p[0] == x && q[0] == y);
    } else {
        let rest = front.skip(1);
        let z = front[0];
        law_keys_are_ordered_as_words(rest, x, a, y, b);
        let (r, s) = (rest + seq![x] + a, rest + seq![y] + b);
        assert(p =~= seq![z] + r);
        assert(q =~= seq![z] + s);
        assert(front =~= seq![z] + rest);
        lemma_rank_step(z, r, s);
        lemma_rank_step(z, rest, s);
        lemma_rank_step(z, r, rest);
    }
}

} // verus!
