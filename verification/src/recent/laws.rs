//! What is kept, and what leaves.

use vstd::prelude::*;

use super::{lemma_without, without, RecentView};

verus! {

/// The others, in their order.
pub open spec fn all_but(s: Seq<u128>, x: u128) -> Seq<u128> {
    s.filter(|y: u128| y != x)
}

proof fn lemma_rest(s: Seq<u128>, x: u128)
    ensures
        without(s, x) == all_but(s, x),
    decreases s.len(),
{
    reveal(Seq::filter);
    if s.len() > 0 {
        lemma_rest(s.drop_last(), x);
    }
}

/// What is asked for becomes the most recently used, and the others stay as they
/// are, in their order; what is not there changes nothing.
pub proof fn law_asking_moves_to_the_end<V>(c: RecentView<V>, key: u128)
    requires
        c.sound(),
    ensures
        c.after_get(key).values == c.values,
        c.after_get(key).cap == c.cap,
        c.values.contains_key(key) ==> c.after_get(key).order == all_but(
            c.order,
            key,
        ).push(key),
        !c.values.contains_key(key) ==> c.after_get(key) == c,
{
    lemma_rest(c.order, key);
    assert(c.order.contains(key) <==> c.values.contains_key(key));
}

/// What is put in is there, and is the most recently used; no other value changes;
/// and none leaves but the least recently used one, where the new one was not there
/// and there is no room.
pub proof fn law_putting_in<V>(c: RecentView<V>, key: u128, value: V, other: u128)
    requires
        c.sound(),
        other != key,
    ensures
        ({
            let after = c.after_put(key, value);
            let full = !c.values.contains_key(key) && c.order.len() >= c.cap && c.order.len() > 0;
            &&& after.values.contains_key(key) && after.values[key] == value
            &&& after.order.len() > 0 && after.order.last() == key
            &&& after.cap == c.cap
            &&& after.values.contains_key(other) <==> c.values.contains_key(other) && !(full
                && other == c.order[0])
            &&& after.values.contains_key(other) ==> after.values[other] == c.values[other]
            &&& after.order.drop_last() == if full {
                c.order.skip(1)
            } else {
                all_but(c.order, key)
            }
            &&& c.order.len() <= c.cap && c.cap > 0 ==> after.order.len() <= c.cap
        }),
{
    lemma_rest(c.order, key);
    lemma_without(c.order, key);
    let after = c.after_put(key, value);
    let full = !c.values.contains_key(key) && c.order.len() >= c.cap && c.order.len() > 0;
    if full {
        assert(after.order.drop_last() =~= c.order.skip(1));
    } else {
        assert(after.order.drop_last() =~= without(c.order, key));
    }
    assert(c.order.contains(key) <==> c.values.contains_key(key));
    assert(c.order.contains(other) <==> c.values.contains_key(other));
    if full {
        assert(c.order.contains(c.order[0]));
    }
}

/// What leaves is the least recently used, and only that.
pub proof fn law_the_oldest_leaves<V>(c: RecentView<V>, other: u128)
    requires
        c.sound(),
        c.order.len() > 0,
    ensures
        !c.after_pop().values.contains_key(c.order[0]),
        c.after_pop().order == c.order.skip(1),
        other != c.order[0] ==> (c.after_pop().values.contains_key(other)
            <==> c.values.contains_key(other)) && (c.values.contains_key(other)
            ==> c.after_pop().values[other] == c.values[other]),
{
}

} // verus!
