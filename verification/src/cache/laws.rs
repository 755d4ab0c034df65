//! How much is kept.

use vstd::prelude::*;

use super::{lemma_total_pop, total, trimmed, Buffer};
use crate::recent::RecentView;

verus! {

/// The lengths of the values under some keys.
pub open spec fn lengths(order: Seq<u128>, values: Map<u128, Buffer>) -> Seq<nat> {
    order.map_values(|k: u128| values[k]@.len())
}

/// The sum of some numbers.
pub open spec fn sum(s: Seq<nat>) -> nat
    decreases s.len(),
{
    if s.len() == 0 {
        0
    } else {
        s[0] + sum(s.skip(1))
    }
}

/// What a cache holds is the lengths of all its values together.
pub proof fn law_all_values_count(order: Seq<u128>, values: Map<u128, Buffer>)
    ensures
        total(order, values) == sum(lengths(order, values)),
    decreases order.len(),
{
    if order.len() > 0 {
        law_all_values_count(order.skip(1), values);
        assert(lengths(order, values).skip(1) =~= lengths(order.skip(1), values));
    }
}

/// As few leave as have to: with the last one that left there would still be too
/// much, and what is left fits.
pub proof fn law_no_more_leave_than_have_to(c: RecentView<Buffer>, capacity: nat) -> (n: int)
    requires
        c.sound(),
    ensures
        0 <= n <= c.order.len(),
        trimmed(c, capacity).order == c.order.skip(n),
        n > 0 ==> sum(lengths(c.order.skip(n - 1), c.values)) > capacity,
        sum(lengths(c.order.skip(n), c.values)) <= capacity,
        forall|k: int|
            n <= k < c.order.len() ==> trimmed(c, capacity).values.contains_key(
                #[trigger] c.order[k],
            ) && trimmed(c, capacity).values[c.order[k]] == c.values[c.order[k]],
    decreases c.order.len(),
{
    law_all_values_count(c.order, c.values);
    if total(c.order, c.values) <= capacity || c.order.len() == 0 {
        assert(c.order.skip(0) =~= c.order);
        assert forall|k: int| 0 <= k < c.order.len() implies c.values.contains_key(
            #[trigger] c.order[k],
        ) by {
            assert(c.order.contains(c.order[k]));
        }
        0
    } else {
        let after = c.after_pop();
        lemma_total_pop(c);
        let n = law_no_more_leave_than_have_to(after, capacity);
        assert(after.order.skip(n) =~= c.order.skip(n + 1));
        assert(lengths(after.order.skip(n), after.values) =~= lengths(
            c.order.skip(n + 1),
            c.values,
        ));
        if n > 0 {
            assert(after.order.skip(n - 1) =~= c.order.skip(n));
            assert(lengths(after.order.skip(n - 1), after.values) =~= lengths(
                c.order.skip(n),
                c.values,
            ));
        } else {
            assert(c.order.skip(0) =~= c.order);
        }
        assert forall|k: int| n + 1 <= k < c.order.len() implies trimmed(
            c,
            capacity,
        ).values.contains_key(#[trigger] c.order[k]) && trimmed(c, capacity).values[c.order[k]]
            == c.values[c.order[k]] by {
            assert(after.order[k - 1] == c.order[k]);
            assert(trimmed(after, capacity).values.contains_key(after.order[k - 1]));
        }
        n + 1
    }
}

} // verus!
