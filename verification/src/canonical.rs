//! The canonical order of a device's mappings: ascending target start, with
//! mappings that start at the same pixel kept in the order they were given.

use crate::settings::LedMapping;
use vstd::prelude::*;

verus! {

/// Whether the mapping at position `a` of `input` is placed before the one at
/// position `b`: it starts earlier on the target, or starts at the same pixel
/// and was given earlier.
pub open spec fn comes_before(input: Seq<LedMapping>, a: int, b: int) -> bool {
    input[a].target_start < input[b].target_start || (input[a].target_start
        == input[b].target_start && a < b)
}

/// `order[i]` is the position in `input` of the mapping that stands at place
/// `i` of the canonical order.
pub open spec fn is_canonical_order(order: Seq<int>, input: Seq<LedMapping>) -> bool {
    &&& order.len() == input.len()
    &&& forall|i: int| 0 <= i < order.len() ==> 0 <= #[trigger] order[i] < input.len()
    &&& forall|i: int, j: int|
        0 <= i < j < order.len() ==> comes_before(input, #[trigger] order[i], #[trigger] order[j])
}

/// `places[a]` is the place that position `a` takes in `order`, and back.
pub open spec fn is_inverse(places: Seq<int>, order: Seq<int>) -> bool {
    &&& places.len() == order.len()
    &&& forall|a: int|
        0 <= a < places.len() ==> 0 <= #[trigger] places[a] < order.len() && order[places[a]] == a
    &&& forall|i: int|
        0 <= i < order.len() ==> 0 <= #[trigger] order[i] < places.len() && places[order[i]] == i
}

/// The mappings of `input` taken in the given order.
pub open spec fn arranged(input: Seq<LedMapping>, order: Seq<int>) -> Seq<LedMapping> {
    Seq::new(order.len(), |i: int| input[order[i]])
}

/// `sorted` holds exactly the mappings of `input`, by ascending target start,
/// equal starts in the order of `input`.
pub open spec fn is_sorted_form_of(sorted: Seq<LedMapping>, input: Seq<LedMapping>) -> bool {
    exists|order: Seq<int>, places: Seq<int>|
        is_canonical_order(order, input) && is_inverse(places, order) && sorted == arranged(
            input,
            order,
        )
}

/// Two canonical orders of the same mappings agree up to place `upto`.
proof fn lemma_orders_agree(
    input: Seq<LedMapping>,
    first: Seq<int>,
    first_places: Seq<int>,
    second: Seq<int>,
    second_places: Seq<int>,
    upto: int,
)
    requires
        is_canonical_order(first, input),
        is_inverse(first_places, first),
        is_canonical_order(second, input),
        is_inverse(second_places, second),
        0 <= upto <= input.len(),
    ensures
        forall|i: int| 0 <= i < upto ==> first[i] == second[i],
    decreases upto,
{
    if upto > 0 {
        lemma_orders_agree(input, first, first_places, second, second_places, upto - 1);
        let i = upto - 1;
        let a = first[i];
        let b = second[i];
        let j = second_places[a];
        let h = first_places[b];
        if j < i {
            assert(first[j] == second[j]);
            assert(first_places[first[j]] == j);
        } else if j > i {
            if h < i {
                assert(first[h] == second[h]);
                assert(second_places[second[h]] == h);
            } else if h > i {
                assert(comes_before(input, first[i], first[h]));
                assert(comes_before(input, second[i], second[j]));
            }
        }
    }
}

/// The mappings of a device have one sorted form only.
pub proof fn lemma_sorted_form_is_unique(
    input: Seq<LedMapping>,
    one: Seq<LedMapping>,
    other: Seq<LedMapping>,
)
    requires
        is_sorted_form_of(one, input),
        is_sorted_form_of(other, input),
    ensures
        one == other,
{
    let (first, first_places) = choose|order: Seq<int>, places: Seq<int>|
        is_canonical_order(order, input) && is_inverse(places, order) && one == arranged(
            input,
            order,
        );
    let (second, second_places) = choose|order: Seq<int>, places: Seq<int>|
        is_canonical_order(order, input) && is_inverse(places, order) && other == arranged(
            input,
            order,
        );
    lemma_orders_agree(input, first, first_places, second, second_places, input.len() as int);
    assert(one =~= other);
}

/// Sorts `v` by ascending target start without reordering equal starts, and
/// hands back the order it arrived at together with its inverse.
pub(crate) fn sort_by_target_start(v: &mut [LedMapping]) -> (found: Ghost<(Seq<int>, Seq<int>)>)
    ensures
        is_canonical_order(found@.0, old(v)@),
        is_inverse(found@.1, found@.0),
        final(v)@ == arranged(old(v)@, found@.0),
{
    let ghost input = v@;
    let n = v.len();
    let ghost mut order: Seq<int> = Seq::new(n as nat, |i: int| i);
    let ghost mut places: Seq<int> = Seq::new(n as nat, |i: int| i);
    let mut k: usize = 0;
    while k < n
        invariant
            k <= n,
            n == input.len(),
            v@.len() == n,
            order.len() == n,
            is_inverse(places, order),
            forall|i: int| 0 <= i < n ==> v@[i] == input[#[trigger] order[i]],
            forall|i: int| 0 <= i < k ==> #[trigger] order[i] < k,
            forall|i: int| k <= i < n ==> #[trigger] order[i] == i,
            forall|i: int, j: int|
                0 <= i < j < k ==> comes_before(input, #[trigger] order[i], #[trigger] order[j]),
        decreases n - k,
    {
        let mut j: usize = k;
        while j > 0 && v[j - 1].target_start > v[j].target_start
            invariant
                j <= k < n,
                n == input.len(),
                v@.len() == n,
                order.len() == n,
                is_inverse(places, order),
                order[j as int] == k,
                forall|i: int| 0 <= i < n ==> v@[i] == input[#[trigger] order[i]],
                forall|i: int| 0 <= i <= k && i != j ==> #[trigger] order[i] < k,
                forall|i: int| k < i < n ==> #[trigger] order[i] == i,
                forall|i1: int, i2: int|
                    0 <= i1 < i2 <= k && i1 != j && i2 != j ==> comes_before(
                        input,
                        #[trigger] order[i1],
                        #[trigger] order[i2],
                    ),
                forall|i: int|
                    j < i <= k ==> input[k as int].target_start
                        < input[#[trigger] order[i]].target_start,
            decreases j,
        {
            let earlier = v[j - 1];
            let later = v[j];
            v[j - 1] = later;
            v[j] = earlier;
            proof {
                let a = order[j - 1];
                let prev_order = order;
                order = order.update(j - 1, k as int).update(j as int, a);
                places = places.update(k as int, j - 1).update(a, j as int);
                assert forall|i: int| 0 <= i < n implies v@[i] == input[#[trigger] order[i]] by {
                    let _ = prev_order[i];
                }
                assert forall|i1: int, i2: int|
                    0 <= i1 < i2 <= k && i1 != j - 1 && i2 != j - 1 implies comes_before(
                    input,
                    #[trigger] order[i1],
                    #[trigger] order[i2],
                ) by {
                    let p1 = if i1 == j { j - 1 } else { i1 };
                    let p2 = if i2 == j { j - 1 } else { i2 };
                    let _ = prev_order[p1];
                    let _ = prev_order[p2];
                }
            }
            j -= 1;
        }
        proof {
            assert forall|i1: int, i2: int| 0 <= i1 < i2 < k + 1 implies comes_before(
                input,
                #[trigger] order[i1],
                #[trigger] order[i2],
            ) by {
                if i1 == j {
                } else if i2 == j {
                    if i1 < j - 1 {
                        let _ = order[j - 1];
                    }
                }
            }
        }
        k += 1;
    }
    proof {
        assert(v@ =~= arranged(input, order));
    }
    Ghost((order, places))
}

} // verus!
