//! The order of a hand by one of its two keys.

use crate::cards::{Card, is_rank, rank_index};
use crate::cribbage_cards::{CribbageCard, point_value};
use crate::cribbage_scoring::SortKey;
use crate::scoring_model::groups::all_ranked;
use vstd::seq_lib::{to_multiset_build, to_multiset_insert};
use vstd::prelude::*;

verus! {

/// The number by which a card is ordered under a key.
pub open spec fn key_of(c: CribbageCard, key: SortKey) -> int {
    match key {
        SortKey::PointValue => point_value(c.spec_rank()),
        SortKey::RankIndex => rank_index(c.spec_rank()),
    }
}

/// The keys of the cards never go down along the hand.
pub open spec fn is_sorted_by(hand: Seq<CribbageCard>, key: SortKey) -> bool {
    forall|i: int, j: int|
        0 <= i <= j < hand.len() ==> key_of(#[trigger] hand[i], key) <= key_of(
            #[trigger] hand[j],
            key,
        )
}

/// Where a card goes into a sorted hand: behind the last card whose key is
/// not greater than its own, so that it comes after the cards that tie with
/// it.
pub open spec fn insertion_point(sorted: Seq<CribbageCard>, c: CribbageCard, key: SortKey) -> int
    decreases sorted.len(),
{
    if sorted.len() == 0 || key_of(sorted.last(), key) <= key_of(c, key) {
        sorted.len() as int
    } else {
        insertion_point(sorted.drop_last(), c, key)
    }
}

/// The hand in the order of its keys, cards that tie keeping the order in
/// which they stood: the cards are put, from the first to the last, each
/// into its place among those before it.
pub open spec fn sorted_by(hand: Seq<CribbageCard>, key: SortKey) -> Seq<CribbageCard>
    decreases hand.len(),
{
    if hand.len() == 0 {
        hand
    } else {
        let before = sorted_by(hand.drop_last(), key);
        before.insert(insertion_point(before, hand.last(), key), hand.last())
    }
}

/// The cards of a hand with a given key, in the order of the hand.
pub open spec fn with_key(hand: Seq<CribbageCard>, key: SortKey, k: int) -> Seq<CribbageCard> {
    hand.filter(|c: CribbageCard| key_of(c, key) == k)
}

/// The insertion point lies in the hand or just past it; the cards from it
/// on have greater keys, and the card before it has not.
pub proof fn lemma_insertion_point(sorted: Seq<CribbageCard>, c: CribbageCard, key: SortKey)
    ensures
        0 <= insertion_point(sorted, c, key) <= sorted.len(),
        forall|k: int|
            insertion_point(sorted, c, key) <= k < sorted.len() ==> key_of(
                #[trigger] sorted[k],
                key,
            ) > key_of(c, key),
        insertion_point(sorted, c, key) > 0 ==> key_of(
            sorted[insertion_point(sorted, c, key) - 1],
            key,
        ) <= key_of(c, key),
    decreases sorted.len(),
{
    if sorted.len() == 0 || key_of(sorted.last(), key) <= key_of(c, key) {
    } else {
        let front = sorted.drop_last();
        lemma_insertion_point(front, c, key);
        assert forall|k: int| insertion_point(sorted, c, key) <= k < sorted.len() implies key_of(
            #[trigger] sorted[k],
            key,
        ) > key_of(c, key) by {
            if k < front.len() {
                assert(sorted[k] == front[k]);
            }
        }
        if insertion_point(sorted, c, key) > 0 {
            assert(sorted[insertion_point(sorted, c, key) - 1] == front[insertion_point(
                front,
                c,
                key,
            ) - 1]);
        }
    }
}

/// Sorting keeps every card, as often as it was there, and leaves the keys
/// in an order that never goes down.
pub proof fn lemma_sorted_by(hand: Seq<CribbageCard>, key: SortKey)
    ensures
        sorted_by(hand, key).len() == hand.len(),
        is_sorted_by(sorted_by(hand, key), key),
        sorted_by(hand, key).to_multiset() == hand.to_multiset(),
        all_ranked(hand) ==> all_ranked(sorted_by(hand, key)),
    decreases hand.len(),
{
    if hand.len() > 0 {
        let c = hand.last();
        let before = sorted_by(hand.drop_last(), key);
        let p = insertion_point(before, c, key);
        let after = before.insert(p, c);
        lemma_sorted_by(hand.drop_last(), key);
        lemma_insertion_point(before, c, key);
        assert(is_sorted_by(after, key)) by {
            assert forall|i: int, j: int| 0 <= i <= j < after.len() implies key_of(
                #[trigger] after[i],
                key,
            ) <= key_of(#[trigger] after[j], key) by {
                if i < p {
                    assert(after[i] == before[i]);
                    assert(key_of(before[i], key) <= key_of(before[p - 1], key));
                }
                if i > p {
                    assert(after[i] == before[i - 1]);
                }
                if j < p {
                    assert(after[j] == before[j]);
                }
                if j > p {
                    assert(after[j] == before[j - 1]);
                }
            }
        }
        to_multiset_insert(before, p, c);
        to_multiset_build(hand.drop_last(), c);
        assert(hand.drop_last().push(c) =~= hand);
        if all_ranked(hand) {
            assert(all_ranked(hand.drop_last()));
            assert forall|i: int| 0 <= i < after.len() implies is_rank(
                #[trigger] after[i].spec_rank(),
            ) by {
                if i < p {
                    assert(after[i] == before[i]);
                } else if i > p {
                    assert(after[i] == before[i - 1]);
                } else {
                    assert(after[i] == hand[hand.len() - 1]);
                }
            }
        }
    }
}

/// A hand that is in order already is its own sorted form.
pub proof fn lemma_sorted_is_fixed(hand: Seq<CribbageCard>, key: SortKey)
    requires
        is_sorted_by(hand, key),
    ensures
        sorted_by(hand, key) == hand,
    decreases hand.len(),
{
    if hand.len() > 0 {
        let front = hand.drop_last();
        assert(is_sorted_by(front, key)) by {
            assert forall|i: int, j: int| 0 <= i <= j < front.len() implies key_of(
                #[trigger] front[i],
                key,
            ) <= key_of(#[trigger] front[j], key) by {
                assert(front[i] == hand[i] && front[j] == hand[j]);
            }
        }
        lemma_sorted_is_fixed(front, key);
        if front.len() > 0 {
            assert(front.last() == hand[hand.len() - 2]);
            assert(key_of(hand[hand.len() - 2], key) <= key_of(hand[hand.len() - 1], key));
        }
        assert(insertion_point(front, hand.last(), key) == front.len());
        assert(front.insert(front.len() as int, hand.last()) =~= hand);
    }
}

/// Sorting twice is sorting once.
pub proof fn lemma_sorting_is_idempotent(hand: Seq<CribbageCard>, key: SortKey)
    ensures
        sorted_by(sorted_by(hand, key), key) == sorted_by(hand, key),
{
    lemma_sorted_by(hand, key);
    lemma_sorted_is_fixed(sorted_by(hand, key), key);
}

/// Sorting is stable: the cards that share a key stand in the sorted hand in
/// the order in which they stood before.
pub proof fn lemma_sorting_is_stable(hand: Seq<CribbageCard>, key: SortKey, k: int)
    ensures
        with_key(sorted_by(hand, key), key, k) == with_key(hand, key, k),
    decreases hand.len(),
{
    let pred = |c: CribbageCard| key_of(c, key) == k;
    if hand.len() > 0 {
        let c = hand.last();
        let front = hand.drop_last();
        let before = sorted_by(front, key);
        let p = insertion_point(before, c, key);
        lemma_sorting_is_stable(front, key, k);
        lemma_insertion_point(before, c, key);
        let low = before.subrange(0, p);
        let high = before.subrange(p, before.len() as int);
        assert(before =~= low + high);
        assert(before.insert(p, c) =~= low.push(c) + high);
        Seq::filter_distributes_over_add(low, high, pred);
        Seq::filter_distributes_over_add(low.push(c), high, pred);
        low.lemma_filter_push(c, pred);
        front.lemma_filter_push(c, pred);
        assert(front.push(c) =~= hand);
        if pred(c) {
            assert(high.filter(pred).len() == 0) by {
                if high.filter(pred).len() > 0 {
                    high.lemma_filter_pred(pred, 0);
                    let found = high.filter(pred)[0];
                    high.lemma_filter_contains_rev(pred, found);
                    let at = choose|at: int| 0 <= at < high.len() && high[at] == found;
                    assert(high[at] == before[p + at]);
                }
            }
            assert(high.filter(pred) =~= Seq::<CribbageCard>::empty());
            assert(low.filter(pred).push(c) + high.filter(pred) =~= (low.filter(pred)
                + high.filter(pred)).push(c));
        }
    } else {
        assert(sorted_by(hand, key) == hand);
    }
}

/// A hand in the order of its ranks is in the order of its point values
/// too.
pub proof fn lemma_rank_order_is_point_order(hand: Seq<CribbageCard>)
    requires
        all_ranked(hand),
        is_sorted_by(hand, SortKey::RankIndex),
    ensures
        is_sorted_by(hand, SortKey::PointValue),
{
    assert forall|i: int, j: int| 0 <= i <= j < hand.len() implies key_of(
        #[trigger] hand[i],
        SortKey::PointValue,
    ) <= key_of(#[trigger] hand[j], SortKey::PointValue) by {
        assert(key_of(hand[i], SortKey::RankIndex) <= key_of(hand[j], SortKey::RankIndex));
    }
}

} // verus!
