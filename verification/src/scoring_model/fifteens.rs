//! Fifteens: the choices of cards of a hand that count for fifteen.

use crate::cards::{Card, is_rank};
use crate::cribbage_cards::{CribbageCard, lemma_point_value_bounds, point_value};
use crate::cribbage_scoring::SortKey;
use crate::scoring_model::groups::all_ranked;
use crate::scoring_model::order::{is_sorted_by, key_of};
use vstd::arithmetic::power2::{lemma2_to64, lemma_pow2_unfold, pow2};
use vstd::prelude::*;

verus! {

/// What a card counts for.
pub open spec fn card_points(c: CribbageCard) -> int {
    point_value(c.spec_rank())
}

/// What the cards of a group count for together.
pub open spec fn group_total(group: Seq<CribbageCard>) -> int
    decreases group.len(),
{
    if group.len() == 0 {
        0
    } else {
        group_total(group.drop_last()) + card_points(group.last())
    }
}

/// The groups that count for `n`.
pub open spec fn has_total(n: int) -> spec_fn(Seq<CribbageCard>) -> bool {
    |g: Seq<CribbageCard>| group_total(g) == n
}

/// Each of the groups with one more card at its end.
pub open spec fn with_card(groups: Seq<Seq<CribbageCard>>, c: CribbageCard) -> Seq<
    Seq<CribbageCard>,
> {
    groups.map_values(|g: Seq<CribbageCard>| g.push(c))
}

/// Every choice of one or more cards of a hand, each card chosen by its
/// place. A choice lists its cards from the last place to the first. The
/// choices with the first card come before those without it: the first
/// card alone, then the first card with each choice from the rest, then the
/// choices from the rest.
pub open spec fn subsets(cards: Seq<CribbageCard>) -> Seq<Seq<CribbageCard>>
    decreases cards.len(),
{
    if cards.len() == 0 {
        Seq::empty()
    } else {
        seq![seq![cards[0]]] + with_card(subsets(cards.drop_first()), cards[0]) + subsets(
            cards.drop_first(),
        )
    }
}

/// Every choice of cards of a hand that counts for exactly `n`: all choices
/// are listed and those with another total are struck out.
pub open spec fn subsets_with_total(cards: Seq<CribbageCard>, n: int) -> Seq<Seq<CribbageCard>> {
    subsets(cards).filter(has_total(n))
}

/// What the search for the choices that count for `n` finds. It goes
/// through the cards from the left and gives up at the first card that
/// counts for more than `n`, taking the cards after it to count for no less.
pub open spec fn subset_sums(n: int, cards: Seq<CribbageCard>) -> Seq<Seq<CribbageCard>>
    decreases cards.len(),
{
    if cards.len() == 0 {
        Seq::empty()
    } else if card_points(cards[0]) == n {
        seq![seq![cards[0]]] + subset_sums(n, cards.drop_first())
    } else if card_points(cards[0]) > n {
        Seq::empty()
    } else {
        with_card(subset_sums(n - card_points(cards[0]), cards.drop_first()), cards[0])
            + subset_sums(n, cards.drop_first())
    }
}

/// The fifteens of a hand.
pub open spec fn fifteen_groups(hand: Seq<CribbageCard>) -> Seq<Seq<CribbageCard>> {
    subset_sums(15, hand)
}

/// Each fifteen scores 2.
pub open spec fn fifteen_score(hand: Seq<CribbageCard>) -> int {
    2 * fifteen_groups(hand).len() as int
}

/// A group with one more card counts for that card more.
pub proof fn lemma_total_push(group: Seq<CribbageCard>, c: CribbageCard)
    ensures
        group_total(group.push(c)) == group_total(group) + card_points(c),
{
    assert(group.push(c).drop_last() =~= group);
}

/// Every group that the search finds counts for exactly `n`.
pub proof fn lemma_subset_sums_total(n: int, cards: Seq<CribbageCard>)
    ensures
        forall|j: int|
            0 <= j < subset_sums(n, cards).len() ==> group_total(
                #[trigger] subset_sums(n, cards)[j],
            ) == n,
    decreases cards.len(),
{
    if cards.len() > 0 {
        let c = cards[0];
        let rest = cards.drop_first();
        lemma_subset_sums_total(n, rest);
        lemma_subset_sums_total(n - card_points(c), rest);
        let found = subset_sums(n, cards);
        assert forall|j: int| 0 <= j < found.len() implies group_total(#[trigger] found[j])
            == n by {
            if card_points(c) == n {
                if j == 0 {
                    lemma_total_push(Seq::empty(), c);
                    assert(seq![c] =~= Seq::<CribbageCard>::empty().push(c));
                } else {
                    assert(found[j] == subset_sums(n, rest)[j - 1]);
                }
            } else if card_points(c) < n {
                let smaller = subset_sums(n - card_points(c), rest);
                if j < smaller.len() {
                    assert(found[j] == smaller[j].push(c));
                    lemma_total_push(smaller[j], c);
                } else {
                    assert(found[j] == subset_sums(n, rest)[j - smaller.len()]);
                }
            }
        }
    }
}

/// The search finds fewer groups than two to the power of the number of
/// cards.
pub proof fn lemma_subset_sums_count(n: int, cards: Seq<CribbageCard>)
    ensures
        subset_sums(n, cards).len() < pow2(cards.len()),
    decreases cards.len(),
{
    if cards.len() > 0 {
        let rest = cards.drop_first();
        lemma_subset_sums_count(n, rest);
        lemma_subset_sums_count(n - card_points(cards[0]), rest);
        lemma_pow2_unfold(cards.len());
    } else {
        lemma2_to64();
    }
}

/// Striking out by total, then adding a card, is adding the card and then
/// striking out by the total with that card.
pub proof fn lemma_filter_with_card(groups: Seq<Seq<CribbageCard>>, c: CribbageCard, n: int)
    ensures
        with_card(groups, c).filter(has_total(n)) == with_card(
            groups.filter(has_total(n - card_points(c))),
            c,
        ),
    decreases groups.len(),
{
    if groups.len() == 0 {
        assert(with_card(groups, c) =~= Seq::<Seq<CribbageCard>>::empty());
        assert(with_card(groups, c).filter(has_total(n)).len() == 0) by {
            with_card(groups, c).lemma_filter_len(has_total(n));
        }
        assert(groups.filter(has_total(n - card_points(c))).len() == 0) by {
            groups.lemma_filter_len(has_total(n - card_points(c)));
        }
        assert(with_card(groups, c).filter(has_total(n)) =~= with_card(
            groups.filter(has_total(n - card_points(c))),
            c,
        ));
    } else {
        let front = groups.drop_last();
        let g = groups.last();
        lemma_filter_with_card(front, c, n);
        lemma_total_push(g, c);
        assert(groups =~= front.push(g));
        assert(with_card(groups, c) =~= with_card(front, c).push(g.push(c)));
        with_card(front, c).lemma_filter_push(g.push(c), has_total(n));
        front.lemma_filter_push(g, has_total(n - card_points(c)));
        assert(with_card(front.filter(has_total(n - card_points(c))).push(g), c) =~= with_card(
            front.filter(has_total(n - card_points(c))),
            c,
        ).push(g.push(c)));
    }
}

/// A filter that no group passes leaves nothing.
pub proof fn lemma_filter_none(groups: Seq<Seq<CribbageCard>>, n: int)
    requires
        forall|j: int| 0 <= j < groups.len() ==> group_total(#[trigger] groups[j]) != n,
    ensures
        groups.filter(has_total(n)) == Seq::<Seq<CribbageCard>>::empty(),
{
    let kept = groups.filter(has_total(n));
    if kept.len() > 0 {
        groups.lemma_filter_pred(has_total(n), 0);
        groups.lemma_filter_contains_rev(has_total(n), kept[0]);
        let at = choose|at: int| 0 <= at < groups.len() && groups[at] == kept[0];
        assert(group_total(groups[at]) != n);
    }
    assert(kept =~= Seq::<Seq<CribbageCard>>::empty());
}

/// A choice of cards counts for no less than the least of the cards.
pub proof fn lemma_subsets_lower_bound(cards: Seq<CribbageCard>, least: int)
    requires
        0 <= least,
        forall|i: int| 0 <= i < cards.len() ==> card_points(#[trigger] cards[i]) >= least,
    ensures
        forall|j: int|
            0 <= j < subsets(cards).len() ==> group_total(#[trigger] subsets(cards)[j]) >= least,
    decreases cards.len(),
{
    if cards.len() > 0 {
        let c = cards[0];
        let rest = cards.drop_first();
        assert forall|i: int| 0 <= i < rest.len() implies card_points(#[trigger] rest[i])
            >= least by {
            assert(rest[i] == cards[i + 1]);
        }
        lemma_subsets_lower_bound(rest, least);
        let all = subsets(cards);
        let inner = subsets(rest);
        assert forall|j: int| 0 <= j < all.len() implies group_total(#[trigger] all[j])
            >= least by {
            if j == 0 {
                lemma_total_push(Seq::empty(), c);
                assert(seq![c] =~= Seq::<CribbageCard>::empty().push(c));
            } else if j < 1 + inner.len() {
                assert(all[j] == inner[j - 1].push(c));
                lemma_total_push(inner[j - 1], c);
            } else {
                assert(all[j] == inner[j - 1 - inner.len()]);
            }
        }
    }
}

/// The choices that count for `n`, by the first card: the first card alone
/// if it counts for `n`; the first card with each choice from the rest that
/// counts for what is then missing; and the choices from the rest.
pub proof fn lemma_subsets_with_total_unfold(cards: Seq<CribbageCard>, n: int)
    requires
        cards.len() > 0,
    ensures
        subsets_with_total(cards, n) == (if card_points(cards[0]) == n {
            seq![seq![cards[0]]]
        } else {
            Seq::<Seq<CribbageCard>>::empty()
        }) + with_card(
            subsets_with_total(cards.drop_first(), n - card_points(cards[0])),
            cards[0],
        ) + subsets_with_total(cards.drop_first(), n),
{
    let c = cards[0];
    let rest = cards.drop_first();
    let single = seq![seq![c]];
    let joined = with_card(subsets(rest), c);
    let none = Seq::<Seq<CribbageCard>>::empty();
    Seq::filter_distributes_over_add(single, joined, has_total(n));
    Seq::filter_distributes_over_add(single + joined, subsets(rest), has_total(n));
    lemma_filter_with_card(subsets(rest), c, n);
    assert(single.filter(has_total(n)) == if card_points(c) == n {
        single
    } else {
        none
    }) by {
        assert(single =~= none.push(seq![c]));
        none.lemma_filter_push(seq![c], has_total(n));
        none.lemma_filter_len(has_total(n));
        assert(none.filter(has_total(n)) =~= none);
        lemma_total_push(Seq::empty(), c);
        assert(seq![c] =~= Seq::<CribbageCard>::empty().push(c));
    }
}

/// Where every card counts for more than `n`, no choice of cards counts for
/// `n`.
pub proof fn lemma_no_small_totals(cards: Seq<CribbageCard>, n: int)
    requires
        forall|i: int| 0 <= i < cards.len() ==> card_points(#[trigger] cards[i]) > n,
    ensures
        subsets_with_total(cards, n) == Seq::<Seq<CribbageCard>>::empty(),
{
    let least: int = if n + 1 >= 0 {
        n + 1
    } else {
        0
    };
    lemma_subsets_lower_bound(cards, least);
    lemma_filter_none(subsets(cards), n);
}

/// On a hand in the order of its point values the search misses nothing:
/// what it finds is what is left when every choice of cards is listed and
/// those with another total are struck out.
pub proof fn lemma_subset_sums_complete(n: int, cards: Seq<CribbageCard>)
    requires
        all_ranked(cards),
        is_sorted_by(cards, SortKey::PointValue),
    ensures
        subset_sums(n, cards) == subsets_with_total(cards, n),
    decreases cards.len(),
{
    if cards.len() == 0 {
        subsets(cards).lemma_filter_len(has_total(n));
        assert(subsets_with_total(cards, n) =~= Seq::<Seq<CribbageCard>>::empty());
    } else {
        let c = cards[0];
        let v = card_points(c);
        let rest = cards.drop_first();
        let none = Seq::<Seq<CribbageCard>>::empty();
        lemma_point_value_bounds(c.spec_rank());
        assert(all_ranked(rest)) by {
            assert forall|i: int| 0 <= i < rest.len() implies is_rank(
                #[trigger] rest[i].spec_rank(),
            ) by {
                assert(rest[i] == cards[i + 1]);
            }
        }
        assert(is_sorted_by(rest, SortKey::PointValue)) by {
            assert forall|i: int, j: int| 0 <= i <= j < rest.len() implies key_of(
                #[trigger] rest[i],
                SortKey::PointValue,
            ) <= key_of(#[trigger] rest[j], SortKey::PointValue) by {
                assert(rest[i] == cards[i + 1] && rest[j] == cards[j + 1]);
            }
        }
        assert forall|i: int| 0 <= i < rest.len() implies card_points(#[trigger] rest[i])
            >= v by {
            assert(rest[i] == cards[i + 1]);
            assert(key_of(cards[0], SortKey::PointValue) <= key_of(
                cards[i + 1],
                SortKey::PointValue,
            ));
        }
        lemma_subsets_with_total_unfold(cards, n);
        if v >= n {
            // What is missing is nothing or less: no choice counts for that.
            lemma_no_small_totals(rest, n - v);
            assert(with_card(none, c) =~= none);
        }
        if v == n {
            lemma_subset_sums_complete(n, rest);
            assert(seq![seq![c]] + none + subset_sums(n, rest) =~= seq![seq![c]] + subset_sums(
                n,
                rest,
            ));
        } else if v > n {
            // Every card of the rest counts for more than is asked for.
            lemma_no_small_totals(rest, n);
            assert(none + none + none =~= none);
        } else {
            lemma_subset_sums_complete(n, rest);
            lemma_subset_sums_complete(n - v, rest);
            assert(none + with_card(subset_sums(n - v, rest), c) + subset_sums(n, rest)
                =~= with_card(subset_sums(n - v, rest), c) + subset_sums(n, rest));
        }
    }
}

} // verus!
