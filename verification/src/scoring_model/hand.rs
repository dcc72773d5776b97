//! The account of a whole hand: four cards and the cut card.

use crate::cards::{Card, is_rank, rank_index};
use crate::cribbage_cards::CribbageCard;
use crate::cribbage_scoring::{FlushScope, HandScore, ScoringMode, ScoringRules, SortKey};
use crate::scoring_model::fifteens::{
    fifteen_groups, fifteen_score, lemma_subset_sums_complete, subsets_with_total,
};
use crate::scoring_model::groups::{all_ranked, flush_groups, flush_score, group_views, same_rank};
use crate::scoring_model::kinds::{
    alike_but, lemma_pairs_split, lemma_quad_is_exclusive, lemma_quads_split,
    lemma_triples_split, pair_groups, pair_remainder, pair_score, quad_groups, quad_remainder,
    quad_score, triple_groups, triple_remainder, triple_score,
};
use crate::scoring_model::order::{
    key_of, lemma_sorted_by, lemma_sorting_is_stable, sorted_by, with_key,
};
use crate::scoring_model::runs::{run_groups, run_score};
use vstd::prelude::*;

verus! {

/// The five cards that are scored: the four that were dealt, then the cut
/// card.
pub open spec fn full_hand(hand: Seq<CribbageCard>, cut: CribbageCard) -> Seq<CribbageCard> {
    hand.push(cut)
}

/// The five cards in the order of their point values: what the fifteens are
/// looked for in.
pub open spec fn counting_hand(hand: Seq<CribbageCard>, cut: CribbageCard) -> Seq<CribbageCard> {
    sorted_by(full_hand(hand, cut), SortKey::PointValue)
}

/// The five cards in the order of their ranks, so that equal ranks lie
/// together and a card is next to its neighbours in rank: what the groups of
/// a kind and the runs are looked for in.
pub open spec fn grouping_hand(hand: Seq<CribbageCard>, cut: CribbageCard) -> Seq<CribbageCard> {
    sorted_by(full_hand(hand, cut), SortKey::RankIndex)
}

/// The cards that have to be of one suit for a flush.
pub open spec fn flush_hand(hand: Seq<CribbageCard>, cut: CribbageCard, scope: FlushScope) -> Seq<
    CribbageCard,
> {
    match scope {
        FlushScope::DealtCards => hand,
        FlushScope::WithCutCard => full_hand(hand, cut),
    }
}

/// The cards in which three of a kind are looked for: what four of a kind
/// left.
pub open spec fn after_quads(hand: Seq<CribbageCard>, cut: CribbageCard) -> Seq<CribbageCard> {
    quad_remainder(grouping_hand(hand, cut))
}

/// The cards in which pairs are looked for: what three of a kind left.
pub open spec fn after_triples(hand: Seq<CribbageCard>, cut: CribbageCard) -> Seq<CribbageCard> {
    triple_remainder(after_quads(hand, cut))
}

/// The sum of the scores of all the categories.
pub open spec fn full_total(hand: Seq<CribbageCard>, cut: CribbageCard, scope: FlushScope) -> int {
    fifteen_score(counting_hand(hand, cut)) + quad_score(grouping_hand(hand, cut)) + triple_score(
        after_quads(hand, cut),
    ) + pair_score(after_triples(hand, cut)) + run_score(grouping_hand(hand, cut)) + flush_score(
        flush_hand(hand, cut, scope),
    )
}

/// What a hand scores under the rules.
pub open spec fn hand_total(hand: Seq<CribbageCard>, cut: CribbageCard, rules: ScoringRules) -> int {
    match rules.mode {
        ScoringMode::AllCategories => full_total(hand, cut, rules.flush),
        ScoringMode::FifteensOnly => fifteen_score(counting_hand(hand, cut)),
    }
}

/// The rules of the game as it is played: every category counts, and a flush
/// takes all five cards.
pub open spec fn standard_rules() -> ScoringRules {
    ScoringRules { mode: ScoringMode::AllCategories, flush: FlushScope::WithCutCard }
}

/// The account is that of the hand and the cut card under the rules: each
/// category with its score and its groups, and the total.
pub open spec fn is_hand_score(
    hand: Seq<CribbageCard>,
    cut: CribbageCard,
    rules: ScoringRules,
    account: HandScore,
) -> bool {
    &&& account.total == hand_total(hand, cut, rules)
    &&& account.fifteens.score == fifteen_score(counting_hand(hand, cut))
    &&& group_views(account.fifteens.groups@) == fifteen_groups(counting_hand(hand, cut))
    &&& account.quads.score == quad_score(grouping_hand(hand, cut))
    &&& group_views(account.quads.groups@) == quad_groups(grouping_hand(hand, cut))
    &&& account.triples.score == triple_score(after_quads(hand, cut))
    &&& group_views(account.triples.groups@) == triple_groups(after_quads(hand, cut))
    &&& account.pairs.score == pair_score(after_triples(hand, cut))
    &&& group_views(account.pairs.groups@) == pair_groups(after_triples(hand, cut))
    &&& account.runs.score == run_score(grouping_hand(hand, cut))
    &&& group_views(account.runs.groups@) == run_groups(grouping_hand(hand, cut))
    &&& account.flush.score == flush_score(flush_hand(hand, cut, rules.flush))
    &&& group_views(account.flush.groups@) == flush_groups(flush_hand(hand, cut, rules.flush))
}

/// Scoring is a function of the hand, the cut card and the rules: two
/// accounts of the same hand have the same total, the same scores and the
/// same groups.
pub proof fn lemma_scoring_is_deterministic(
    hand: Seq<CribbageCard>,
    cut: CribbageCard,
    rules: ScoringRules,
    first: HandScore,
    second: HandScore,
)
    requires
        is_hand_score(hand, cut, rules, first),
        is_hand_score(hand, cut, rules, second),
    ensures
        first.total == second.total,
        first.fifteens.score == second.fifteens.score,
        group_views(first.fifteens.groups@) == group_views(second.fifteens.groups@),
        first.quads.score == second.quads.score,
        group_views(first.quads.groups@) == group_views(second.quads.groups@),
        first.triples.score == second.triples.score,
        group_views(first.triples.groups@) == group_views(second.triples.groups@),
        first.pairs.score == second.pairs.score,
        group_views(first.pairs.groups@) == group_views(second.pairs.groups@),
        first.runs.score == second.runs.score,
        group_views(first.runs.groups@) == group_views(second.runs.groups@),
        first.flush.score == second.flush.score,
        group_views(first.flush.groups@) == group_views(second.flush.groups@),
{
}

/// How many of five cards pass a test.
proof fn lemma_count_of_five(s: Seq<CribbageCard>, pred: spec_fn(CribbageCard) -> bool)
    requires
        s.len() == 5,
    ensures
        s.filter(pred).len() == (if pred(s[0]) {
            1int
        } else {
            0
        }) + (if pred(s[1]) {
            1int
        } else {
            0
        }) + (if pred(s[2]) {
            1int
        } else {
            0
        }) + (if pred(s[3]) {
            1int
        } else {
            0
        }) + (if pred(s[4]) {
            1int
        } else {
            0
        }),
{
    let a0 = Seq::<CribbageCard>::empty();
    let a1 = a0.push(s[0]);
    let a2 = a1.push(s[1]);
    let a3 = a2.push(s[2]);
    let a4 = a3.push(s[3]);
    let a5 = a4.push(s[4]);
    assert(a5 =~= s);
    a0.lemma_filter_len(pred);
    a0.lemma_filter_push(s[0], pred);
    a1.lemma_filter_push(s[1], pred);
    a2.lemma_filter_push(s[2], pred);
    a3.lemma_filter_push(s[3], pred);
    a4.lemma_filter_push(s[4], pred);
}

/// A hand with four cards of one rank scores them once, as four of a kind,
/// however the cards were dealt: the account shows one group of four cards
/// of that rank, worth 12, and neither three of a kind nor a pair.
pub proof fn lemma_four_of_a_kind_scores_once(
    hand: Seq<CribbageCard>,
    cut: CribbageCard,
    rank: int,
)
    requires
        hand.len() == 4,
        all_ranked(full_hand(hand, cut)),
        with_key(full_hand(hand, cut), SortKey::RankIndex, rank).len() >= 4,
    ensures
        quad_groups(grouping_hand(hand, cut)).len() == 1,
        quad_groups(grouping_hand(hand, cut))[0].len() == 4,
        forall|i: int|
            0 <= i < 4 ==> rank_index(
                (#[trigger] quad_groups(grouping_hand(hand, cut))[0][i]).spec_rank(),
            ) == rank,
        quad_score(grouping_hand(hand, cut)) == 12,
        after_quads(hand, cut).len() == 1,
        triple_groups(after_quads(hand, cut)) == Seq::<Seq<CribbageCard>>::empty(),
        triple_score(after_quads(hand, cut)) == 0,
        pair_groups(after_triples(hand, cut)) == Seq::<Seq<CribbageCard>>::empty(),
        pair_score(after_triples(hand, cut)) == 0,
{
    let dealt = full_hand(hand, cut);
    let sorted = grouping_hand(hand, cut);
    let pred = |c: CribbageCard| key_of(c, SortKey::RankIndex) == rank;
    lemma_sorted_by(dealt, SortKey::RankIndex);
    lemma_sorting_is_stable(dealt, SortKey::RankIndex, rank);
    lemma_count_of_five(sorted, pred);
    let odd: int = if !pred(sorted[0]) {
        0
    } else if !pred(sorted[1]) {
        1
    } else if !pred(sorted[2]) {
        2
    } else if !pred(sorted[3]) {
        3
    } else {
        4
    };
    assert forall|i: int, j: int|
        0 <= i < sorted.len() && 0 <= j < sorted.len() && i != odd && j != odd implies same_rank(
        #[trigger] sorted[i],
        #[trigger] sorted[j],
    ) by {
        assert(pred(sorted[i]) && pred(sorted[j]));
        assert(is_rank(sorted[i].spec_rank()) && is_rank(sorted[j].spec_rank()));
    }
    assert(alike_but(sorted, odd));
    lemma_quad_is_exclusive(sorted);
    let group = quad_groups(sorted)[0];
    assert forall|i: int| 0 <= i < 4 implies rank_index((#[trigger] group[i]).spec_rank())
        == rank by {
        assert(same_rank(group[i], group[0]));
        assert(same_rank(group[i], group[3]));
        if same_rank(sorted[0], sorted[3]) {
            assert(group[0] == sorted[0] && group[3] == sorted[3]);
        } else {
            assert(group[0] == sorted[1] && group[3] == sorted[4]);
        }
        assert(pred(sorted[1]) || pred(sorted[3]));
    }
}

/// The fifteens of a scored hand are all there: they are every choice of
/// cards of the hand, less those that do not count for 15.
pub proof fn lemma_hand_fifteens_complete(hand: Seq<CribbageCard>, cut: CribbageCard)
    requires
        all_ranked(full_hand(hand, cut)),
    ensures
        fifteen_groups(counting_hand(hand, cut)) == subsets_with_total(
            counting_hand(hand, cut),
            15,
        ),
{
    lemma_sorted_by(full_hand(hand, cut), SortKey::PointValue);
    lemma_subset_sums_complete(15, counting_hand(hand, cut));
}

/// Each of the five cards of a scored hand is counted once among the cards
/// of a kind: it is in the four of a kind, or in the three of a kind, or in
/// one pair, or in none of them. A card that a larger group holds is not
/// looked at again for a smaller one.
pub proof fn lemma_kinds_split(hand: Seq<CribbageCard>, cut: CribbageCard)
    requires
        hand.len() == 4,
    ensures
        quad_groups(grouping_hand(hand, cut)).flatten().to_multiset().add(
            triple_groups(after_quads(hand, cut)).flatten().to_multiset(),
        ).add(pair_groups(after_triples(hand, cut)).flatten().to_multiset()).add(
            pair_remainder(after_triples(hand, cut)).to_multiset(),
        ) == full_hand(hand, cut).to_multiset(),
{
    broadcast use vstd::multiset::group_multiset_axioms;

    let sorted = grouping_hand(hand, cut);
    let second = after_quads(hand, cut);
    let third = after_triples(hand, cut);
    lemma_sorted_by(full_hand(hand, cut), SortKey::RankIndex);
    lemma_quads_split(sorted);
    lemma_triples_split(second);
    lemma_pairs_split(third, 0);
    assert(third.skip(0) =~= third);
    let quads = quad_groups(sorted).flatten().to_multiset();
    let triples = triple_groups(second).flatten().to_multiset();
    let pairs = pair_groups(third).flatten().to_multiset();
    let rest = pair_remainder(third).to_multiset();
    assert(pairs.add(rest) == third.to_multiset());
    assert(triples.add(third.to_multiset()) == second.to_multiset());
    assert(quads.add(second.to_multiset()) == sorted.to_multiset());
    assert(quads.add(triples).add(pairs).add(rest) =~= quads.add(triples.add(pairs.add(rest))));
}

/// No hand scores less than nothing.
pub proof fn lemma_total_is_not_negative(
    hand: Seq<CribbageCard>,
    cut: CribbageCard,
    rules: ScoringRules,
)
    ensures
        0 <= hand_total(hand, cut, rules),
{
}

} // verus!
