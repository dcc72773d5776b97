//! The detectors that score a cribbage hand (fifteens, four, three and two
//! of a kind, runs and the flush) and the scoring of a whole hand with its
//! cut card. What each of them finds is defined in `scoring_model`.

use crate::cards::{is_rank, rank_position, same_text, Card};
use crate::cribbage_cards::{lemma_point_value_bounds, precedes, CribbageCard};
use crate::scoring_model::fifteens::{
    fifteen_groups, fifteen_score, group_total, lemma_subset_sums_complete,
    lemma_subset_sums_count, lemma_subset_sums_total, subset_sums, subsets_with_total, with_card,
};
use crate::scoring_model::groups::{all_ranked, flush_groups, flush_score, group_views, same_rank};
use crate::scoring_model::hand::{full_hand, hand_total, is_hand_score, standard_rules};
use crate::scoring_model::kinds::{
    contains_quad, lemma_pairs_are_pairs, lemma_pairs_count, lemma_triple_start, pair_groups,
    pair_remainder, pair_score, pairs_scan, quad_groups, quad_remainder, quad_score,
    triple_groups, triple_remainder, triple_score, triple_start,
};
use crate::scoring_model::order::{
    insertion_point, is_sorted_by, key_of, lemma_sorted_by, lemma_sorted_is_fixed,
    lemma_sorting_is_stable, sorted_by, with_key,
};
use crate::scoring_model::runs::{
    is_chain, lemma_runs_are_chains, lemma_runs_short_tail, run_groups, run_remainder, run_score,
    runs_scan,
};
use vstd::arithmetic::power2::{lemma2_to64, lemma_pow2_strictly_increases};
use vstd::prelude::*;
use vstd::slice::slice_subrange;

verus! {

/// The two numbers by which a hand can be put in order.
#[derive(Debug, Copy, Clone, Eq, PartialEq, Structural)]
pub enum SortKey {
    /// What a card counts for: ace 1, numerals their number, court cards 10.
    PointValue,
    /// The place of the rank in the order ace, two, ..., king.
    RankIndex,
}

/// Which categories count towards the total of a hand.
#[derive(Debug, Copy, Clone, Eq, PartialEq, Structural)]
pub enum ScoringMode {
    /// Fifteens, four, three and two of a kind, runs and the flush.
    AllCategories,
    /// The fifteens alone. The other categories are still looked for and
    /// reported.
    FifteensOnly,
}

/// Which cards have to be of one suit for a flush.
#[derive(Debug, Copy, Clone, Eq, PartialEq, Structural)]
pub enum FlushScope {
    /// The four cards that were dealt.
    DealtCards,
    /// The four cards that were dealt and the cut card.
    WithCutCard,
}

/// The choices that the rules of the game leave open.
#[derive(Debug, Copy, Clone, Eq, PartialEq, Structural)]
pub struct ScoringRules {
    pub mode: ScoringMode,
    pub flush: FlushScope,
}

impl Default for ScoringRules {
    /// The rules of the game as it is played.
    fn default() -> (rules: Self)
        ensures
            rules == standard_rules(),
    {
        ScoringRules { mode: ScoringMode::AllCategories, flush: FlushScope::WithCutCard }
    }
}

/// Why a hand was not scored.
#[derive(Debug, Copy, Clone, Eq, PartialEq, Structural)]
pub enum ScoreError {
    /// The hand does not hold exactly four cards.
    WrongHandSize,
    /// There is no cut card.
    MissingCutCard,
}

/// What one category found in a hand.
#[derive(Debug, Clone, Eq, PartialEq)]
pub struct CategoryScore {
    pub score: i8,
    pub groups: Vec<Vec<CribbageCard>>,
}

/// The account of a hand: its total, and what each category found.
#[derive(Debug, Clone, Eq, PartialEq)]
pub struct HandScore {
    pub total: i32,
    pub fifteens: CategoryScore,
    pub quads: CategoryScore,
    pub triples: CategoryScore,
    pub pairs: CategoryScore,
    pub runs: CategoryScore,
    pub flush: CategoryScore,
}

/// A fresh vector with the same cards.
fn copy_hand(hand: &Vec<CribbageCard>) -> (copy: Vec<CribbageCard>)
    ensures
        copy@ == hand@,
{
    let mut copy: Vec<CribbageCard> = Vec::new();
    let mut i: usize = 0;
    while i < hand.len()
        invariant
            i <= hand@.len(),
            copy@ == hand@.take(i as int),
        decreases hand@.len() - i,
    {
        copy.push(hand[i]);
        i += 1;
        assert(copy@ =~= hand@.take(i as int));
    }
    assert(hand@.take(hand@.len() as int) =~= hand@);
    copy
}

/// Tells whether two cards have the same rank symbol.
fn ranks_match(a: &CribbageCard, b: &CribbageCard) -> (same: bool)
    ensures
        same == same_rank(*a, *b),
{
    same_text(a.get_rank(), b.get_rank())
}

/// The number by which a card is ordered under a key.
fn sort_key(c: &CribbageCard, key: SortKey) -> (k: i8)
    requires
        is_rank(c.spec_rank()),
    ensures
        k == key_of(*c, key),
{
    match key {
        SortKey::PointValue => c.get_value(),
        SortKey::RankIndex => match rank_position(c.get_rank()) {
            Some(p) => p as i8,
            None => vstd::pervasive::unreached(),
        },
    }
}

/// Returns the hand in the order of the chosen key, smallest first. Cards
/// that tie stay in the order in which they stood.
pub fn sort_hand_by(hand: &Vec<CribbageCard>, key: SortKey) -> (sorted: Vec<CribbageCard>)
    requires
        all_ranked(hand@),
    ensures
        sorted@ == sorted_by(hand@, key),
        is_sorted_by(sorted@, key),
        sorted@.to_multiset() == hand@.to_multiset(),
        forall|k: int| #[trigger] with_key(sorted@, key, k) == with_key(hand@, key, k),
        all_ranked(sorted@),
        is_sorted_by(hand@, key) ==> sorted@ == hand@,
{
    let mut result_cards: Vec<CribbageCard> = Vec::new();
    let mut i: usize = 0;
    while i < hand.len()
        invariant
            i <= hand@.len(),
            all_ranked(hand@),
            result_cards@ == sorted_by(hand@.take(i as int), key),
            result_cards@.len() == i,
            all_ranked(result_cards@),
        decreases hand@.len() - i,
    {
        let card = hand[i];
        let card_key = sort_key(&card, key);
        let mut p: usize = result_cards.len();
        assert(result_cards@.take(p as int) =~= result_cards@);
        while p > 0 && sort_key(&result_cards[p - 1], key) > card_key
            invariant
                p <= result_cards@.len(),
                all_ranked(result_cards@),
                card_key == key_of(card, key),
                insertion_point(result_cards@.take(p as int), card, key) == insertion_point(
                    result_cards@,
                    card,
                    key,
                ),
            decreases p,
        {
            assert(result_cards@.take(p as int).drop_last() =~= result_cards@.take(p - 1));
            p -= 1;
        }
        proof {
            assert(hand@.take(i + 1).drop_last() =~= hand@.take(i as int));
            assert(hand@.take(i + 1).last() == card);
            lemma_sorted_by(hand@.take(i + 1), key);
            assert(all_ranked(hand@.take(i + 1)));
        }
        result_cards.insert(p, card);
        i += 1;
    }
    proof {
        assert(hand@.take(hand@.len() as int) =~= hand@);
        lemma_sorted_by(hand@, key);
        if is_sorted_by(hand@, key) {
            lemma_sorted_is_fixed(hand@, key);
        }
        assert forall|k: int| #[trigger]
            with_key(result_cards@, key, k) == with_key(hand@, key, k) by {
            lemma_sorting_is_stable(hand@, key, k);
        }
    }
    result_cards
}

/// Returns the hand in the order of what its cards count for, smallest
/// first. Cards that count the same stay in the order in which they stood.
pub fn sort_hand(hand: &Vec<CribbageCard>) -> (sorted: Vec<CribbageCard>)
    requires
        all_ranked(hand@),
    ensures
        sorted@ == sorted_by(hand@, SortKey::PointValue),
        is_sorted_by(sorted@, SortKey::PointValue),
        sorted@.to_multiset() == hand@.to_multiset(),
        forall|k: int|
            #[trigger] with_key(sorted@, SortKey::PointValue, k) == with_key(
                hand@,
                SortKey::PointValue,
                k,
            ),
        all_ranked(sorted@),
        is_sorted_by(hand@, SortKey::PointValue) ==> sorted@ == hand@,
{
    sort_hand_by(hand, SortKey::PointValue)
}

/// Searches the cards, from the left, for every choice of them that counts
/// for exactly `n`. A group lists its cards from the last place to the
/// first. The search gives up at the first card that counts for more than
/// `n`: it is meant for cards in the order of their point values.
pub fn get_subset_sums(n: i8, cards: &[CribbageCard]) -> (result: Vec<Vec<CribbageCard>>)
    requires
        all_ranked(cards@),
    ensures
        group_views(result@) == subset_sums(n as int, cards@),
        forall|j: int| 0 <= j < result@.len() ==> group_total(#[trigger] result@[j]@) == n,
        is_sorted_by(cards@, SortKey::PointValue) ==> group_views(result@) == subsets_with_total(
            cards@,
            n as int,
        ),
    decreases cards@.len(),
{
    let mut result = Vec::<Vec<CribbageCard>>::new();
    let mut i: usize = 0;
    assert(cards@.skip(0) =~= cards@);
    assert(group_views(result@) + subset_sums(n as int, cards@) =~= subset_sums(
        n as int,
        cards@,
    ));
    while i < cards.len()
        invariant_except_break
            group_views(result@) + subset_sums(n as int, cards@.skip(i as int)) == subset_sums(
                n as int,
                cards@,
            ),
        invariant
            i <= cards@.len(),
            all_ranked(cards@),
        ensures
            group_views(result@) =~= subset_sums(n as int, cards@),
        decreases cards@.len() - i,
    {
        let ghost before = group_views(result@);
        let ghost rest = cards@.skip(i + 1);
        proof {
            assert(cards@.skip(i as int).drop_first() =~= rest);
            assert(cards@.skip(i as int)[0] == cards@[i as int]);
            lemma_point_value_bounds(cards@[i as int].spec_rank());
        }
        let card = cards[i];
        let card_value = card.get_value();

        if card_value == n {
            // The card alone counts for n.
            let single = vec![card];
            assert(single@ =~= seq![card]);
            result.push(single);
            assert(group_views(result@) =~= before.push(seq![card]));
            assert(group_views(result@) + subset_sums(n as int, rest) =~= before + subset_sums(
                n as int,
                cards@.skip(i as int),
            ));
        } else if card_value > n {
            // This card counts for too much, and so do those after it.
            assert(group_views(result@) =~= before + subset_sums(
                n as int,
                cards@.skip(i as int),
            ));
            break ;
        } else {
            // Add the card to each choice from the later cards that counts
            // for what is still missing.
            let later = slice_subrange(cards, i + 1, cards.len());
            assert(later@ =~= rest);
            assert(all_ranked(later@));
            let smaller_sums = get_subset_sums(n - card_value, later);
            let mut j: usize = 0;
            assert(group_views(result@) =~= before + with_card(
                group_views(smaller_sums@).take(0),
                card,
            ));
            while j < smaller_sums.len()
                invariant
                    j <= smaller_sums@.len(),
                    group_views(result@) == before + with_card(
                        group_views(smaller_sums@).take(j as int),
                        card,
                    ),
                decreases smaller_sums@.len() - j,
            {
                let ghost so_far = group_views(result@);
                let ghost smaller = group_views(smaller_sums@);
                let mut sum = copy_hand(&smaller_sums[j]);
                sum.push(card);
                assert(sum@ == smaller[j as int].push(card));
                result.push(sum);
                j += 1;
                assert(group_views(result@) =~= so_far.push(smaller[j - 1].push(card)));
                assert(with_card(smaller.take(j as int), card) =~= with_card(
                    smaller.take(j - 1),
                    card,
                ).push(smaller[j - 1].push(card)));
                assert(group_views(result@) =~= before + with_card(
                    group_views(smaller_sums@).take(j as int),
                    card,
                ));
            }
            assert(group_views(smaller_sums@).take(smaller_sums@.len() as int) =~= group_views(
                smaller_sums@,
            ));
            assert(group_views(result@) + subset_sums(n as int, rest) =~= before + subset_sums(
                n as int,
                cards@.skip(i as int),
            ));
        }
        i += 1;
    }
    proof {
        lemma_subset_sums_total(n as int, cards@);
        assert forall|j: int| 0 <= j < result@.len() implies group_total(#[trigger] result@[j]@)
            == n by {
            assert(result@[j]@ == group_views(result@)[j]);
        }
        if is_sorted_by(cards@, SortKey::PointValue) {
            lemma_subset_sums_complete(n as int, cards@);
        }
    }
    result
}

/// Finds the fifteens of a hand of up to six cards: every choice of cards
/// that counts for exactly 15. Returns the score, 2 for each fifteen, and
/// the fifteens. On a hand in the order of its point values no fifteen is
/// missed: the result is every choice of cards of the hand, less those that
/// count for another total.
pub fn score_fifteens(hand: &Vec<CribbageCard>) -> (scored: (i8, Vec<Vec<CribbageCard>>))
    requires
        all_ranked(hand@),
        hand@.len() <= 6,
    ensures
        scored.0 == fifteen_score(hand@),
        group_views(scored.1@) == fifteen_groups(hand@),
        forall|j: int| 0 <= j < scored.1@.len() ==> group_total(#[trigger] scored.1@[j]@) == 15,
        is_sorted_by(hand@, SortKey::PointValue) ==> group_views(scored.1@) == subsets_with_total(
            hand@,
            15,
        ),
{
    let fifteens = get_subset_sums(15, hand.as_slice());
    proof {
        lemma_subset_sums_count(15, hand@);
        lemma2_to64();
        if hand@.len() < 6 {
            lemma_pow2_strictly_increases(hand@.len(), 6);
        }
    }
    let score = (fifteens.len() as i8) * 2;
    (score, fifteens)
}

/// Finds four of a kind in a hand of five cards, by comparing the ends of the
/// first four cards and then of the last four. Returns the score, the group
/// if there is one, and the cards outside it.
pub fn score_quads(hand: &Vec<CribbageCard>) -> (scored: (
    i8,
    Vec<Vec<CribbageCard>>,
    Vec<CribbageCard>,
))
    requires
        hand@.len() == 5,
    ensures
        scored.0 == quad_score(hand@),
        group_views(scored.1@) == quad_groups(hand@),
        scored.2@ == quad_remainder(hand@),
{
    let mut results = Vec::<Vec<CribbageCard>>::new();
    let mut remainder = Vec::<CribbageCard>::new();
    let mut score: i8 = 0;

    if ranks_match(&hand[0], &hand[3]) {
        let group = vec![hand[0], hand[1], hand[2], hand[3]];
        assert(group@ =~= hand@.subrange(0, 4));
        results.push(group);
        remainder.push(hand[4]);
        score = 12;
    } else if ranks_match(&hand[1], &hand[4]) {
        let group = vec![hand[1], hand[2], hand[3], hand[4]];
        assert(group@ =~= hand@.subrange(1, 5));
        results.push(group);
        remainder.push(hand[0]);
        score = 12;
    } else {
        remainder = copy_hand(hand);
    }
    assert(group_views(results@) =~= quad_groups(hand@));
    assert(remainder@ =~= quad_remainder(hand@));
    (score, results, remainder)
}

/// Finds three of a kind: the first three cards in a row that begin and end
/// with the same rank. Returns the score, the group if there is one, and the
/// cards before and after it. The hand must hold no four of a kind any more.
pub fn score_triples(hand: &Vec<CribbageCard>) -> (scored: (
    i8,
    Vec<Vec<CribbageCard>>,
    Vec<CribbageCard>,
))
    requires
        !contains_quad(hand@),
    ensures
        scored.0 == triple_score(hand@),
        group_views(scored.1@) == triple_groups(hand@),
        scored.2@ == triple_remainder(hand@),
        scored.2@.len() <= hand@.len(),
{
    proof {
        lemma_triple_start(hand@, 0);
    }
    let mut results = Vec::<Vec<CribbageCard>>::new();
    let mut remainder = Vec::<CribbageCard>::new();

    // With fewer than three cards there is nothing to find.
    if hand.len() < 3 {
        assert(group_views(results@) =~= triple_groups(hand@));
        return (0, results, copy_hand(hand));
    }
    let mut start: usize = 0;
    let mut has_triple = false;

    let mut i: usize = 0;
    while i < hand.len() - 2
        invariant_except_break
            !has_triple,
            triple_start(hand@, i as int) == triple_start(hand@, 0),
        invariant
            hand@.len() >= 3,
            i <= hand@.len() - 2,
        ensures
            has_triple ==> start == triple_start(hand@, 0) && start + 2 < hand@.len(),
            !has_triple ==> triple_start(hand@, 0) == hand@.len(),
        decreases hand@.len() - i,
    {
        if ranks_match(&hand[i], &hand[i + 2]) {
            start = i;
            has_triple = true;
            break ;
        }
        i += 1;
    }

    // The cards outside the three of a kind are left over.
    if has_triple {
        let mut j: usize = 0;
        while j < start
            invariant
                j <= start < hand@.len(),
                remainder@ == hand@.take(j as int),
            decreases start - j,
        {
            remainder.push(hand[j]);
            j += 1;
            assert(remainder@ =~= hand@.take(j as int));
        }
        let mut k: usize = start + 3;
        while k < hand.len()
            invariant
                start + 3 <= k <= hand@.len(),
                remainder@ == hand@.take(start as int) + hand@.subrange(start + 3, k as int),
            decreases hand@.len() - k,
        {
            remainder.push(hand[k]);
            k += 1;
            assert(remainder@ =~= hand@.take(start as int) + hand@.subrange(
                start + 3,
                k as int,
            ));
        }
        let group = vec![hand[start], hand[start + 1], hand[start + 2]];
        assert(group@ =~= hand@.subrange(start as int, start + 3));
        results.push(group);
        assert(group_views(results@) =~= triple_groups(hand@));
        assert(remainder@ =~= triple_remainder(hand@));
        return (3, results, remainder);
    }
    assert(group_views(results@) =~= triple_groups(hand@));
    (0, results, copy_hand(hand))
}

/// Finds pairs by going through the hand once from the left: two neighbours
/// of the same rank make a pair. Returns the score, the pairs, and the cards
/// that are in none.
pub fn score_pairs(hand: &Vec<CribbageCard>) -> (scored: (
    i8,
    Vec<Vec<CribbageCard>>,
    Vec<CribbageCard>,
))
    requires
        hand@.len() <= i8::MAX,
    ensures
        scored.0 == pair_score(hand@),
        group_views(scored.1@) == pair_groups(hand@),
        scored.2@ == pair_remainder(hand@),
        2 * scored.1@.len() + scored.2@.len() == hand@.len(),
        forall|j: int|
            0 <= j < scored.1@.len() ==> (#[trigger] scored.1@[j])@.len() == 2 && same_rank(
                scored.1@[j]@[0],
                scored.1@[j]@[1],
            ),
{
    let mut results = Vec::<Vec<CribbageCard>>::new();
    let mut remainder = Vec::<CribbageCard>::new();
    let mut score: i8 = 0;

    let mut i: usize = 0;
    assert(group_views(results@) + pairs_scan(hand@, 0).0 =~= pair_groups(hand@));
    assert(remainder@ + pairs_scan(hand@, 0).1 =~= pair_remainder(hand@));
    while i < hand.len()
        invariant
            i <= hand@.len() <= i8::MAX,
            group_views(results@) + pairs_scan(hand@, i as int).0 == pair_groups(hand@),
            remainder@ + pairs_scan(hand@, i as int).1 == pair_remainder(hand@),
            score == 2 * results@.len(),
            2 * results@.len() <= i,
        decreases hand@.len() - i,
    {
        let ghost before_groups = group_views(results@);
        let ghost before_rest = remainder@;
        let ghost at = i as int;
        if i < hand.len() - 1 && ranks_match(&hand[i], &hand[i + 1]) {
            // Two neighbours of the same rank make a pair.
            let group = vec![hand[i], hand[i + 1]];
            assert(group@ =~= hand@.subrange(at, at + 2));
            results.push(group);
            score += 2;
            i += 2;
            assert(group_views(results@) =~= before_groups.push(hand@.subrange(at, at + 2)));
        } else {
            remainder.push(hand[i]);
            i += 1;
        }
        assert(group_views(results@) + pairs_scan(hand@, i as int).0 =~= before_groups
            + pairs_scan(hand@, at).0);
        assert(remainder@ + pairs_scan(hand@, i as int).1 =~= before_rest + pairs_scan(
            hand@,
            at,
        ).1);
    }
    proof {
        assert(group_views(results@) =~= pair_groups(hand@));
        assert(remainder@ =~= pair_remainder(hand@));
        lemma_pairs_count(hand@, 0);
        lemma_pairs_are_pairs(hand@, 0);
        assert forall|j: int| 0 <= j < results@.len() implies (#[trigger] results@[j])@.len() == 2
            && same_rank(results@[j]@[0], results@[j]@[1]) by {
            assert(results@[j]@ == group_views(results@)[j]);
        }
    }
    (score, results, remainder)
}

/// Finds the runs of a hand: stretches of three or more cards in which each
/// card is followed by the next rank up. Returns the score, the runs, and the
/// cards that are in none.
pub fn score_runs(hand: &Vec<CribbageCard>) -> (scored: (
    i8,
    Vec<Vec<CribbageCard>>,
    Vec<CribbageCard>,
))
    requires
        all_ranked(hand@),
        hand@.len() <= i8::MAX,
    ensures
        scored.0 == run_score(hand@),
        group_views(scored.1@) == run_groups(hand@),
        scored.2@ == run_remainder(hand@),
        forall|j: int|
            0 <= j < scored.1@.len() ==> (#[trigger] scored.1@[j])@.len() >= 3 && is_chain(
                scored.1@[j]@,
            ),
{
    let mut results = Vec::<Vec<CribbageCard>>::new();
    let mut remainder = Vec::<CribbageCard>::new();
    let mut score: usize = 0;

    if hand.len() < 3 {
        proof {
            lemma_runs_short_tail(hand@, 0, 0);
            assert(hand@.subrange(0, hand@.len() as int) =~= hand@);
            assert(group_views(results@) =~= Seq::<Seq<CribbageCard>>::empty());
        }
        return (0, results, copy_hand(hand));
    }
    let mut i: usize = 0;
    assert(group_views(results@) + runs_scan(hand@, 0, 0).0 =~= run_groups(hand@));
    assert(remainder@ + runs_scan(hand@, 0, 0).1 =~= run_remainder(hand@));
    while i < hand.len()
        invariant
            i <= hand@.len(),
            hand@.len() <= i8::MAX,
            all_ranked(hand@),
            group_views(results@) + runs_scan(hand@, i as int, i as int).0 == run_groups(hand@),
            remainder@ + runs_scan(hand@, i as int, i as int).1 == run_remainder(hand@),
            results@.len() == 0 ==> score == 0,
            results@.len() > 0 ==> score == results@.last()@.len(),
            score <= hand@.len(),
        decreases hand@.len() - i,
    {
        let ghost before_groups = group_views(results@);
        let ghost before_rest = remainder@;
        if hand.len() - i < 3 {
            // Too few cards are left for a run.
            proof {
                lemma_runs_short_tail(hand@, i as int, i as int);
                lemma_runs_short_tail(hand@, i + 1, i + 1);
                assert(hand@.subrange(i as int, hand@.len() as int) =~= seq![hand@[i as int]]
                    + hand@.subrange(i + 1, hand@.len() as int));
            }
            remainder.push(hand[i]);
            i += 1;
            assert(remainder@ + runs_scan(hand@, i as int, i as int).1 =~= before_rest
                + runs_scan(hand@, i - 1, i - 1).1);
        } else if !hand[i].directly_precedes(hand[i + 1]) {
            proof {
                assert(hand@.subrange(i as int, i + 1) =~= seq![hand@[i as int]]);
            }
            remainder.push(hand[i]);
            i += 1;
            assert(remainder@ + runs_scan(hand@, i as int, i as int).1 =~= before_rest
                + runs_scan(hand@, i - 1, i - 1).1);
        } else {
            let mut possible_run = Vec::<CribbageCard>::new();
            possible_run.push(hand[i]);
            let ghost first = i as int;
            assert(possible_run@ =~= hand@.subrange(first, i + 1));
            // Take cards for as long as each is followed by the next rank up.
            while hand[i].directly_precedes(hand[i + 1])
                invariant_except_break
                    i + 1 < hand@.len(),
                invariant
                    0 <= first <= i < hand@.len(),
                    hand@.len() <= i8::MAX,
                    all_ranked(hand@),
                    possible_run@ == hand@.subrange(first, i + 1),
                    runs_scan(hand@, first, i as int) == runs_scan(hand@, first, first),
                ensures
                    first <= i < hand@.len(),
                    possible_run@ == hand@.subrange(first, i + 1),
                    runs_scan(hand@, first, i as int) == runs_scan(hand@, first, first),
                    !(i + 1 < hand@.len() && precedes(hand@[i as int], hand@[i + 1])),
                decreases hand@.len() - i,
            {
                possible_run.push(hand[i + 1]);
                i += 1;
                assert(possible_run@ =~= hand@.subrange(first, i + 1));
                if i > hand.len() - 2 {
                    break ;
                }
            }
            // Keep the stretch if it is long enough to be a run.
            let l = possible_run.len();
            if l >= 3 {
                score = l;
                results.push(possible_run);
                assert(group_views(results@) =~= before_groups.push(
                    hand@.subrange(first, i + 1),
                ));
            } else {
                remainder.append(&mut possible_run);
            }
            i += 1;
            assert(group_views(results@) + runs_scan(hand@, i as int, i as int).0 =~= before_groups
                + runs_scan(hand@, first, first).0);
            assert(remainder@ + runs_scan(hand@, i as int, i as int).1 =~= before_rest + runs_scan(
                hand@,
                first,
                first,
            ).1);
        }
    }
    proof {
        assert(group_views(results@) =~= run_groups(hand@));
        assert(remainder@ =~= run_remainder(hand@));
        if results@.len() > 0 {
            assert(group_views(results@).last() == results@.last()@);
        }
        assert(hand@.subrange(0, 1).len() == 1);
        lemma_runs_are_chains(hand@, 0, 0);
        assert forall|j: int| 0 <= j < results@.len() implies (#[trigger] results@[j])@.len() >= 3
            && is_chain(results@[j]@) by {
            assert(results@[j]@ == group_views(results@)[j]);
        }
    }
    (score as i8, results, remainder)
}

/// Scores a flush: 5 for a hand whose cards are all of one suit, with the
/// hand as the one group. A hand of one card or of none is of one suit.
pub fn score_flush(hand: &Vec<CribbageCard>) -> (scored: (i8, Vec<Vec<CribbageCard>>))
    ensures
        scored.0 == flush_score(hand@),
        group_views(scored.1@) == flush_groups(hand@),
        hand@.len() <= 1 ==> scored.0 == 5 && group_views(scored.1@) == seq![hand@],
{
    let mut result = Vec::<Vec<CribbageCard>>::new();
    let mut i: usize = 1;
    while i < hand.len()
        invariant
            1 <= i,
            result@.len() == 0,
            forall|k: int| 0 <= k < i && k < hand@.len() ==> (#[trigger] hand@[k]).spec_suit()
                == hand@[0].spec_suit(),
        decreases hand@.len() - i,
    {
        if hand[i - 1].get_suit() != hand[i].get_suit() {
            assert(group_views(result@) =~= flush_groups(hand@));
            return (0, result);
        }
        i += 1;
    }
    result.push(copy_hand(hand));
    assert(group_views(result@) =~= seq![hand@]);
    (5, result)
}

/// Scores a hand of four cards with its cut card under the given rules, and
/// tells what each category found.
///
/// The five cards are put in the order of their point values for the
/// fifteens, and in the order of their ranks for the groups of a kind and
/// for the runs. Four of a kind are looked for first, three of a kind in
/// what they left, and pairs in what those left. A hand that does not hold
/// four cards is turned down, and so is one without a cut card, before
/// anything is scored.
pub fn score_hand_with(
    hand: &Vec<CribbageCard>,
    cut_card: Option<CribbageCard>,
    rules: ScoringRules,
) -> (outcome: Result<HandScore, ScoreError>)
    requires
        hand@.len() == 4 && cut_card is Some ==> all_ranked(full_hand(hand@, cut_card.unwrap())),
    ensures
        hand@.len() != 4 ==> outcome == Err::<HandScore, ScoreError>(ScoreError::WrongHandSize),
        hand@.len() == 4 && cut_card is None ==> outcome == Err::<HandScore, ScoreError>(
            ScoreError::MissingCutCard,
        ),
        hand@.len() == 4 && cut_card is Some ==> outcome is Ok && is_hand_score(
            hand@,
            cut_card.unwrap(),
            rules,
            outcome.unwrap(),
        ) && 0 <= outcome.unwrap().total,
{
    if hand.len() != 4 {
        return Err(ScoreError::WrongHandSize);
    }
    let cut = match cut_card {
        Some(card) => card,
        None => {
            return Err(ScoreError::MissingCutCard);
        },
    };
    let mut temp_hand = copy_hand(hand);
    temp_hand.push(cut);
    let counting = sort_hand(&temp_hand);
    let grouping = sort_hand_by(&temp_hand, SortKey::RankIndex);
    proof {
        lemma_sorted_by(temp_hand@, SortKey::PointValue);
        lemma_sorted_by(temp_hand@, SortKey::RankIndex);
    }
    let (fifteens_score, fifteens) = score_fifteens(&counting);
    let (quad_score, quads, quads_remainder) = score_quads(&grouping);
    assert(!contains_quad(quads_remainder@));
    let (triple_score, triples, triples_remainder) = score_triples(&quads_remainder);
    let (pair_score, pairs, _pairs_remainder) = score_pairs(&triples_remainder);
    let (run_score, runs, _runs_remainder) = score_runs(&grouping);
    let (flush_score, flushes) = match rules.flush {
        FlushScope::DealtCards => score_flush(hand),
        FlushScope::WithCutCard => score_flush(&temp_hand),
    };
    let total: i32 = match rules.mode {
        ScoringMode::AllCategories => fifteens_score as i32 + quad_score as i32
            + triple_score as i32 + pair_score as i32 + run_score as i32 + flush_score as i32,
        ScoringMode::FifteensOnly => fifteens_score as i32,
    };
    Ok(
        HandScore {
            total: total,
            fifteens: CategoryScore { score: fifteens_score, groups: fifteens },
            quads: CategoryScore { score: quad_score, groups: quads },
            triples: CategoryScore { score: triple_score, groups: triples },
            pairs: CategoryScore { score: pair_score, groups: pairs },
            runs: CategoryScore { score: run_score, groups: runs },
            flush: CategoryScore { score: flush_score, groups: flushes },
        },
    )
}

/// Scores a hand of four cards with its cut card as the game is played:
/// every category counts, and a flush takes all five cards.
pub fn score_hand(hand: &Vec<CribbageCard>, cut_card: CribbageCard) -> (total: i32)
    requires
        hand@.len() == 4,
        all_ranked(full_hand(hand@, cut_card)),
    ensures
        total == hand_total(hand@, cut_card, standard_rules()),
        0 <= total,
{
    match score_hand_with(hand, Some(cut_card), ScoringRules::default()) {
        Ok(account) => account.total,
        Err(_) => vstd::pervasive::unreached(),
    }
}

} // verus!
