//! Runs: stretches of a hand in which each card is followed by the next
//! rank up.

use crate::cards::{Card, is_rank, lemma_rank_symbols};
use crate::cribbage_cards::{CribbageCard, precedes};
use crate::scoring_model::groups::{all_ranked, is_split_of, lemma_flatten_first, lemma_no_groups};
use vstd::seq_lib::lemma_multiset_commutative;
use vstd::prelude::*;

verus! {

/// Each card of the sequence is followed by the next rank up.
pub open spec fn is_chain(cards: Seq<CribbageCard>) -> bool {
    forall|k: int| 0 <= k && k + 1 < cards.len() ==> #[trigger] precedes(cards[k], cards[k + 1])
}

/// The runs and the leftover cards of the hand from place `start` on, when
/// the cards from `start` up to `i` are known to form a chain.
///
/// The hand falls into stretches that cannot be made longer: a stretch ends
/// where the hand ends or where the next card is not the next rank up. A
/// stretch of three cards or more is a run; the cards of a shorter one are
/// left over.
pub open spec fn runs_scan(hand: Seq<CribbageCard>, start: int, i: int) -> (
    Seq<Seq<CribbageCard>>,
    Seq<CribbageCard>,
)
    decreases hand.len() - i,
{
    if start < 0 || i < start || i >= hand.len() {
        (Seq::empty(), Seq::empty())
    } else if i + 1 < hand.len() && precedes(hand[i], hand[i + 1]) {
        runs_scan(hand, start, i + 1)
    } else {
        let stretch = hand.subrange(start, i + 1);
        let tail = runs_scan(hand, i + 1, i + 1);
        if stretch.len() >= 3 {
            (seq![stretch] + tail.0, tail.1)
        } else {
            (tail.0, stretch + tail.1)
        }
    }
}

/// The runs of a hand, in the order in which they lie in it.
pub open spec fn run_groups(hand: Seq<CribbageCard>) -> Seq<Seq<CribbageCard>> {
    runs_scan(hand, 0, 0).0
}

/// The cards of a hand that are in no run, in the order of the hand.
pub open spec fn run_remainder(hand: Seq<CribbageCard>) -> Seq<CribbageCard> {
    runs_scan(hand, 0, 0).1
}

/// A run scores one point for each of its cards. Where a hand holds several
/// runs, the last of them gives the score.
pub open spec fn run_score(hand: Seq<CribbageCard>) -> int {
    let runs = run_groups(hand);
    if runs.len() == 0 {
        0
    } else {
        runs.last().len() as int
    }
}

/// Fewer than three cards make no run: they are all left over.
pub proof fn lemma_runs_short_tail(hand: Seq<CribbageCard>, start: int, i: int)
    requires
        0 <= start <= i <= hand.len(),
        i < hand.len() || start == hand.len(),
        hand.len() - start < 3,
    ensures
        runs_scan(hand, start, i) == (
            Seq::<Seq<CribbageCard>>::empty(),
            hand.subrange(start, hand.len() as int),
        ),
    decreases hand.len() - i,
{
    if i >= hand.len() {
        assert(hand.subrange(start, hand.len() as int) =~= Seq::<CribbageCard>::empty());
    } else if i + 1 < hand.len() && precedes(hand[i], hand[i + 1]) {
        lemma_runs_short_tail(hand, start, i + 1);
    } else {
        lemma_runs_short_tail(hand, i + 1, i + 1);
        assert(hand.subrange(start, i + 1) + hand.subrange(i + 1, hand.len() as int)
            =~= hand.subrange(start, hand.len() as int));
    }
}

/// Every run has three cards or more, each followed by the next rank up,
/// and holds cards of the hand only.
pub proof fn lemma_runs_are_chains(hand: Seq<CribbageCard>, start: int, i: int)
    requires
        0 <= start <= i < hand.len(),
        is_chain(hand.subrange(start, i + 1)),
    ensures
        forall|j: int|
            0 <= j < runs_scan(hand, start, i).0.len() ==> (#[trigger] runs_scan(
                hand,
                start,
                i,
            ).0[j]).len() >= 3 && is_chain(runs_scan(hand, start, i).0[j]) && (all_ranked(hand)
                ==> all_ranked(runs_scan(hand, start, i).0[j])),
    decreases hand.len() - i,
{
    let found = runs_scan(hand, start, i).0;
    if i + 1 < hand.len() && precedes(hand[i], hand[i + 1]) {
        let longer = hand.subrange(start, i + 2);
        let shorter = hand.subrange(start, i + 1);
        assert forall|k: int| 0 <= k && k + 1 < longer.len() implies #[trigger] precedes(
            longer[k],
            longer[k + 1],
        ) by {
            if k + 1 < shorter.len() {
                assert(precedes(shorter[k], shorter[k + 1]));
            }
        }
        lemma_runs_are_chains(hand, start, i + 1);
        assert(found == runs_scan(hand, start, i + 1).0);
    } else {
        let stretch = hand.subrange(start, i + 1);
        let tail = runs_scan(hand, i + 1, i + 1).0;
        if i + 1 < hand.len() {
            assert(hand.subrange(i + 1, i + 2).len() == 1);
            lemma_runs_are_chains(hand, i + 1, i + 1);
        }
        assert forall|j: int| 0 <= j < found.len() implies (#[trigger] found[j]).len() >= 3
            && is_chain(found[j]) && (all_ranked(hand) ==> all_ranked(found[j])) by {
            if stretch.len() >= 3 {
                assert(found =~= seq![stretch] + tail);
                if j > 0 {
                    assert(found[j] == tail[j - 1]);
                } else {
                    assert(found[j] == stretch);
                    if all_ranked(hand) {
                        assert forall|k: int| 0 <= k < stretch.len() implies is_rank(
                            #[trigger] stretch[k].spec_rank(),
                        ) by {
                            assert(stretch[k] == hand[start + k]);
                        }
                    }
                }
            } else {
                assert(found == tail);
            }
        }
    }
}

/// A hand that is one unbroken sequence is found as one run.
proof fn lemma_chain_is_one_run(hand: Seq<CribbageCard>, i: int)
    requires
        hand.len() >= 3,
        is_chain(hand),
        0 <= i < hand.len(),
    ensures
        runs_scan(hand, 0, i) == (seq![hand], Seq::<CribbageCard>::empty()),
    decreases hand.len() - i,
{
    if i + 1 < hand.len() {
        assert(precedes(hand[i], hand[i + 1]));
        lemma_chain_is_one_run(hand, i + 1);
        assert(runs_scan(hand, 0, i) == runs_scan(hand, 0, i + 1));
    } else {
        let tail = runs_scan(hand, i + 1, i + 1);
        assert(tail.0 =~= Seq::<Seq<CribbageCard>>::empty());
        assert(tail.1 =~= Seq::<CribbageCard>::empty());
        assert(hand.subrange(0, i + 1) =~= hand);
        assert(runs_scan(hand, 0, i).0 =~= seq![hand]);
        assert(runs_scan(hand, 0, i).1 =~= Seq::<CribbageCard>::empty());
    }
}

/// Runs are as long as they can be: a hand of three or more cards in which
/// each card is followed by the next rank up is one run, the whole hand, and
/// is not cut into shorter runs.
pub proof fn lemma_whole_hand_run(hand: Seq<CribbageCard>)
    requires
        hand.len() >= 3,
        is_chain(hand),
    ensures
        run_groups(hand) == seq![hand],
        run_remainder(hand) == Seq::<CribbageCard>::empty(),
        run_score(hand) == hand.len(),
{
    lemma_chain_is_one_run(hand, 0);
}

/// No run holds a king followed by another card, nor an ace that follows
/// one: a king and an ace side by side are never part of the same run.
pub proof fn lemma_no_run_wraps(hand: Seq<CribbageCard>, j: int, k: int)
    requires
        all_ranked(hand),
        0 <= j < run_groups(hand).len(),
        0 <= k,
        k + 1 < run_groups(hand)[j].len(),
    ensures
        run_groups(hand)[j][k].spec_rank() != "K"@,
        run_groups(hand)[j][k + 1].spec_rank() != "A"@,
{
    if hand.len() > 0 {
        assert(hand.subrange(0, 1).len() == 1);
        lemma_runs_are_chains(hand, 0, 0);
        let run = run_groups(hand)[j];
        assert(precedes(run[k], run[k + 1]));
        assert(is_rank(run[k].spec_rank()) && is_rank(run[k + 1].spec_rank()));
        lemma_rank_symbols();
    }
}

/// The runs and the leftover cards are the cards of the hand.
pub proof fn lemma_runs_split(hand: Seq<CribbageCard>, start: int, i: int)
    requires
        0 <= start <= i <= hand.len(),
        i < hand.len() || start == hand.len(),
    ensures
        is_split_of(hand.skip(start), runs_scan(hand, start, i).0, runs_scan(hand, start, i).1),
    decreases hand.len() - i,
{
    broadcast use vstd::multiset::group_multiset_axioms;

    let groups = runs_scan(hand, start, i).0;
    let rest = runs_scan(hand, start, i).1;
    if i >= hand.len() {
        assert(groups =~= Seq::<Seq<CribbageCard>>::empty());
        assert(hand.skip(start) =~= rest);
        lemma_no_groups(rest);
    } else if i + 1 < hand.len() && precedes(hand[i], hand[i + 1]) {
        lemma_runs_split(hand, start, i + 1);
    } else {
        let stretch = hand.subrange(start, i + 1);
        let tail = runs_scan(hand, i + 1, i + 1);
        lemma_runs_split(hand, i + 1, i + 1);
        lemma_multiset_commutative(stretch, hand.skip(i + 1));
        assert(hand.skip(start) =~= stretch + hand.skip(i + 1));
        if stretch.len() >= 3 {
            lemma_flatten_first(stretch, tail.0);
            lemma_multiset_commutative(stretch, tail.0.flatten());
        } else {
            lemma_multiset_commutative(stretch, tail.1);
        }
        assert(groups.flatten().to_multiset().add(rest.to_multiset()) =~= hand.skip(
            start,
        ).to_multiset());
    }
}

/// The cards from place `from` up to, but not with, place `to` are a stretch
/// of the hand that cannot be made longer: each is followed by the next rank
/// up, the card before the stretch is not followed by its first card, and its
/// last card is not followed by the card after it.
pub open spec fn is_stretch(hand: Seq<CribbageCard>, from: int, to: int) -> bool {
    &&& 0 <= from < to <= hand.len()
    &&& forall|k: int| from <= k && k + 1 < to ==> #[trigger] precedes(hand[k], hand[k + 1])
    &&& (from == 0 || !precedes(hand[from - 1], hand[from]))
    &&& (to == hand.len() || !precedes(hand[to - 1], hand[to]))
}

/// The group is a stretch of three or more cards, from place `from` to place
/// `to`, that cannot be made longer.
pub open spec fn is_run_at(
    hand: Seq<CribbageCard>,
    group: Seq<CribbageCard>,
    from: int,
    to: int,
) -> bool {
    is_stretch(hand, from, to) && to - from >= 3 && group == hand.subrange(from, to)
}

/// The group is a run of the hand: one of its stretches of three or more
/// cards that cannot be made longer.
pub open spec fn is_run_of(hand: Seq<CribbageCard>, group: Seq<CribbageCard>) -> bool {
    exists|from: int, to: int| #[trigger] is_run_at(hand, group, from, to)
}

/// While the scan stands in a stretch that began at `start`, it reports every
/// run that lies at or behind `start`.
proof fn lemma_scan_finds_run(hand: Seq<CribbageCard>, start: int, i: int, from: int, to: int)
    requires
        0 <= start <= i < hand.len(),
        start == 0 || !precedes(hand[start - 1], hand[start]),
        forall|k: int| start <= k < i ==> #[trigger] precedes(hand[k], hand[k + 1]),
        start <= from,
        is_stretch(hand, from, to),
        to - from >= 3,
    ensures
        runs_scan(hand, start, i).0.contains(hand.subrange(from, to)),
    decreases hand.len() - i,
{
    let found = runs_scan(hand, start, i).0;
    if i + 1 < hand.len() && precedes(hand[i], hand[i + 1]) {
        lemma_scan_finds_run(hand, start, i + 1, from, to);
        assert(found == runs_scan(hand, start, i + 1).0);
    } else {
        let tail = runs_scan(hand, i + 1, i + 1).0;
        if from == start {
            if to < i + 1 {
                let k = to - 1;
                assert(precedes(hand[k], hand[k + 1]));
            }
            if to > i + 1 {
                assert(precedes(hand[i], hand[i + 1]));
            }
            assert(found[0] == hand.subrange(from, to));
        } else {
            if from <= i {
                let k = from - 1;
                assert(precedes(hand[k], hand[k + 1]));
            }
            lemma_scan_finds_run(hand, i + 1, i + 1, from, to);
            let at = choose|at: int| 0 <= at < tail.len() && tail[at] == hand.subrange(from, to);
            if hand.subrange(start, i + 1).len() >= 3 {
                assert(found[at + 1] == tail[at]);
            } else {
                assert(found[at] == tail[at]);
            }
        }
    }
}

/// While the scan stands in a stretch that began at `start`, whatever it
/// reports is a run that lies at or behind `start`.
proof fn lemma_scan_finds_runs_only(hand: Seq<CribbageCard>, start: int, i: int)
    requires
        0 <= start <= i < hand.len(),
        start == 0 || !precedes(hand[start - 1], hand[start]),
        forall|k: int| start <= k < i ==> #[trigger] precedes(hand[k], hand[k + 1]),
    ensures
        forall|j: int|
            0 <= j < runs_scan(hand, start, i).0.len() ==> is_run_of(
                hand,
                #[trigger] runs_scan(hand, start, i).0[j],
            ),
    decreases hand.len() - i,
{
    let found = runs_scan(hand, start, i).0;
    if i + 1 < hand.len() && precedes(hand[i], hand[i + 1]) {
        lemma_scan_finds_runs_only(hand, start, i + 1);
        assert(found == runs_scan(hand, start, i + 1).0);
    } else {
        let tail = runs_scan(hand, i + 1, i + 1).0;
        let long = hand.subrange(start, i + 1).len() >= 3;
        if i + 1 < hand.len() {
            lemma_scan_finds_runs_only(hand, i + 1, i + 1);
        }
        assert forall|j: int| 0 <= j < found.len() implies is_run_of(hand, #[trigger] found[j]) by {
            if long && j == 0 {
                assert(is_run_at(hand, found[j], start, i + 1));
            } else {
                let at = if long {
                    j - 1
                } else {
                    j
                };
                assert(found[j] == tail[at]);
                let (from, to) = choose|from: int, to: int|
                    #[trigger] is_run_at(hand, tail[at], from, to);
                assert(is_run_at(hand, found[j], from, to));
            }
        }
    }
}

/// The runs of a hand are its stretches of three or more cards that cannot
/// be made longer: every such stretch is among the runs, and every run is
/// such a stretch.
pub proof fn lemma_runs_are_the_long_stretches(hand: Seq<CribbageCard>)
    ensures
        forall|from: int, to: int|
            #[trigger] is_stretch(hand, from, to) && to - from >= 3 ==> run_groups(hand).contains(
                hand.subrange(from, to),
            ),
        forall|j: int|
            0 <= j < run_groups(hand).len() ==> is_run_of(hand, #[trigger] run_groups(hand)[j]),
{
    if hand.len() > 0 {
        lemma_scan_finds_runs_only(hand, 0, 0);
        assert forall|from: int, to: int|
            #[trigger] is_stretch(hand, from, to) && to - from >= 3 implies run_groups(
            hand,
        ).contains(hand.subrange(from, to)) by {
            lemma_scan_finds_run(hand, 0, 0, from, to);
        }
    }
}

} // verus!
