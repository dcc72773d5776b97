//! Four, three and two of a kind.

use crate::cards::{Card, is_rank};
use crate::cribbage_cards::CribbageCard;
use crate::cribbage_scoring::SortKey;
use crate::scoring_model::groups::{
    all_ranked, is_split_of, lemma_flatten_first, lemma_no_groups, same_rank,
};
use crate::scoring_model::order::{is_sorted_by, key_of};
use vstd::seq_lib::lemma_multiset_commutative;
use vstd::prelude::*;

verus! {

/// Some four cards in a row begin and end with the same rank.
pub open spec fn contains_quad(hand: Seq<CribbageCard>) -> bool {
    exists|i: int| 0 <= i && i + 3 < hand.len() && #[trigger] same_rank(hand[i], hand[i + 3])
}

/// The four of a kind of a hand of five cards, if it has one. In a hand in
/// which equal ranks lie together, four of a kind are the first four cards
/// or the last four, so the two ends of each of these stretches are compared.
/// The first four are looked at first, and at most one group is found.
pub open spec fn quad_groups(hand: Seq<CribbageCard>) -> Seq<Seq<CribbageCard>>
    recommends
        hand.len() == 5,
{
    if same_rank(hand[0], hand[3]) {
        seq![hand.subrange(0, 4)]
    } else if same_rank(hand[1], hand[4]) {
        seq![hand.subrange(1, 5)]
    } else {
        Seq::empty()
    }
}

/// The cards of a hand of five that are not in its four of a kind: the one
/// other card, or the whole hand.
pub open spec fn quad_remainder(hand: Seq<CribbageCard>) -> Seq<CribbageCard>
    recommends
        hand.len() == 5,
{
    if same_rank(hand[0], hand[3]) {
        seq![hand[4]]
    } else if same_rank(hand[1], hand[4]) {
        seq![hand[0]]
    } else {
        hand
    }
}

/// Four of a kind score 12.
pub open spec fn quad_score(hand: Seq<CribbageCard>) -> int
    recommends
        hand.len() == 5,
{
    12 * quad_groups(hand).len() as int
}

/// The first place at or after `from` where three cards in a row begin and
/// end with the same rank; the length of the hand if there is none.
pub open spec fn triple_start(hand: Seq<CribbageCard>, from: int) -> int
    decreases hand.len() - from,
{
    if from < 0 || from + 2 >= hand.len() {
        hand.len() as int
    } else if same_rank(hand[from], hand[from + 2]) {
        from
    } else {
        triple_start(hand, from + 1)
    }
}

/// The three of a kind of a hand: the first three cards in a row that begin
/// and end with the same rank, if there are any.
pub open spec fn triple_groups(hand: Seq<CribbageCard>) -> Seq<Seq<CribbageCard>> {
    let t = triple_start(hand, 0);
    if t < hand.len() {
        seq![hand.subrange(t, t + 3)]
    } else {
        Seq::empty()
    }
}

/// The cards before and after the three of a kind, or the whole hand.
pub open spec fn triple_remainder(hand: Seq<CribbageCard>) -> Seq<CribbageCard> {
    let t = triple_start(hand, 0);
    if t < hand.len() {
        hand.take(t) + hand.skip(t + 3)
    } else {
        hand
    }
}

/// Three of a kind score 3.
pub open spec fn triple_score(hand: Seq<CribbageCard>) -> int {
    3 * triple_groups(hand).len() as int
}

/// The pairs and the leftover cards of the hand from place `i` on. Going
/// through the hand from the left, two neighbours of the same rank make a
/// pair and are both passed over; any other card is left over.
pub open spec fn pairs_scan(hand: Seq<CribbageCard>, i: int) -> (
    Seq<Seq<CribbageCard>>,
    Seq<CribbageCard>,
)
    decreases hand.len() - i,
{
    if i < 0 || i >= hand.len() {
        (Seq::empty(), Seq::empty())
    } else if i + 1 < hand.len() && same_rank(hand[i], hand[i + 1]) {
        let tail = pairs_scan(hand, i + 2);
        (seq![hand.subrange(i, i + 2)] + tail.0, tail.1)
    } else {
        let tail = pairs_scan(hand, i + 1);
        (tail.0, seq![hand[i]] + tail.1)
    }
}

/// The pairs of a hand, in the order in which they lie in it.
pub open spec fn pair_groups(hand: Seq<CribbageCard>) -> Seq<Seq<CribbageCard>> {
    pairs_scan(hand, 0).0
}

/// The cards of a hand that are in no pair, in the order of the hand.
pub open spec fn pair_remainder(hand: Seq<CribbageCard>) -> Seq<CribbageCard> {
    pairs_scan(hand, 0).1
}

/// Each pair scores 2.
pub open spec fn pair_score(hand: Seq<CribbageCard>) -> int {
    2 * pair_groups(hand).len() as int
}

/// The pairs found from place `i` on use up two cards each.
pub proof fn lemma_pairs_count(hand: Seq<CribbageCard>, i: int)
    requires
        0 <= i <= hand.len(),
    ensures
        2 * pairs_scan(hand, i).0.len() + pairs_scan(hand, i).1.len() == hand.len() - i,
    decreases hand.len() - i,
{
    if i >= hand.len() {
    } else if i + 1 < hand.len() && same_rank(hand[i], hand[i + 1]) {
        lemma_pairs_count(hand, i + 2);
    } else {
        lemma_pairs_count(hand, i + 1);
    }
}

/// The first three of a kind starts in the hand, and no three cards before
/// it begin and end with the same rank.
pub proof fn lemma_triple_start(hand: Seq<CribbageCard>, from: int)
    requires
        0 <= from,
    ensures
        from <= triple_start(hand, from) || triple_start(hand, from) == hand.len(),
        triple_start(hand, from) <= hand.len(),
        triple_start(hand, from) < hand.len() ==> triple_start(hand, from) + 2 < hand.len()
            && same_rank(hand[triple_start(hand, from)], hand[triple_start(hand, from) + 2]),
        forall|i: int|
            from <= i < triple_start(hand, from) && i + 2 < hand.len() ==> !#[trigger] same_rank(
                hand[i],
                hand[i + 2],
            ),
    decreases hand.len() - from,
{
    if from + 2 < hand.len() && !same_rank(hand[from], hand[from + 2]) {
        lemma_triple_start(hand, from + 1);
    }
}

/// Every pair is two cards of one rank.
pub proof fn lemma_pairs_are_pairs(hand: Seq<CribbageCard>, i: int)
    requires
        0 <= i,
    ensures
        forall|j: int|
            0 <= j < pairs_scan(hand, i).0.len() ==> (#[trigger] pairs_scan(hand, i).0[j]).len()
                == 2 && same_rank(pairs_scan(hand, i).0[j][0], pairs_scan(hand, i).0[j][1]),
    decreases hand.len() - i,
{
    let found = pairs_scan(hand, i).0;
    if i >= hand.len() {
        assert(found.len() == 0);
    } else if i + 1 < hand.len() && same_rank(hand[i], hand[i + 1]) {
        lemma_pairs_are_pairs(hand, i + 2);
        let tail = pairs_scan(hand, i + 2).0;
        let pair = hand.subrange(i, i + 2);
        assert(found =~= seq![pair] + tail);
        assert forall|j: int| 0 <= j < found.len() implies (#[trigger] found[j]).len() == 2
            && same_rank(found[j][0], found[j][1]) by {
            if j > 0 {
                assert(found[j] == tail[j - 1]);
            } else {
                assert(found[j] == pair);
                assert(pair[0] == hand[i] && pair[1] == hand[i + 1]);
            }
        }
    } else {
        lemma_pairs_are_pairs(hand, i + 1);
        assert(found == pairs_scan(hand, i + 1).0);
    }
}

/// All the cards of the hand are of the same rank, but perhaps the one at
/// the place `odd`.
pub open spec fn alike_but(hand: Seq<CribbageCard>, odd: int) -> bool {
    &&& 0 <= odd < hand.len()
    &&& forall|i: int, j: int|
        0 <= i < hand.len() && 0 <= j < hand.len() && i != odd && j != odd ==> same_rank(
            #[trigger] hand[i],
            #[trigger] hand[j],
        )
}

/// All the cards of the hand but at most one are of the same rank.
pub open spec fn four_alike(hand: Seq<CribbageCard>) -> bool {
    exists|odd: int| #[trigger] alike_but(hand, odd)
}

/// Four of a kind are found once and by nothing else: in a hand of five
/// cards in the order of their ranks, four of which are of one rank, there is
/// one group of four cards of that rank, worth 12; one card is left, and in
/// it neither three of a kind nor a pair is found.
pub proof fn lemma_quad_is_exclusive(hand: Seq<CribbageCard>)
    requires
        hand.len() == 5,
        all_ranked(hand),
        is_sorted_by(hand, SortKey::RankIndex),
        four_alike(hand),
    ensures
        quad_groups(hand).len() == 1,
        quad_groups(hand)[0].len() == 4,
        forall|i: int, j: int|
            0 <= i < 4 && 0 <= j < 4 ==> same_rank(
                #[trigger] quad_groups(hand)[0][i],
                #[trigger] quad_groups(hand)[0][j],
            ),
        quad_score(hand) == 12,
        quad_remainder(hand).len() == 1,
        triple_groups(quad_remainder(hand)) == Seq::<Seq<CribbageCard>>::empty(),
        triple_remainder(quad_remainder(hand)) == quad_remainder(hand),
        pair_groups(triple_remainder(quad_remainder(hand))) == Seq::<Seq<CribbageCard>>::empty(),
{
    let odd = choose|odd: int| #[trigger] alike_but(hand, odd);
    let k0 = key_of(hand[0], SortKey::RankIndex);
    let k1 = key_of(hand[1], SortKey::RankIndex);
    let k2 = key_of(hand[2], SortKey::RankIndex);
    let k3 = key_of(hand[3], SortKey::RankIndex);
    let k4 = key_of(hand[4], SortKey::RankIndex);
    assert(k0 <= k1 <= k2 <= k3 <= k4);
    assert(is_rank(hand[0].spec_rank()) && is_rank(hand[1].spec_rank()) && is_rank(
        hand[2].spec_rank(),
    ) && is_rank(hand[3].spec_rank()) && is_rank(hand[4].spec_rank()));
    if odd == 0 {
        assert(same_rank(hand[1], hand[4]) && same_rank(hand[1], hand[2]) && same_rank(
            hand[1],
            hand[3],
        ));
    } else if odd == 4 {
        assert(same_rank(hand[0], hand[3]) && same_rank(hand[0], hand[1]) && same_rank(
            hand[0],
            hand[2],
        ));
    } else {
        assert(same_rank(hand[0], hand[4]));
        assert(k0 == k1 && k1 == k2 && k2 == k3 && k3 == k4);
    }
    let rest = quad_remainder(hand);
    assert(rest.len() == 1);
    assert(triple_start(rest, 0) == rest.len());
    assert(pairs_scan(rest, 1).0 =~= Seq::<Seq<CribbageCard>>::empty());
    assert(pairs_scan(rest, 0).0 =~= Seq::<Seq<CribbageCard>>::empty());
    let group = quad_groups(hand)[0];
    assert forall|i: int, j: int| 0 <= i < 4 && 0 <= j < 4 implies same_rank(
        #[trigger] group[i],
        #[trigger] group[j],
    ) by {
        if same_rank(hand[0], hand[3]) {
            assert(group[i] == hand[i] && group[j] == hand[j]);
            assert(k0 == k3);
        } else {
            assert(group[i] == hand[i + 1] && group[j] == hand[j + 1]);
            assert(k1 == k4);
        }
    }
}

/// The pairs and the leftover cards are the cards of the hand.
pub proof fn lemma_pairs_split(hand: Seq<CribbageCard>, i: int)
    requires
        0 <= i <= hand.len(),
    ensures
        is_split_of(hand.skip(i), pairs_scan(hand, i).0, pairs_scan(hand, i).1),
    decreases hand.len() - i,
{
    broadcast use vstd::multiset::group_multiset_axioms;

    let groups = pairs_scan(hand, i).0;
    let rest = pairs_scan(hand, i).1;
    if i >= hand.len() {
        assert(groups =~= Seq::<Seq<CribbageCard>>::empty());
        assert(hand.skip(i) =~= rest);
        lemma_no_groups(rest);
    } else if i + 1 < hand.len() && same_rank(hand[i], hand[i + 1]) {
        let pair = hand.subrange(i, i + 2);
        let tail = pairs_scan(hand, i + 2);
        lemma_pairs_split(hand, i + 2);
        lemma_flatten_first(pair, tail.0);
        lemma_multiset_commutative(pair, tail.0.flatten());
        lemma_multiset_commutative(pair, hand.skip(i + 2));
        assert(hand.skip(i) =~= pair + hand.skip(i + 2));
        assert(groups.flatten().to_multiset().add(rest.to_multiset()) =~= hand.skip(
            i,
        ).to_multiset());
    } else {
        let single = seq![hand[i]];
        let tail = pairs_scan(hand, i + 1);
        lemma_pairs_split(hand, i + 1);
        lemma_multiset_commutative(single, tail.1);
        lemma_multiset_commutative(single, hand.skip(i + 1));
        assert(hand.skip(i) =~= single + hand.skip(i + 1));
        assert(groups.flatten().to_multiset().add(rest.to_multiset()) =~= hand.skip(
            i,
        ).to_multiset());
    }
}

/// The three of a kind and the leftover cards are the cards of the hand.
pub proof fn lemma_triples_split(hand: Seq<CribbageCard>)
    ensures
        is_split_of(hand, triple_groups(hand), triple_remainder(hand)),
{
    broadcast use vstd::multiset::group_multiset_axioms;

    lemma_triple_start(hand, 0);
    let t = triple_start(hand, 0);
    let groups = triple_groups(hand);
    let rest = triple_remainder(hand);
    if t < hand.len() {
        let triple = hand.subrange(t, t + 3);
        lemma_flatten_first(triple, Seq::empty());
        assert(groups =~= seq![triple] + Seq::<Seq<CribbageCard>>::empty());
        assert(triple + Seq::<CribbageCard>::empty() =~= triple);
        lemma_multiset_commutative(hand.take(t), hand.skip(t + 3));
        lemma_multiset_commutative(hand.take(t), triple + hand.skip(t + 3));
        lemma_multiset_commutative(triple, hand.skip(t + 3));
        assert(hand =~= hand.take(t) + (triple + hand.skip(t + 3)));
        assert(groups.flatten().to_multiset().add(rest.to_multiset()) =~= hand.to_multiset());
    } else {
        lemma_no_groups(hand);
    }
}

/// The four of a kind and the leftover cards are the cards of the hand.
pub proof fn lemma_quads_split(hand: Seq<CribbageCard>)
    requires
        hand.len() == 5,
    ensures
        is_split_of(hand, quad_groups(hand), quad_remainder(hand)),
{
    broadcast use vstd::multiset::group_multiset_axioms;

    let groups = quad_groups(hand);
    let rest = quad_remainder(hand);
    if same_rank(hand[0], hand[3]) {
        let quad = hand.subrange(0, 4);
        lemma_flatten_first(quad, Seq::empty());
        assert(groups =~= seq![quad] + Seq::<Seq<CribbageCard>>::empty());
        assert(quad + Seq::<CribbageCard>::empty() =~= quad);
        lemma_multiset_commutative(quad, rest);
        assert(hand =~= quad + rest);
    } else if same_rank(hand[1], hand[4]) {
        let quad = hand.subrange(1, 5);
        lemma_flatten_first(quad, Seq::empty());
        assert(groups =~= seq![quad] + Seq::<Seq<CribbageCard>>::empty());
        assert(quad + Seq::<CribbageCard>::empty() =~= quad);
        lemma_multiset_commutative(rest, quad);
        assert(hand =~= rest + quad);
        assert(groups.flatten().to_multiset().add(rest.to_multiset()) =~= hand.to_multiset());
    } else {
        lemma_no_groups(hand);
    }
}

} // verus!
