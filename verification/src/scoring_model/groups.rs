//! What all the detectors share: hands whose cards have ranks of the deck,
//! groups of cards, and the flush, which needs nothing else.

use crate::cards::{Card, is_rank};
use crate::cribbage_cards::CribbageCard;
use vstd::seq_lib::lemma_multiset_commutative;
use vstd::prelude::*;

verus! {

/// Every card of the hand has one of the thirteen rank symbols.
pub open spec fn all_ranked(hand: Seq<CribbageCard>) -> bool {
    forall|i: int| 0 <= i < hand.len() ==> is_rank(#[trigger] hand[i].spec_rank())
}

/// Two cards are grouped together by their rank symbols, whatever they count
/// for.
pub open spec fn same_rank(a: CribbageCard, b: CribbageCard) -> bool {
    a.spec_rank() == b.spec_rank()
}

/// The groups of cards that a list of vectors holds.
pub open spec fn group_views(groups: Seq<Vec<CribbageCard>>) -> Seq<Seq<CribbageCard>> {
    groups.map_values(|g: Vec<CribbageCard>| g@)
}

/// All the cards are of one suit.
pub open spec fn all_same_suit(hand: Seq<CribbageCard>) -> bool {
    forall|i: int, j: int|
        0 <= i < hand.len() && 0 <= j < hand.len() ==> (#[trigger] hand[i]).spec_suit() == (
        #[trigger] hand[j]).spec_suit()
}

/// A flush is the whole hand, when it is of one suit.
pub open spec fn flush_groups(hand: Seq<CribbageCard>) -> Seq<Seq<CribbageCard>> {
    if all_same_suit(hand) {
        seq![hand]
    } else {
        Seq::empty()
    }
}

/// A flush scores 5.
pub open spec fn flush_score(hand: Seq<CribbageCard>) -> int {
    5 * flush_groups(hand).len() as int
}

/// The groups and the leftover cards together hold the cards of the hand,
/// each as often as the hand holds it: no card is in two groups, none is
/// both in a group and left over, and none is lost.
pub open spec fn is_split_of(
    hand: Seq<CribbageCard>,
    groups: Seq<Seq<CribbageCard>>,
    rest: Seq<CribbageCard>,
) -> bool {
    groups.flatten().to_multiset().add(rest.to_multiset()) == hand.to_multiset()
}

/// The cards of a list of groups that begins with `first`.
pub(crate) proof fn lemma_flatten_first(first: Seq<CribbageCard>, others: Seq<Seq<CribbageCard>>)
    ensures
        (seq![first] + others).flatten() == first + others.flatten(),
{
    let all = seq![first] + others;
    assert(all.first() == first);
    assert(all.drop_first() =~= others);
}

/// Where there are no groups, every card is left over.
pub(crate) proof fn lemma_no_groups(rest: Seq<CribbageCard>)
    ensures
        is_split_of(rest, Seq::empty(), rest),
{
    let none = Seq::<CribbageCard>::empty();
    lemma_multiset_commutative(none, rest);
    assert(none + rest =~= rest);
    assert(Seq::<Seq<CribbageCard>>::empty().flatten() =~= none);
}

} // verus!
