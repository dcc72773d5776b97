//! Cards as cribbage counts them.

use crate::cards::{
    is_rank, pip_value, rank_index, rank_position, short_description, Card, PlayingCard, Suit,
};
use crate::cards::lemma_rank_symbols;
use vstd::prelude::*;

verus! {

/// What a rank counts for in cribbage: the ace is 1, the numerals stand for
/// themselves, and the jack, queen and king are 10 each.
pub open spec fn point_value(r: Seq<char>) -> int
    recommends
        is_rank(r),
{
    if pip_value(r) > 10 {
        10
    } else {
        pip_value(r)
    }
}

/// The first card is followed at once by the second in the order ace, two,
/// ..., king. The order has two ends: nothing follows the king, and the ace
/// follows nothing.
pub open spec fn precedes(a: CribbageCard, b: CribbageCard) -> bool {
    rank_index(b.spec_rank()) == rank_index(a.spec_rank()) + 1
}

/// A playing card with the value that cribbage gives it.
#[derive(Debug, Copy, Clone, Eq, PartialEq)]
pub struct CribbageCard(PlayingCard);

impl Card for CribbageCard {
    closed spec fn spec_rank(&self) -> Seq<char> {
        self.0.spec_rank()
    }

    closed spec fn spec_suit(&self) -> Suit {
        self.0.spec_suit()
    }

    open spec fn spec_value(&self) -> int {
        point_value(self.spec_rank())
    }

    fn new(rank: &'static str, suit: Suit) -> (card: CribbageCard) {
        CribbageCard(PlayingCard::new(rank, suit))
    }

    fn get_suit(&self) -> (suit: Suit) {
        self.0.get_suit()
    }

    fn get_rank(&self) -> (rank: &'static str) {
        self.0.get_rank()
    }

    fn get_value(&self) -> (value: i8) {
        let pips = self.0.get_value();
        if pips > 10 {
            10
        } else {
            pips
        }
    }
}

impl CribbageCard {
    /// Whether `other` is the next rank up from this card's. Both cards need
    /// a rank symbol of the deck.
    pub fn directly_precedes(&self, other: Self) -> (yes: bool)
        requires
            is_rank(self.spec_rank()),
            is_rank(other.spec_rank()),
        ensures
            yes == precedes(*self, other),
    {
        match (rank_position(self.get_rank()), rank_position(other.get_rank())) {
            (Some(this_position), Some(other_position)) => other_position == this_position + 1,
            _ => vstd::pervasive::unreached(),
        }
    }

    /// Whether `other` is the next rank down from this card's. Both cards
    /// need a rank symbol of the deck.
    pub fn directly_succeeds(&self, other: Self) -> (yes: bool)
        requires
            is_rank(self.spec_rank()),
            is_rank(other.spec_rank()),
        ensures
            yes == precedes(other, *self),
    {
        match (rank_position(self.get_rank()), rank_position(other.get_rank())) {
            (Some(this_position), Some(other_position)) => this_position == other_position + 1,
            _ => vstd::pervasive::unreached(),
        }
    }

    /// The card in its short form.
    pub fn to_string(&self) -> (text: String)
        ensures
            text@ == short_description(self.spec_rank(), self.spec_suit()),
    {
        self.get_short_description()
    }
}

/// The order of ranks does not wrap around: no card follows a king, and an
/// ace follows no card. A king beside an ace is therefore never a step of a
/// run, in either direction.
pub proof fn lemma_no_wraparound(a: CribbageCard, b: CribbageCard)
    requires
        is_rank(a.spec_rank()),
        is_rank(b.spec_rank()),
    ensures
        a.spec_rank() == "K"@ ==> !precedes(a, b),
        b.spec_rank() == "A"@ ==> !precedes(a, b),
        a.spec_rank() == "A"@ && b.spec_rank() == "K"@ ==> !precedes(a, b) && !precedes(b, a),
{
    lemma_rank_symbols();
}

/// Every card of the deck counts for at least 1 and at most 10.
pub proof fn lemma_point_value_bounds(r: Seq<char>)
    requires
        is_rank(r),
    ensures
        1 <= point_value(r) <= 10,
        point_value(r) <= rank_index(r) + 1,
{
}

} // verus!
