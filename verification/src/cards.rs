//! Suits, ranks, plain playing cards and the deck they are dealt from.

use rand::seq::SliceRandom;
use rand::thread_rng;
use std::collections::VecDeque;
use vstd::prelude::*;

verus! {

/// Whether `get_short_suit_desc` answers with a suit's pictogram rather than
/// with the first letter of its name.
pub const USE_UNICODE_SYMBOLS: bool = false;

pub const SUIT_SYM_HEARTS: &'static str = "\u{2665}";

pub const SUIT_SYM_SPADES: &'static str = "\u{2660}";

pub const SUIT_SYM_DIAMONDS: &'static str = "\u{2666}";

pub const SUIT_SYM_CLUBS: &'static str = "\u{2663}";

/// The four suits, in the order in which a fresh deck holds them.
pub const SUITS: [Suit; 4] = [Suit::HEARTS, Suit::SPADES, Suit::DIAMONDS, Suit::CLUBS];

/// The thirteen rank symbols, from the ace up to the king.
pub const RANKS: [&'static str; 13] = [
    "A", "2", "3", "4", "5", "6", "7", "8", "9", "10", "J", "Q", "K",
];

#[derive(Debug, Copy, Clone, Eq, PartialEq, Structural)]
pub enum Suit {
    HEARTS,
    SPADES,
    DIAMONDS,
    CLUBS,
}

/// The place of a rank symbol in the order ace, two, ..., king, counted from
/// zero; `-1` for a text that is no rank symbol.
pub open spec fn rank_index(r: Seq<char>) -> int {
    if r == "A"@ {
        0
    } else if r == "2"@ {
        1
    } else if r == "3"@ {
        2
    } else if r == "4"@ {
        3
    } else if r == "5"@ {
        4
    } else if r == "6"@ {
        5
    } else if r == "7"@ {
        6
    } else if r == "8"@ {
        7
    } else if r == "9"@ {
        8
    } else if r == "10"@ {
        9
    } else if r == "J"@ {
        10
    } else if r == "Q"@ {
        11
    } else if r == "K"@ {
        12
    } else {
        -1
    }
}

/// A text is a rank symbol when it is one of the thirteen of `RANKS`.
pub open spec fn is_rank(r: Seq<char>) -> bool {
    0 <= rank_index(r)
}

/// The name of a suit.
pub open spec fn long_suit_desc(s: Suit) -> Seq<char> {
    match s {
        Suit::HEARTS => "Hearts"@,
        Suit::SPADES => "Spades"@,
        Suit::CLUBS => "Clubs"@,
        Suit::DIAMONDS => "Diamonds"@,
    }
}

/// The pictogram of a suit.
pub open spec fn suit_symbol(s: Suit) -> Seq<char> {
    match s {
        Suit::HEARTS => SUIT_SYM_HEARTS@,
        Suit::SPADES => SUIT_SYM_SPADES@,
        Suit::DIAMONDS => SUIT_SYM_DIAMONDS@,
        Suit::CLUBS => SUIT_SYM_CLUBS@,
    }
}

/// The short form of a suit: its pictogram, or else the first letter of its
/// name.
pub open spec fn short_suit_desc(s: Suit) -> Seq<char> {
    if USE_UNICODE_SYMBOLS {
        suit_symbol(s)
    } else {
        long_suit_desc(s).subrange(0, 1)
    }
}

/// The name of a rank, by its place in `RANKS`.
pub open spec fn rank_name(i: int) -> Seq<char> {
    if i == 0 {
        "Ace"@
    } else if i == 1 {
        "Two"@
    } else if i == 2 {
        "Three"@
    } else if i == 3 {
        "Four"@
    } else if i == 4 {
        "Five"@
    } else if i == 5 {
        "Six"@
    } else if i == 6 {
        "Seven"@
    } else if i == 7 {
        "Eight"@
    } else if i == 8 {
        "Nine"@
    } else if i == 9 {
        "Ten"@
    } else if i == 10 {
        "Jack"@
    } else if i == 11 {
        "Queen"@
    } else {
        "King"@
    }
}

/// The name of the rank that a symbol stands for.
pub open spec fn long_rank_desc(r: Seq<char>) -> Seq<char>
    recommends
        is_rank(r),
{
    rank_name(rank_index(r))
}

/// Tells whether two texts hold the same characters.
pub fn same_text(a: &str, b: &str) -> (same: bool)
    ensures
        same == (a@ == b@),
{
    let n = a.unicode_len();
    if n != b.unicode_len() {
        return false;
    }
    let mut i: usize = 0;
    while i < n
        invariant
            n == a@.len(),
            n == b@.len(),
            i <= n,
            forall|k: int| 0 <= k < i ==> a@[k] == b@[k],
        decreases n - i,
    {
        if a.get_char(i) != b.get_char(i) {
            return false;
        }
        i += 1;
    }
    assert(a@ =~= b@);
    true
}

/// Finds the place of a rank symbol in `RANKS`, if it is one.
pub fn rank_position(r: &str) -> (p: Option<usize>)
    ensures
        p is Some <==> is_rank(r@),
        p is Some ==> p.unwrap() == rank_index(r@),
{
    if same_text(r, "A") {
        Some(0)
    } else if same_text(r, "2") {
        Some(1)
    } else if same_text(r, "3") {
        Some(2)
    } else if same_text(r, "4") {
        Some(3)
    } else if same_text(r, "5") {
        Some(4)
    } else if same_text(r, "6") {
        Some(5)
    } else if same_text(r, "7") {
        Some(6)
    } else if same_text(r, "8") {
        Some(7)
    } else if same_text(r, "9") {
        Some(8)
    } else if same_text(r, "10") {
        Some(9)
    } else if same_text(r, "J") {
        Some(10)
    } else if same_text(r, "Q") {
        Some(11)
    } else if same_text(r, "K") {
        Some(12)
    } else {
        None
    }
}

/// The name of a suit.
pub fn get_long_suit_desc(s: Suit) -> (desc: &'static str)
    ensures
        desc@ == long_suit_desc(s),
{
    match s {
        Suit::HEARTS => "Hearts",
        Suit::SPADES => "Spades",
        Suit::CLUBS => "Clubs",
        Suit::DIAMONDS => "Diamonds",
    }
}

/// The name of a rank. The symbol has to be one of `RANKS`.
pub fn get_long_rank_desc(r: &str) -> (desc: &'static str)
    requires
        is_rank(r@),
    ensures
        desc@ == long_rank_desc(r@),
{
    match rank_position(r) {
        Some(0) => "Ace",
        Some(1) => "Two",
        Some(2) => "Three",
        Some(3) => "Four",
        Some(4) => "Five",
        Some(5) => "Six",
        Some(6) => "Seven",
        Some(7) => "Eight",
        Some(8) => "Nine",
        Some(9) => "Ten",
        Some(10) => "Jack",
        Some(11) => "Queen",
        Some(12) => "King",
        _ => vstd::pervasive::unreached(),
    }
}

/// The short form of a suit: its pictogram if `USE_UNICODE_SYMBOLS` is set,
/// else the first letter of its name.
pub fn get_short_suit_desc(s: Suit) -> (desc: &'static str)
    ensures
        desc@ == short_suit_desc(s),
{
    if USE_UNICODE_SYMBOLS {
        return match s {
            Suit::HEARTS => SUIT_SYM_HEARTS,
            Suit::SPADES => SUIT_SYM_SPADES,
            Suit::DIAMONDS => SUIT_SYM_DIAMONDS,
            Suit::CLUBS => SUIT_SYM_CLUBS,
        };
    }
    let name = get_long_suit_desc(s);
    proof {
        reveal_strlit("Hearts");
        reveal_strlit("Spades");
        reveal_strlit("Clubs");
        reveal_strlit("Diamonds");
    }
    name.substring_ascii(0, 1)
}

/// The face value of a rank in a plain deck: the ace is 1, the numerals stand
/// for themselves, and the jack, queen and king are 11, 12 and 13.
pub open spec fn pip_value(r: Seq<char>) -> int
    recommends
        is_rank(r),
{
    rank_index(r) + 1
}

/// The two-part short form of a card: its rank symbol, then its suit.
pub open spec fn short_description(rank: Seq<char>, suit: Suit) -> Seq<char> {
    rank + short_suit_desc(suit)
}

/// The long form of a card, such as "Queen of Spades".
pub open spec fn long_description(rank: Seq<char>, suit: Suit) -> Seq<char>
    recommends
        is_rank(rank),
{
    long_rank_desc(rank) + " of "@ + long_suit_desc(suit)
}

/// The short form of one card.
pub open spec fn card_text<T: Card>(c: T) -> Seq<char> {
    short_description(c.spec_rank(), c.spec_suit())
}

/// The short forms of the cards of a sequence, in order, with one space
/// between neighbours.
pub open spec fn cards_text<T: Card>(cards: Seq<T>) -> Seq<char>
    decreases cards.len(),
{
    if cards.len() == 0 {
        Seq::empty()
    } else if cards.len() == 1 {
        card_text(cards[0])
    } else {
        cards_text(cards.drop_last()) + " "@ + card_text(cards.last())
    }
}

/// A card: a rank symbol and a suit, with a value that the game at hand
/// gives to the rank.
pub trait Card: Copy {
    /// The rank symbol that the card was made with.
    spec fn spec_rank(&self) -> Seq<char>;

    /// The suit that the card was made with.
    spec fn spec_suit(&self) -> Suit;

    /// What the card counts for.
    spec fn spec_value(&self) -> int;

    /// Makes a card. Any text is taken as the rank; one that is no rank
    /// symbol gives a card that can be shown but not valued or named.
    fn new(rank: &'static str, suit: Suit) -> (card: Self)
        ensures
            card.spec_rank() == rank@,
            card.spec_suit() == suit,
    ;

    /// What the card counts for. The card's rank has to be one of `RANKS`.
    fn get_value(&self) -> (value: i8)
        requires
            is_rank(self.spec_rank()),
        ensures
            value == self.spec_value(),
    ;

    /// The rank symbol that the card was made with.
    fn get_rank(&self) -> (rank: &'static str)
        ensures
            rank@ == self.spec_rank(),
    ;

    /// The suit that the card was made with.
    fn get_suit(&self) -> (suit: Suit)
        ensures
            suit == self.spec_suit(),
    ;

    /// The short name of the rank, which is its symbol.
    fn get_short_rank_name(&self) -> (name: &'static str)
        ensures
            name@ == self.spec_rank(),
    {
        self.get_rank()
    }

    /// The name of the rank. The card's rank has to be one of `RANKS`.
    fn get_long_rank_name(&self) -> (name: &'static str)
        requires
            is_rank(self.spec_rank()),
        ensures
            name@ == long_rank_desc(self.spec_rank()),
    {
        get_long_rank_desc(self.get_rank())
    }

    /// The short form of the suit.
    fn get_short_suit_name(&self) -> (name: &'static str)
        ensures
            name@ == short_suit_desc(self.spec_suit()),
    {
        get_short_suit_desc(self.get_suit())
    }

    /// The name of the suit.
    fn get_long_suit_name(&self) -> (name: &'static str)
        ensures
            name@ == long_suit_desc(self.spec_suit()),
    {
        get_long_suit_desc(self.get_suit())
    }

    /// The card in short: its rank symbol, then the short form of its suit.
    fn get_short_description(&self) -> (text: String)
        ensures
            text@ == short_description(self.spec_rank(), self.spec_suit()),
    {
        let mut text = String::from_str(self.get_rank());
        text.append(get_short_suit_desc(self.get_suit()));
        text
    }

    /// The card in words, such as "Queen of Spades". The card's rank has to
    /// be one of `RANKS`.
    fn get_long_description(&self) -> (text: String)
        requires
            is_rank(self.spec_rank()),
        ensures
            text@ == long_description(self.spec_rank(), self.spec_suit()),
    {
        let mut text = String::from_str(self.get_long_rank_name());
        text.append(" of ");
        text.append(get_long_suit_desc(self.get_suit()));
        text
    }
}

/// A card of a plain deck, valued by its pips.
#[derive(Debug, Copy, Eq, PartialEq, Clone)]
pub struct PlayingCard {
    suit: Suit,
    rank: &'static str,
}

impl Card for PlayingCard {
    closed spec fn spec_rank(&self) -> Seq<char> {
        self.rank@
    }

    closed spec fn spec_suit(&self) -> Suit {
        self.suit
    }

    open spec fn spec_value(&self) -> int {
        pip_value(self.spec_rank())
    }

    fn new(rank: &'static str, suit: Suit) -> (card: Self) {
        PlayingCard { rank: rank, suit: suit }
    }

    fn get_value(&self) -> (value: i8) {
        match rank_position(self.rank) {
            Some(p) => (p + 1) as i8,
            None => vstd::pervasive::unreached(),
        }
    }

    fn get_rank(&self) -> (rank: &'static str) {
        self.rank
    }

    fn get_suit(&self) -> (suit: Suit) {
        self.suit
    }
}

impl Suit {
    /// The name of the suit, as owned text.
    pub fn to_string(&self) -> (text: String)
        ensures
            text@ == long_suit_desc(*self),
    {
        String::from_str(get_long_suit_desc(*self))
    }
}

/// Lays the cards out in their short forms, separated by single spaces.
pub fn cards_to_string<T: Card>(cards: &Vec<T>) -> (text: String)
    ensures
        text@ == cards_text(cards@),
{
    let mut text = String::new();
    let mut i: usize = 0;
    while i < cards.len()
        invariant
            i <= cards.len(),
            text@ == cards_text(cards@.take(i as int)),
        decreases cards.len() - i,
    {
        if i > 0 {
            text.append(" ");
        }
        let card = cards[i].get_short_description();
        text.append(card.as_str());
        i += 1;
        proof {
            let upto = cards@.take(i as int);
            assert(upto.drop_last() =~= cards@.take(i - 1));
            assert(upto.last() == cards@[i - 1]);
            if i == 1 {
                assert(text@ =~= card_text(cards@[0]));
            }
        }
    }
    proof {
        assert(cards@.take(cards.len() as int) =~= cards@);
    }
    text
}

/// How many cards a draw of `n` takes from a pile of `len` cards.
pub open spec fn draw_count(n: int, len: int) -> int {
    if n <= len {
        n
    } else {
        len
    }
}

/// How many cards `draw_at` takes: it draws from the places `loc`, `loc + 1`,
/// ... of the pile as it stands after each draw, which are the places `loc`,
/// `loc + 2`, ... of the pile as it was, and stops at the pile's end.
pub open spec fn draw_at_count(n: int, loc: int, len: int) -> int {
    if loc >= len {
        0
    } else {
        draw_count(n, (len - loc + 1) / 2)
    }
}

/// The cards that `draw_at` takes, in the order in which it takes them.
pub open spec fn drawn_at<T>(cards: Seq<T>, k: int, loc: int) -> Seq<T> {
    Seq::new(k as nat, |i: int| cards[loc + 2 * i])
}

/// The pile that `draw_at` leaves when it has taken `k` cards.
pub open spec fn left_at<T>(cards: Seq<T>, k: int, loc: int) -> Seq<T> {
    Seq::new(
        (cards.len() - k) as nat,
        |j: int|
            if j < loc {
                cards[j]
            } else if j < loc + k - 1 {
                cards[loc + 2 * (j - loc) + 1]
            } else {
                cards[j + k]
            },
    )
}

/// A fresh deck holds the suits in the order of `SUITS` and, within each
/// suit, the ranks in the order of `RANKS`.
pub open spec fn is_standard_deck<T: Card>(cards: Seq<T>) -> bool {
    &&& cards.len() == 52
    &&& forall|i: int|
        0 <= i < 52 ==> (#[trigger] cards[i]).spec_rank() == RANKS[i % 13]@ && cards[i].spec_suit()
            == SUITS[i / 13]
}

/// A pile of cards that is only ever shown.
#[derive(Debug, Clone)]
pub struct BasicCardCollection<T: Card> {
    cards: Vec<T>,
}

/// A deck: cards can be drawn from and put back at either end and anywhere
/// between.
#[derive(Debug, Clone)]
pub struct BasicCardDeck<T: Card> {
    cards: VecDeque<T>,
}

/// What a pile of cards offers to the hands that deal from it. The top of the
/// pile is its first card.
pub trait MutableCardCollection<T: Card> {
    /// The cards of the pile, from the top down.
    spec fn spec_cards(&self) -> Seq<T>;

    /// The cards as they are held.
    fn get_cards(&self) -> (cards: &VecDeque<T>)
        ensures
            cards@ == self.spec_cards(),
    ;

    /// How many cards the pile holds.
    fn get_num_cards(&self) -> (n: usize)
        ensures
            n == self.spec_cards().len(),
    {
        self.get_cards().len()
    }

    /// Takes up to `n` cards off the top, the topmost first.
    fn draw_top(&mut self, n: usize) -> (drawn: Vec<T>)
        ensures
            drawn@ == old(self).spec_cards().take(
                draw_count(n as int, old(self).spec_cards().len() as int),
            ),
            final(self).spec_cards() == old(self).spec_cards().skip(
                draw_count(n as int, old(self).spec_cards().len() as int),
            ),
    ;

    /// Takes up to `n` cards off the bottom, the bottommost first.
    fn draw_bottom(&mut self, n: usize) -> (drawn: Vec<T>)
        ensures
            drawn@ == old(self).spec_cards().skip(
                old(self).spec_cards().len() - draw_count(
                    n as int,
                    old(self).spec_cards().len() as int,
                ),
            ).reverse(),
            final(self).spec_cards() == old(self).spec_cards().take(
                old(self).spec_cards().len() - draw_count(
                    n as int,
                    old(self).spec_cards().len() as int,
                ),
            ),
    ;

    /// Takes up to `n` cards: the first from place `loc`, and each further
    /// one from one place lower in the pile as it then stands. Of the pile as
    /// it was, that is every second card from `loc` on.
    fn draw_at(&mut self, n: usize, loc: usize) -> (drawn: Vec<T>)
        ensures
            drawn@ == drawn_at(
                old(self).spec_cards(),
                draw_at_count(n as int, loc as int, old(self).spec_cards().len() as int),
                loc as int,
            ),
            final(self).spec_cards() == left_at(
                old(self).spec_cards(),
                draw_at_count(n as int, loc as int, old(self).spec_cards().len() as int),
                loc as int,
            ),
    ;

    /// Shows up to `n` cards from the top, the topmost first.
    fn peek_top(&mut self, n: usize) -> (seen: Vec<T>)
        ensures
            seen@ == old(self).spec_cards().take(
                draw_count(n as int, old(self).spec_cards().len() as int),
            ),
            final(self).spec_cards() == old(self).spec_cards(),
    ;

    /// Shows up to `n` cards from the bottom, the bottommost first.
    fn peek_bottom(&mut self, n: usize) -> (seen: Vec<T>)
        ensures
            seen@ == old(self).spec_cards().skip(
                old(self).spec_cards().len() - draw_count(
                    n as int,
                    old(self).spec_cards().len() as int,
                ),
            ).reverse(),
            final(self).spec_cards() == old(self).spec_cards(),
    ;

    /// Shows up to `n` cards from place `loc` downwards.
    fn peek_at(&mut self, n: usize, loc: usize) -> (seen: Vec<T>)
        ensures
            loc >= old(self).spec_cards().len() ==> seen@ == Seq::<T>::empty(),
            loc < old(self).spec_cards().len() ==> seen@ == old(self).spec_cards().subrange(
                loc as int,
                loc + draw_count(n as int, old(self).spec_cards().len() - loc),
            ),
            final(self).spec_cards() == old(self).spec_cards(),
    ;

    /// Puts a card on top.
    fn insert_top(&mut self, c: T)
        ensures
            final(self).spec_cards() == seq![c] + old(self).spec_cards(),
    ;

    /// Puts a card underneath.
    fn insert_bottom(&mut self, c: T)
        ensures
            final(self).spec_cards() == old(self).spec_cards().push(c),
    ;

    /// Puts a card in at place `loc`, which may be the place just past the
    /// bottom card.
    fn insert_before(&mut self, c: T, loc: usize)
        requires
            loc <= old(self).spec_cards().len(),
        ensures
            final(self).spec_cards() == old(self).spec_cards().insert(loc as int, c),
    ;

    /// Puts the cards on top, keeping their order.
    fn insert_multiple_top(&mut self, c: Vec<T>)
        ensures
            final(self).spec_cards() == c@ + old(self).spec_cards(),
    ;

    /// Puts the cards underneath, keeping their order.
    fn insert_multiple_bottom(&mut self, c: Vec<T>)
        ensures
            final(self).spec_cards() == old(self).spec_cards() + c@,
    ;

    /// Puts the cards in at place `loc`, keeping their order.
    fn insert_multiple_at(&mut self, c: Vec<T>, loc: usize)
        requires
            loc <= old(self).spec_cards().len(),
        ensures
            final(self).spec_cards() == old(self).spec_cards().take(loc as int) + c@ + old(
                self,
            ).spec_cards().skip(loc as int),
    ;

    /// Puts the cards into a random order. Every card stays in the pile, as
    /// often as it was there, so the pile keeps its size; a pile of one card
    /// or of none has only one order and stays as it was. Which of its
    /// orders a larger pile takes is left to chance, and the order it had is
    /// one of them.
    fn shuffle(&mut self)
        ensures
            final(self).spec_cards().to_multiset() == old(self).spec_cards().to_multiset(),
            final(self).spec_cards().len() == old(self).spec_cards().len(),
            old(self).spec_cards().len() <= 1 ==> final(self).spec_cards() == old(
                self,
            ).spec_cards(),
    ;
}

/// Reorders the items by `rand::seq::SliceRandom::shuffle`, driven by the
/// generator that `rand::thread_rng` hands out. The order that results is
/// random, so nothing is said of it. What is taken on trust is that the call
/// only swaps items of the slice, so that each item is there afterwards as
/// often as before. The generator of a thread is seeded by the operating
/// system when the thread first asks for it, and `rand` panics if the system
/// has no seed to give; the contract does not cover that.
#[verifier::external_body]
fn shuffle_in_place<T>(items: &mut Vec<T>)
    ensures
        final(items)@.to_multiset() == old(items)@.to_multiset(),
{
    items.shuffle(&mut thread_rng());
}

impl<T: Card> BasicCardCollection<T> {
    /// The cards of the pile, in order.
    pub closed spec fn spec_cards(&self) -> Seq<T> {
        self.cards@
    }

    /// A pile of the given cards.
    pub fn new(cards: Vec<T>) -> (pile: Self)
        ensures
            pile.spec_cards() == cards@,
    {
        BasicCardCollection { cards: cards }
    }

    /// The pile in short forms, separated by single spaces.
    pub fn to_string(&self) -> (text: String)
        ensures
            text@ == cards_text(self.spec_cards()),
    {
        cards_to_string(&self.cards)
    }
}

impl<T: Card> BasicCardDeck<T> {
    /// The deck in short forms, from the top down, separated by single
    /// spaces.
    pub fn to_string(&self) -> (text: String)
        ensures
            text@ == cards_text(self.spec_cards()),
    {
        let mut listed: Vec<T> = Vec::new();
        let mut i: usize = 0;
        while i < self.cards.len()
            invariant
                i <= self.cards@.len(),
                listed@ == self.cards@.take(i as int),
            decreases self.cards@.len() - i,
        {
            listed.push(self.cards[i]);
            i += 1;
            assert(listed@ =~= self.cards@.take(i as int));
        }
        assert(listed@ =~= self.cards@);
        cards_to_string(&listed)
    }

    /// Makes the deck hold the given cards, in their order, and no others.
    pub fn replace_cards(&mut self, cards: &Vec<T>)
        ensures
            final(self).spec_cards() == cards@,
    {
        self.cards.clear();
        let mut i: usize = 0;
        while i < cards.len()
            invariant
                i <= cards@.len(),
                self.cards@ == cards@.take(i as int),
            decreases cards@.len() - i,
        {
            self.cards.push_back(cards[i]);
            i += 1;
            assert(self.cards@ =~= cards@.take(i as int));
        }
        assert(cards@.take(cards@.len() as int) =~= cards@);
    }
}

/// A sequence of one item or of none has no other order: whatever holds the
/// same items as often is the same sequence.
pub proof fn lemma_short_rearrangement<T>(before: Seq<T>, after: Seq<T>)
    requires
        after.to_multiset() == before.to_multiset(),
        before.len() <= 1,
    ensures
        after == before,
{
    before.to_multiset_ensures();
    after.to_multiset_ensures();
    if before.len() == 1 {
        assert(after.contains(after[0]));
        assert(before.to_multiset().count(after[0]) > 0);
        assert(before.contains(after[0]));
    }
    assert(after =~= before);
}

impl<T: Card> MutableCardCollection<T> for BasicCardDeck<T> {
    closed spec fn spec_cards(&self) -> Seq<T> {
        self.cards@
    }

    fn get_cards(&self) -> (cards: &VecDeque<T>) {
        &self.cards
    }

    fn draw_top(&mut self, n: usize) -> (drawn: Vec<T>) {
        let mut drawn_cards: Vec<T> = Vec::new();
        let mut i: usize = 0;
        while i < n
            invariant
                i <= n,
                i <= old(self).cards@.len(),
                drawn_cards@ == old(self).cards@.take(i as int),
                self.cards@ == old(self).cards@.skip(i as int),
            ensures
                i == draw_count(n as int, old(self).cards@.len() as int),
            decreases n - i,
        {
            let front_card = self.cards.pop_front();
            match front_card {
                Some(c) => drawn_cards.push(c),
                None => break ,
            }
            i += 1;
            assert(drawn_cards@ =~= old(self).cards@.take(i as int));
            assert(self.cards@ =~= old(self).cards@.skip(i as int));
        }
        drawn_cards
    }

    fn draw_bottom(&mut self, n: usize) -> (drawn: Vec<T>) {
        let mut drawn_cards: Vec<T> = Vec::new();
        let mut i: usize = 0;
        while i < n
            invariant
                i <= n,
                i <= old(self).cards@.len(),
                drawn_cards@ == old(self).cards@.skip(old(self).cards@.len() - i).reverse(),
                self.cards@ == old(self).cards@.take(old(self).cards@.len() - i),
            ensures
                i == draw_count(n as int, old(self).cards@.len() as int),
            decreases n - i,
        {
            let back_card = self.cards.pop_back();
            match back_card {
                Some(c) => drawn_cards.push(c),
                None => break ,
            }
            i += 1;
            assert(drawn_cards@ =~= old(self).cards@.skip(old(self).cards@.len() - i).reverse());
            assert(self.cards@ =~= old(self).cards@.take(old(self).cards@.len() - i));
        }
        drawn_cards
    }

    fn draw_at(&mut self, n: usize, loc: usize) -> (drawn: Vec<T>) {
        let mut drawn_cards: Vec<T> = Vec::new();
        let mut i: usize = 0;
        while i < n
            invariant
                i <= n,
                i == 0 || loc + 2 * (i - 1) < old(self).cards@.len(),
                old(self).cards@.len() == old(self).cards.len(),
                drawn_cards@ == drawn_at(old(self).cards@, i as int, loc as int),
                self.cards@ == left_at(old(self).cards@, i as int, loc as int),
            ensures
                i == draw_at_count(n as int, loc as int, old(self).cards@.len() as int),
            decreases n - i,
        {
            if loc > usize::MAX - i {
                break ;
            }
            let drawn_card = self.cards.remove(loc + i);
            match drawn_card {
                Some(c) => drawn_cards.push(c),
                None => break ,
            }
            i += 1;
            assert(drawn_cards@ =~= drawn_at(old(self).cards@, i as int, loc as int));
            assert(self.cards@ =~= left_at(old(self).cards@, i as int, loc as int));
        }
        assert(self.cards@ =~= left_at(old(self).cards@, i as int, loc as int));
        drawn_cards
    }

    fn peek_top(&mut self, n: usize) -> (seen: Vec<T>) {
        let mut drawn_cards: Vec<T> = Vec::new();
        let mut i: usize = 0;
        while i < n
            invariant
                i <= n,
                i <= self.cards@.len(),
                drawn_cards@ == self.cards@.take(i as int),
            ensures
                i == draw_count(n as int, self.cards@.len() as int),
            decreases n - i,
        {
            if i >= self.get_num_cards() {
                break ;
            }
            drawn_cards.push(self.cards[i]);
            i += 1;
            assert(drawn_cards@ =~= self.cards@.take(i as int));
        }
        drawn_cards
    }

    fn peek_bottom(&mut self, n: usize) -> (seen: Vec<T>) {
        let mut drawn_cards: Vec<T> = Vec::new();
        let mut i: usize = 0;
        while i < n
            invariant
                i <= n,
                i <= self.cards@.len(),
                drawn_cards@ == self.cards@.skip(self.cards@.len() - i).reverse(),
            ensures
                i == draw_count(n as int, self.cards@.len() as int),
            decreases n - i,
        {
            let num_cards = self.get_num_cards();
            if i >= num_cards {
                break ;
            }
            drawn_cards.push(self.cards[num_cards - (1 + i)]);
            i += 1;
            assert(drawn_cards@ =~= self.cards@.skip(self.cards@.len() - i).reverse());
        }
        drawn_cards
    }

    fn peek_at(&mut self, n: usize, loc: usize) -> (seen: Vec<T>) {
        let mut drawn_cards: Vec<T> = Vec::new();
        let mut i: usize = 0;
        while i < n
            invariant
                i <= n,
                i == 0 || loc + i <= self.cards@.len(),
                drawn_cards@.len() == i,
                forall|k: int| 0 <= k < i ==> drawn_cards@[k] == self.cards@[loc + k],
            ensures
                loc >= self.cards@.len() ==> i == 0,
                loc < self.cards@.len() ==> i == draw_count(n as int, self.cards@.len() - loc),
            decreases n - i,
        {
            if loc >= self.get_num_cards() || i >= self.get_num_cards() - loc {
                break ;
            }
            drawn_cards.push(self.cards[loc + i]);
            i += 1;
        }
        proof {
            if loc < self.cards@.len() {
                assert(drawn_cards@ =~= self.cards@.subrange(loc as int, loc + i));
            } else {
                assert(drawn_cards@ =~= Seq::<T>::empty());
            }
        }
        drawn_cards
    }

    fn insert_top(&mut self, c: T) {
        self.cards.push_front(c);
    }

    fn insert_bottom(&mut self, c: T) {
        self.cards.push_back(c);
    }

    fn insert_before(&mut self, c: T, loc: usize) {
        self.cards.insert(loc, c);
    }

    fn insert_multiple_top(&mut self, c: Vec<T>) {
        let mut i: usize = 0;
        while i < c.len()
            invariant
                i <= c@.len(),
                self.cards@ == c@.take(i as int) + old(self).cards@,
            decreases c@.len() - i,
        {
            self.insert_before(c[i], i);
            i += 1;
            assert(self.cards@ =~= c@.take(i as int) + old(self).cards@);
        }
        assert(c@.take(c@.len() as int) =~= c@);
    }

    fn insert_multiple_bottom(&mut self, c: Vec<T>) {
        let mut i: usize = 0;
        while i < c.len()
            invariant
                i <= c@.len(),
                self.cards@ == old(self).cards@ + c@.take(i as int),
            decreases c@.len() - i,
        {
            self.cards.push_back(c[i]);
            i += 1;
            assert(self.cards@ =~= old(self).cards@ + c@.take(i as int));
        }
        assert(c@.take(c@.len() as int) =~= c@);
    }

    fn insert_multiple_at(&mut self, c: Vec<T>, loc: usize) {
        let mut i: usize = 0;
        while i < c.len()
            invariant
                i <= c@.len(),
                loc <= old(self).cards@.len(),
                self.cards@ == old(self).cards@.take(loc as int) + c@.take(i as int) + old(
                    self,
                ).cards@.skip(loc as int),
            decreases c@.len() - i,
        {
            assert(self.cards@.len() == old(self).cards@.len() + i);
            assert(self.cards@.len() == self.cards.len());
            self.insert_before(c[i], loc + i);
            i += 1;
            assert(self.cards@ =~= old(self).cards@.take(loc as int) + c@.take(i as int) + old(
                self,
            ).cards@.skip(loc as int));
        }
        assert(c@.take(c@.len() as int) =~= c@);
    }

    fn shuffle(&mut self) {
        let mut temp_vec: Vec<T> = Vec::new();
        loop
            invariant
                temp_vec@ + self.cards@ == old(self).cards@,
            ensures
                temp_vec@ == old(self).cards@,
                self.cards@.len() == 0,
            decreases self.cards@.len(),
        {
            match self.cards.pop_front() {
                Some(c) => temp_vec.push(c),
                None => break ,
            }
            assert(temp_vec@ + self.cards@ =~= old(self).cards@);
        }
        let ghost dealt = temp_vec@;
        shuffle_in_place(&mut temp_vec);
        proof {
            vstd::seq_lib::to_multiset_len(dealt);
            vstd::seq_lib::to_multiset_len(temp_vec@);
            if dealt.len() <= 1 {
                lemma_short_rearrangement(dealt, temp_vec@);
            }
        }
        self.replace_cards(&temp_vec);
    }
}

/// Builds the deck of fifty-two cards, suit by suit.
pub fn create_standard_deck<T: Card>() -> (deck: BasicCardDeck<T>)
    ensures
        is_standard_deck(deck.spec_cards()),
{
    let mut cards: VecDeque<T> = VecDeque::new();
    let mut s: usize = 0;
    while s < 4
        invariant
            s <= 4,
            cards@.len() == 13 * s,
            forall|i: int|
                0 <= i < 13 * s ==> (#[trigger] cards@[i]).spec_rank() == RANKS[i % 13]@
                    && cards@[i].spec_suit() == SUITS[i / 13],
        decreases 4 - s,
    {
        let mut r: usize = 0;
        while r < 13
            invariant
                s < 4,
                r <= 13,
                cards@.len() == 13 * s + r,
                forall|i: int|
                    0 <= i < 13 * s + r ==> (#[trigger] cards@[i]).spec_rank() == RANKS[i % 13]@
                        && cards@[i].spec_suit() == SUITS[i / 13],
            decreases 13 - r,
        {
            cards.push_back(T::new(RANKS[r], SUITS[s]));
            r += 1;
        }
        s += 1;
    }
    BasicCardDeck::<T> { cards: cards }
}

/// The thirteen rank symbols are different texts, so each has the place in
/// which `RANKS` lists it.
pub proof fn lemma_rank_symbols()
    ensures
        forall|i: int| 0 <= i < 13 ==> rank_index(#[trigger] RANKS[i]@) == i,
        rank_index("A"@) == 0,
        rank_index("10"@) == 9,
        rank_index("J"@) == 10,
        rank_index("Q"@) == 11,
        rank_index("K"@) == 12,
{
    reveal_strlit("A");
    reveal_strlit("2");
    reveal_strlit("3");
    reveal_strlit("4");
    reveal_strlit("5");
    reveal_strlit("6");
    reveal_strlit("7");
    reveal_strlit("8");
    reveal_strlit("9");
    reveal_strlit("10");
    reveal_strlit("J");
    reveal_strlit("Q");
    reveal_strlit("K");
    assert("A"@[0] == 'A');
    assert("2"@[0] == '2');
    assert("3"@[0] == '3');
    assert("4"@[0] == '4');
    assert("5"@[0] == '5');
    assert("6"@[0] == '6');
    assert("7"@[0] == '7');
    assert("8"@[0] == '8');
    assert("9"@[0] == '9');
    assert("10"@.len() == 2);
    assert("J"@[0] == 'J');
    assert("Q"@[0] == 'Q');
    assert("K"@[0] == 'K');
}

} // verus!
