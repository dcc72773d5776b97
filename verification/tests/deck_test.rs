use rust_cribbage::cards::{
    cards_to_string, create_standard_deck, BasicCardDeck, Card, MutableCardCollection,
    PlayingCard, Suit, RANKS, SUITS,
};
use rust_cribbage::cribbage_cards::CribbageCard;

fn small_deck() -> BasicCardDeck<PlayingCard> {
    // A, 2, 3, 4, 5, 6, 7 of hearts, the ace on top.
    let mut deck = create_standard_deck::<PlayingCard>();
    let _rest = deck.draw_bottom(45);
    deck
}

#[test]
fn test_standard_deck_order() {
    let deck = create_standard_deck::<CribbageCard>();
    assert_eq!(deck.get_num_cards(), 52);
    let cards = deck.get_cards();
    for i in 0..52 {
        assert_eq!(cards[i].get_rank(), RANKS[i % 13]);
        assert_eq!(cards[i].get_suit(), SUITS[i / 13]);
    }
    assert!(deck.to_string().starts_with("AH 2H 3H 4H 5H 6H 7H 8H 9H 10H JH QH KH AS 2S"));
    assert!(deck.to_string().ends_with("JC QC KC"));
}

#[test]
fn test_draw_top() {
    let mut deck = small_deck();
    assert_eq!(deck.to_string(), "AH 2H 3H 4H 5H 6H 7H");
    let drawn = deck.draw_top(3);
    assert_eq!(cards_to_string(&drawn), "AH 2H 3H");
    assert_eq!(deck.to_string(), "4H 5H 6H 7H");
    let none = deck.draw_top(0);
    assert_eq!(none.len(), 0);
    let rest = deck.draw_top(10);
    assert_eq!(cards_to_string(&rest), "4H 5H 6H 7H");
    assert_eq!(deck.get_num_cards(), 0);
    assert_eq!(deck.draw_top(1).len(), 0);
}

#[test]
fn test_draw_bottom() {
    let mut deck = small_deck();
    let drawn = deck.draw_bottom(2);
    assert_eq!(cards_to_string(&drawn), "7H 6H");
    assert_eq!(deck.to_string(), "AH 2H 3H 4H 5H");
    let rest = deck.draw_bottom(9);
    assert_eq!(cards_to_string(&rest), "5H 4H 3H 2H AH");
    assert_eq!(deck.get_num_cards(), 0);
}

#[test]
fn test_draw_at_takes_every_second_card() {
    let mut deck = small_deck();
    let drawn = deck.draw_at(3, 1);
    assert_eq!(cards_to_string(&drawn), "2H 4H 6H");
    assert_eq!(deck.to_string(), "AH 3H 5H 7H");

    let mut deck = small_deck();
    let drawn = deck.draw_at(10, 2);
    assert_eq!(cards_to_string(&drawn), "3H 5H 7H");
    assert_eq!(deck.to_string(), "AH 2H 4H 6H");

    let mut deck = small_deck();
    let drawn = deck.draw_at(10, 3);
    assert_eq!(cards_to_string(&drawn), "4H 6H");
    assert_eq!(deck.to_string(), "AH 2H 3H 5H 7H");

    let mut deck = small_deck();
    assert_eq!(deck.draw_at(2, 7).len(), 0);
    assert_eq!(deck.draw_at(2, usize::MAX).len(), 0);
    assert_eq!(deck.draw_at(0, 0).len(), 0);
    let one = deck.draw_at(1, 6);
    assert_eq!(cards_to_string(&one), "7H");
    assert_eq!(deck.to_string(), "AH 2H 3H 4H 5H 6H");
}

#[test]
fn test_peeks_leave_the_deck_alone() {
    let mut deck = small_deck();
    assert_eq!(cards_to_string(&deck.peek_top(2)), "AH 2H");
    assert_eq!(cards_to_string(&deck.peek_top(9)), "AH 2H 3H 4H 5H 6H 7H");
    assert_eq!(cards_to_string(&deck.peek_bottom(3)), "7H 6H 5H");
    assert_eq!(cards_to_string(&deck.peek_bottom(8)), "7H 6H 5H 4H 3H 2H AH");
    assert_eq!(cards_to_string(&deck.peek_at(2, 4)), "5H 6H");
    assert_eq!(cards_to_string(&deck.peek_at(5, 5)), "6H 7H");
    assert_eq!(deck.peek_at(5, 7).len(), 0);
    assert_eq!(deck.peek_at(5, usize::MAX).len(), 0);
    assert_eq!(cards_to_string(&deck.peek_at(usize::MAX, 6)), "7H");
    assert_eq!(deck.peek_top(0).len(), 0);
    assert_eq!(deck.to_string(), "AH 2H 3H 4H 5H 6H 7H");
}

#[test]
fn test_inserts() {
    let mut deck = small_deck();
    let _ = deck.draw_bottom(5);
    deck.insert_top(PlayingCard::new("K", Suit::CLUBS));
    assert_eq!(deck.to_string(), "KC AH 2H");
    deck.insert_bottom(PlayingCard::new("Q", Suit::CLUBS));
    assert_eq!(deck.to_string(), "KC AH 2H QC");
    deck.insert_before(PlayingCard::new("J", Suit::CLUBS), 1);
    assert_eq!(deck.to_string(), "KC JC AH 2H QC");
    deck.insert_before(PlayingCard::new("10", Suit::CLUBS), 5);
    assert_eq!(deck.to_string(), "KC JC AH 2H QC 10C");
}

#[test]
fn test_insert_multiple() {
    let extra = vec![
        PlayingCard::new("9", Suit::SPADES),
        PlayingCard::new("8", Suit::SPADES),
        PlayingCard::new("7", Suit::SPADES),
    ];
    let mut deck = small_deck();
    let _ = deck.draw_bottom(5);
    deck.insert_multiple_top(extra.clone());
    assert_eq!(deck.to_string(), "9S 8S 7S AH 2H");

    let mut deck = small_deck();
    let _ = deck.draw_bottom(5);
    deck.insert_multiple_bottom(extra.clone());
    assert_eq!(deck.to_string(), "AH 2H 9S 8S 7S");

    let mut deck = small_deck();
    let _ = deck.draw_bottom(5);
    deck.insert_multiple_at(extra.clone(), 1);
    assert_eq!(deck.to_string(), "AH 9S 8S 7S 2H");
    deck.insert_multiple_at(Vec::new(), 5);
    assert_eq!(deck.to_string(), "AH 9S 8S 7S 2H");
    deck.insert_multiple_at(vec![PlayingCard::new("K", Suit::HEARTS)], 5);
    assert_eq!(deck.to_string(), "AH 9S 8S 7S 2H KH");
}

#[test]
fn test_shuffle_keeps_every_card() {
    let fresh = create_standard_deck::<PlayingCard>();
    let mut deck = create_standard_deck::<PlayingCard>();
    deck.shuffle();
    assert_eq!(deck.get_num_cards(), 52);
    let mut before: Vec<String> =
        fresh.get_cards().iter().map(|c| c.get_short_description()).collect();
    let mut after: Vec<String> =
        deck.get_cards().iter().map(|c| c.get_short_description()).collect();
    before.sort();
    after.sort();
    assert_eq!(before, after);
}

#[test]
fn test_shuffle_changes_the_order() {
    // Three shuffles that all leave fifty-two cards where they were do not
    // happen by chance.
    let fresh = create_standard_deck::<PlayingCard>().to_string();
    let mut moved = false;
    for _ in 0..3 {
        let mut deck = create_standard_deck::<PlayingCard>();
        deck.shuffle();
        if deck.to_string() != fresh {
            moved = true;
        }
    }
    assert!(moved);
}

#[test]
fn test_shuffle_of_small_decks() {
    let mut deck = small_deck();
    let _ = deck.draw_top(7);
    deck.shuffle();
    assert_eq!(deck.get_num_cards(), 0);
    deck.insert_top(PlayingCard::new("3", Suit::DIAMONDS));
    deck.shuffle();
    assert_eq!(deck.to_string(), "3D");
}

#[test]
fn test_replace_cards() {
    let mut deck = small_deck();
    deck.replace_cards(&vec![
        PlayingCard::new("9", Suit::SPADES),
        PlayingCard::new("2", Suit::CLUBS),
        PlayingCard::new("9", Suit::SPADES),
    ]);
    assert_eq!(deck.to_string(), "9S 2C 9S");
    assert_eq!(deck.get_num_cards(), 3);
    deck.replace_cards(&Vec::new());
    assert_eq!(deck.get_num_cards(), 0);
    assert_eq!(deck.to_string(), "");
}

#[test]
fn test_shuffle_of_two_cards_keeps_both() {
    for _ in 0..20 {
        let mut deck = small_deck();
        let _ = deck.draw_bottom(5);
        deck.shuffle();
        let shown = deck.to_string();
        assert!(shown == "AH 2H" || shown == "2H AH");
    }
}
