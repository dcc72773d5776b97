use rust_cribbage::cards::{Card, Suit, RANKS};
use rust_cribbage::cribbage_cards::CribbageCard;

#[test]
fn test_cribbage_values() {
    let expected: [i8; 13] = [1, 2, 3, 4, 5, 6, 7, 8, 9, 10, 10, 10, 10];
    for i in 0..13 {
        assert_eq!(CribbageCard::new(RANKS[i], Suit::SPADES).get_value(), expected[i]);
    }
}

#[test]
fn test_cribbage_card_accessors() {
    let c = CribbageCard::new("J", Suit::DIAMONDS);
    assert_eq!(c.get_rank(), "J");
    assert_eq!(c.get_suit(), Suit::DIAMONDS);
    assert_eq!(c.get_long_description(), "Jack of Diamonds");
    assert_eq!(c.get_short_description(), "JD");
    assert_eq!(c.to_string(), "JD");
    assert_eq!(c, CribbageCard::new("J", Suit::DIAMONDS));
    assert_ne!(c, CribbageCard::new("J", Suit::CLUBS));
}

#[test]
fn test_directly_precedes_every_pair() {
    for i in 0..13 {
        for j in 0..13 {
            let a = CribbageCard::new(RANKS[i], Suit::HEARTS);
            let b = CribbageCard::new(RANKS[j], Suit::CLUBS);
            assert_eq!(a.directly_precedes(b), j == i + 1);
            assert_eq!(a.directly_succeeds(b), i == j + 1);
        }
    }
}

#[test]
fn test_king_and_ace_do_not_wrap() {
    let king = CribbageCard::new("K", Suit::HEARTS);
    let ace = CribbageCard::new("A", Suit::HEARTS);
    let queen = CribbageCard::new("Q", Suit::HEARTS);
    let two = CribbageCard::new("2", Suit::HEARTS);
    assert!(!king.directly_precedes(ace));
    assert!(!ace.directly_succeeds(king));
    assert!(!ace.directly_precedes(king));
    assert!(!king.directly_succeeds(ace));
    assert!(queen.directly_precedes(king));
    assert!(king.directly_succeeds(queen));
    assert!(ace.directly_precedes(two));
    assert!(two.directly_succeeds(ace));
    assert!(!king.directly_precedes(king));
}
