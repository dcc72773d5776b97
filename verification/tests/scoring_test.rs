use rust_cribbage::cards::{cards_to_string, create_standard_deck, Card, MutableCardCollection, Suit};
use rust_cribbage::cribbage_cards::CribbageCard;
use rust_cribbage::cribbage_scoring::{
    get_subset_sums, score_fifteens, score_flush, score_pairs, score_quads, score_runs,
    score_triples, sort_hand, sort_hand_by, SortKey,
};

fn card(text: &'static str) -> CribbageCard {
    let (rank, suit) = text.split_at(text.len() - 1);
    let suit = match suit {
        "H" => Suit::HEARTS,
        "S" => Suit::SPADES,
        "D" => Suit::DIAMONDS,
        _ => Suit::CLUBS,
    };
    CribbageCard::new(rank, suit)
}

fn cards(texts: &[&'static str]) -> Vec<CribbageCard> {
    texts.iter().map(|t| card(t)).collect()
}

fn shown(groups: &Vec<Vec<CribbageCard>>) -> Vec<String> {
    groups.iter().map(|g| cards_to_string(g)).collect()
}

/// Counts the choices of cards that count for fifteen by trying every one.
fn count_fifteens_by_hand(hand: &Vec<CribbageCard>) -> usize {
    let mut found = 0;
    for mask in 1u32..(1u32 << hand.len()) {
        let mut total = 0;
        for (i, c) in hand.iter().enumerate() {
            if mask & (1 << i) != 0 {
                total += c.get_value() as i32;
            }
        }
        if total == 15 {
            found += 1;
        }
    }
    found
}

#[test]
fn test_sort_hand_by_point_value_is_stable() {
    let hand = cards(&["KC", "5D", "JH", "10S", "AC", "QD"]);
    let sorted = sort_hand(&hand);
    assert_eq!(cards_to_string(&sorted), "AC 5D KC JH 10S QD");
    assert_eq!(cards_to_string(&hand), "KC 5D JH 10S AC QD");
}

#[test]
fn test_sort_hand_by_rank() {
    let hand = cards(&["KC", "5D", "JH", "10S", "AC", "QD", "5C"]);
    let sorted = sort_hand_by(&hand, SortKey::RankIndex);
    assert_eq!(cards_to_string(&sorted), "AC 5D 5C 10S JH QD KC");
    let by_points = sort_hand_by(&hand, SortKey::PointValue);
    assert_eq!(cards_to_string(&by_points), "AC 5D 5C KC JH 10S QD");
}

#[test]
fn test_sort_of_sorted_hand_is_the_same_hand() {
    let hand = cards(&["AC", "2D", "2H", "9S", "10C", "JD"]);
    assert_eq!(sort_hand(&hand), hand);
    assert_eq!(sort_hand(&sort_hand(&hand)), hand);
    let mixed = cards(&["9S", "2H", "JD", "AC", "10C", "2D"]);
    let once = sort_hand(&mixed);
    assert_eq!(sort_hand(&once), once);
    let none: Vec<CribbageCard> = Vec::new();
    assert_eq!(sort_hand(&none), none);
    let one = cards(&["7H"]);
    assert_eq!(sort_hand(&one), one);
}

#[test]
fn test_fifteens_of_four_fives_and_a_jack() {
    let hand = cards(&["5C", "5D", "5H", "5S", "JC"]);
    let (score, groups) = score_fifteens(&hand);
    assert_eq!(score, 16);
    assert_eq!(
        shown(&groups),
        vec![
            "5H 5D 5C", "5S 5D 5C", "5S 5H 5C", "JC 5C", "5S 5H 5D", "JC 5D", "JC 5H", "JC 5S"
        ]
    );
    assert_eq!(groups.len(), count_fifteens_by_hand(&hand));
}

#[test]
fn test_fifteens_of_small_hands() {
    let none: Vec<CribbageCard> = Vec::new();
    let (score, groups) = score_fifteens(&none);
    assert_eq!(score, 0);
    assert_eq!(groups.len(), 0);

    let low = cards(&["AC", "2D", "3H", "4S"]);
    let (score, groups) = score_fifteens(&low);
    assert_eq!(score, 0);
    assert_eq!(groups.len(), 0);

    let two = cards(&["5C", "KD"]);
    let (score, groups) = score_fifteens(&two);
    assert_eq!(score, 2);
    assert_eq!(shown(&groups), vec!["KD 5C"]);
}

#[test]
fn test_fifteens_count_choices_of_any_size() {
    // 5 + 10, and 2 + 3 + 4 + 6.
    let hand = cards(&["2C", "3D", "4H", "5S", "6C", "10D"]);
    let (score, groups) = score_fifteens(&hand);
    assert_eq!(shown(&groups), vec!["6C 4H 3D 2C", "10D 3D 2C", "6C 5S 4H", "10D 5S"]);
    assert_eq!(score, 8);
    assert_eq!(groups.len(), count_fifteens_by_hand(&hand));
}

#[test]
fn test_fifteens_agree_with_trying_every_choice() {
    for _ in 0..40 {
        let mut deck = create_standard_deck::<CribbageCard>();
        deck.shuffle();
        for size in 0..7 {
            let hand = sort_hand(&deck.draw_top(size));
            let (score, groups) = score_fifteens(&hand);
            let expected = count_fifteens_by_hand(&hand);
            assert_eq!(groups.len(), expected);
            assert_eq!(score as usize, 2 * expected);
            for g in groups.iter() {
                let total: i32 = g.iter().map(|c| c.get_value() as i32).sum();
                assert_eq!(total, 15);
            }
        }
    }
}

#[test]
fn test_subset_sums_of_other_totals() {
    let hand = cards(&["AC", "2D", "3H", "3S"]);
    assert_eq!(shown(&get_subset_sums(3, &hand)), vec!["2D AC", "3H", "3S"]);
    assert_eq!(shown(&get_subset_sums(9, &hand)), vec!["3S 3H 2D AC"]);
    assert_eq!(get_subset_sums(10, &hand).len(), 0);
    assert_eq!(get_subset_sums(0, &hand).len(), 0);
    assert_eq!(get_subset_sums(-3, &hand).len(), 0);
    assert_eq!(get_subset_sums(4, &[]).len(), 0);
}

#[test]
fn test_subset_sums_stop_at_the_first_card_that_is_too_big() {
    // The hand is not in order: the search gives up at the king and does not
    // see the five behind it.
    let hand = cards(&["KC", "5D"]);
    assert_eq!(get_subset_sums(5, &hand).len(), 0);
    assert_eq!(shown(&get_subset_sums(15, &hand)), vec!["5D KC"]);
}

#[test]
fn test_quads_in_the_first_four() {
    let hand = cards(&["7C", "7D", "7H", "7S", "9C"]);
    let (score, groups, rest) = score_quads(&hand);
    assert_eq!(score, 12);
    assert_eq!(shown(&groups), vec!["7C 7D 7H 7S"]);
    assert_eq!(cards_to_string(&rest), "9C");
    let (triple_score, triples, after_triples) = score_triples(&rest);
    assert_eq!(triple_score, 0);
    assert_eq!(triples.len(), 0);
    assert_eq!(cards_to_string(&after_triples), "9C");
    let (pair_score, pairs, after_pairs) = score_pairs(&after_triples);
    assert_eq!(pair_score, 0);
    assert_eq!(pairs.len(), 0);
    assert_eq!(cards_to_string(&after_pairs), "9C");
}

#[test]
fn test_quads_in_the_last_four() {
    let hand = cards(&["2C", "7D", "7H", "7S", "7C"]);
    let (score, groups, rest) = score_quads(&hand);
    assert_eq!(score, 12);
    assert_eq!(shown(&groups), vec!["7D 7H 7S 7C"]);
    assert_eq!(cards_to_string(&rest), "2C");
}

#[test]
fn test_quads_none() {
    let hand = cards(&["2C", "7D", "7H", "7S", "9C"]);
    let (score, groups, rest) = score_quads(&hand);
    assert_eq!(score, 0);
    assert_eq!(groups.len(), 0);
    assert_eq!(rest, hand);
}

#[test]
fn test_quads_of_five_alike_are_found_once() {
    let hand = cards(&["7C", "7D", "7H", "7S", "7C"]);
    let (score, groups, rest) = score_quads(&hand);
    assert_eq!(score, 12);
    assert_eq!(shown(&groups), vec!["7C 7D 7H 7S"]);
    assert_eq!(cards_to_string(&rest), "7C");
}

#[test]
fn test_triples() {
    let hand = cards(&["2C", "7D", "7H", "7S", "9C"]);
    let (score, groups, rest) = score_triples(&hand);
    assert_eq!(score, 3);
    assert_eq!(shown(&groups), vec!["7D 7H 7S"]);
    assert_eq!(cards_to_string(&rest), "2C 9C");

    let hand = cards(&["7D", "7H", "7S", "9C", "9D"]);
    let (score, groups, rest) = score_triples(&hand);
    assert_eq!(score, 3);
    assert_eq!(shown(&groups), vec!["7D 7H 7S"]);
    assert_eq!(cards_to_string(&rest), "9C 9D");

    let hand = cards(&["3D", "3H", "9S", "9C", "9D"]);
    let (score, groups, rest) = score_triples(&hand);
    assert_eq!(score, 3);
    assert_eq!(shown(&groups), vec!["9S 9C 9D"]);
    assert_eq!(cards_to_string(&rest), "3D 3H");
}

#[test]
fn test_triples_of_short_and_plain_hands() {
    let hand = cards(&["7D", "7H"]);
    let (score, groups, rest) = score_triples(&hand);
    assert_eq!(score, 0);
    assert_eq!(groups.len(), 0);
    assert_eq!(rest, hand);

    let none: Vec<CribbageCard> = Vec::new();
    let (score, groups, rest) = score_triples(&none);
    assert_eq!((score, groups.len(), rest.len()), (0, 0, 0));

    let three = cards(&["7D", "7H", "7S"]);
    let (score, groups, rest) = score_triples(&three);
    assert_eq!(score, 3);
    assert_eq!(shown(&groups), vec!["7D 7H 7S"]);
    assert_eq!(rest.len(), 0);

    let four = cards(&["6D", "7H", "7S", "8C"]);
    let (score, groups, rest) = score_triples(&four);
    assert_eq!(score, 0);
    assert_eq!(groups.len(), 0);
    assert_eq!(rest, four);
}

#[test]
fn test_pairs() {
    let hand = cards(&["2C", "2D", "5H", "9S", "9C"]);
    let (score, groups, rest) = score_pairs(&hand);
    assert_eq!(score, 4);
    assert_eq!(shown(&groups), vec!["2C 2D", "9S 9C"]);
    assert_eq!(cards_to_string(&rest), "5H");

    // Three alike: the first two are the pair, the third is left.
    let hand = cards(&["2C", "2D", "2H", "9S"]);
    let (score, groups, rest) = score_pairs(&hand);
    assert_eq!(score, 2);
    assert_eq!(shown(&groups), vec!["2C 2D"]);
    assert_eq!(cards_to_string(&rest), "2H 9S");

    // Equal ranks that are not neighbours are not seen.
    let hand = cards(&["2C", "9S", "2D"]);
    let (score, groups, rest) = score_pairs(&hand);
    assert_eq!(score, 0);
    assert_eq!(groups.len(), 0);
    assert_eq!(rest, hand);

    // Rank decides, not what the cards count for.
    let hand = cards(&["10C", "JC", "QD", "QS"]);
    let (score, groups, rest) = score_pairs(&hand);
    assert_eq!(score, 2);
    assert_eq!(shown(&groups), vec!["QD QS"]);
    assert_eq!(cards_to_string(&rest), "10C JC");
}

#[test]
fn test_pairs_of_short_hands() {
    let none: Vec<CribbageCard> = Vec::new();
    let (score, groups, rest) = score_pairs(&none);
    assert_eq!((score, groups.len(), rest.len()), (0, 0, 0));
    let one = cards(&["4H"]);
    let (score, groups, rest) = score_pairs(&one);
    assert_eq!(score, 0);
    assert_eq!(groups.len(), 0);
    assert_eq!(rest, one);
    let two = cards(&["4H", "4S"]);
    let (score, groups, rest) = score_pairs(&two);
    assert_eq!(score, 2);
    assert_eq!(shown(&groups), vec!["4H 4S"]);
    assert_eq!(rest.len(), 0);
}

#[test]
fn test_run_of_the_whole_hand() {
    let hand = cards(&["3C", "4D", "5H", "6S", "7C"]);
    let (score, groups, rest) = score_runs(&hand);
    assert_eq!(score, 5);
    assert_eq!(shown(&groups), vec!["3C 4D 5H 6S 7C"]);
    assert_eq!(rest.len(), 0);
}

#[test]
fn test_runs_inside_a_hand() {
    let hand = cards(&["AC", "5D", "6H", "7S", "KC"]);
    let (score, groups, rest) = score_runs(&hand);
    assert_eq!(score, 3);
    assert_eq!(shown(&groups), vec!["5D 6H 7S"]);
    assert_eq!(cards_to_string(&rest), "AC KC");

    let hand = cards(&["AC", "2D", "9H", "10S", "JC"]);
    let (score, groups, rest) = score_runs(&hand);
    assert_eq!(score, 3);
    assert_eq!(shown(&groups), vec!["9H 10S JC"]);
    assert_eq!(cards_to_string(&rest), "AC 2D");

    let hand = cards(&["AC", "2D", "3H", "4S", "9C"]);
    let (score, groups, rest) = score_runs(&hand);
    assert_eq!(score, 4);
    assert_eq!(shown(&groups), vec!["AC 2D 3H 4S"]);
    assert_eq!(cards_to_string(&rest), "9C");
}

#[test]
fn test_runs_broken_by_a_pair() {
    let hand = cards(&["3C", "4D", "4H", "5S", "9C"]);
    let (score, groups, rest) = score_runs(&hand);
    assert_eq!(score, 0);
    assert_eq!(groups.len(), 0);
    assert_eq!(rest, hand);
}

#[test]
fn test_runs_of_short_hands() {
    let none: Vec<CribbageCard> = Vec::new();
    let (score, groups, rest) = score_runs(&none);
    assert_eq!((score, groups.len(), rest.len()), (0, 0, 0));
    let two = cards(&["4H", "5S"]);
    let (score, groups, rest) = score_runs(&two);
    assert_eq!(score, 0);
    assert_eq!(groups.len(), 0);
    assert_eq!(rest, two);
    let three = cards(&["4H", "5S", "6S"]);
    let (score, groups, rest) = score_runs(&three);
    assert_eq!(score, 3);
    assert_eq!(shown(&groups), vec!["4H 5S 6S"]);
    assert_eq!(rest.len(), 0);
}

#[test]
fn test_two_runs_in_a_long_hand() {
    let hand = cards(&["AC", "2D", "3H", "5S", "6C", "7D", "8H"]);
    let (score, groups, rest) = score_runs(&hand);
    assert_eq!(shown(&groups), vec!["AC 2D 3H", "5S 6C 7D 8H"]);
    assert_eq!(score, 4);
    assert_eq!(rest.len(), 0);
}

#[test]
fn test_king_and_ace_make_no_run() {
    let hand = cards(&["AC", "2D", "KH"]);
    let (score, groups, rest) = score_runs(&hand);
    assert_eq!(score, 0);
    assert_eq!(groups.len(), 0);
    assert_eq!(rest, hand);

    let hand = cards(&["QC", "KD", "AH", "2S", "9C"]);
    let (score, groups, rest) = score_runs(&hand);
    assert_eq!(score, 0);
    assert_eq!(groups.len(), 0);
    assert_eq!(rest, hand);

    let hand = cards(&["AC", "KD", "QH"]);
    let (score, groups, _rest) = score_runs(&hand);
    assert_eq!(score, 0);
    assert_eq!(groups.len(), 0);

    let hand = cards(&["JC", "QD", "KH", "AS", "2C"]);
    let (score, groups, rest) = score_runs(&hand);
    assert_eq!(score, 3);
    assert_eq!(shown(&groups), vec!["JC QD KH"]);
    assert_eq!(cards_to_string(&rest), "AS 2C");
}

#[test]
fn test_flush_of_empty_and_single_hands() {
    let none: Vec<CribbageCard> = Vec::new();
    let (score, groups) = score_flush(&none);
    assert_eq!(score, 5);
    assert_eq!(groups, vec![none]);
    let one = cards(&["4H"]);
    let (score, groups) = score_flush(&one);
    assert_eq!(score, 5);
    assert_eq!(groups, vec![one]);
}

#[test]
fn test_flush() {
    let hand = cards(&["4H", "9H", "2H", "KH", "AH"]);
    let (score, groups) = score_flush(&hand);
    assert_eq!(score, 5);
    assert_eq!(shown(&groups), vec!["4H 9H 2H KH AH"]);

    let hand = cards(&["4H", "9H", "2H", "KH", "AD"]);
    let (score, groups) = score_flush(&hand);
    assert_eq!(score, 0);
    assert_eq!(groups.len(), 0);

    let hand = cards(&["4S", "9H", "2H", "KH"]);
    let (score, groups) = score_flush(&hand);
    assert_eq!(score, 0);
    assert_eq!(groups.len(), 0);

    let hand = cards(&["4S", "9S"]);
    let (score, groups) = score_flush(&hand);
    assert_eq!(score, 5);
    assert_eq!(shown(&groups), vec!["4S 9S"]);
}
