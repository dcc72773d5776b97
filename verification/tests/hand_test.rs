use rust_cribbage::cards::{cards_to_string, create_standard_deck, Card, MutableCardCollection, Suit};
use rust_cribbage::cribbage_cards::CribbageCard;
use rust_cribbage::cribbage_scoring::{
    score_hand, score_hand_with, FlushScope, HandScore, ScoreError, ScoringMode, ScoringRules,
};

fn card(text: &'static str) -> CribbageCard {
    let (rank, suit) = text.split_at(text.len() - 1);
    let suit = match suit {
        "H" => Suit::HEARTS,
        "S" => Suit::SPADES,
        "D" => Suit::DIAMONDS,
        _ => Suit::CLUBS,
    };
    CribbageCard::new(rank, suit)
}

fn cards(texts: &[&'static str]) -> Vec<CribbageCard> {
    texts.iter().map(|t| card(t)).collect()
}

fn shown(groups: &Vec<Vec<CribbageCard>>) -> Vec<String> {
    groups.iter().map(|g| cards_to_string(g)).collect()
}

fn account(hand: &[&'static str], cut: &'static str, rules: ScoringRules) -> HandScore {
    match score_hand_with(&cards(hand), Some(card(cut)), rules) {
        Ok(account) => account,
        Err(e) => panic!("not scored: {:?}", e),
    }
}

fn count_fifteens_by_hand(hand: &Vec<CribbageCard>) -> usize {
    let mut found = 0;
    for mask in 1u32..(1u32 << hand.len()) {
        let mut total = 0;
        for (i, c) in hand.iter().enumerate() {
            if mask & (1 << i) != 0 {
                total += c.get_value() as i32;
            }
        }
        if total == 15 {
            found += 1;
        }
    }
    found
}

#[test]
fn test_default_rules() {
    let rules = ScoringRules::default();
    assert_eq!(rules.mode, ScoringMode::AllCategories);
    assert_eq!(rules.flush, FlushScope::WithCutCard);
}

#[test]
fn test_four_fives_and_a_jack() {
    let found = account(&["5S", "5H", "5D", "JC"], "5C", ScoringRules::default());
    assert_eq!(found.fifteens.score, 16);
    assert_eq!(found.fifteens.groups.len(), 8);
    assert_eq!(
        found.fifteens.groups.len(),
        count_fifteens_by_hand(&cards(&["5S", "5H", "5D", "JC", "5C"]))
    );
    assert_eq!(
        shown(&found.fifteens.groups),
        vec![
            "5D 5H 5S", "5C 5H 5S", "5C 5D 5S", "JC 5S", "5C 5D 5H", "JC 5H", "JC 5D", "JC 5C"
        ]
    );
    assert_eq!(found.quads.score, 12);
    assert_eq!(shown(&found.quads.groups), vec!["5S 5H 5D 5C"]);
    assert_eq!(found.triples.score, 0);
    assert_eq!(found.triples.groups.len(), 0);
    assert_eq!(found.pairs.score, 0);
    assert_eq!(found.pairs.groups.len(), 0);
    assert_eq!(found.runs.score, 0);
    assert_eq!(found.runs.groups.len(), 0);
    assert_eq!(found.flush.score, 0);
    assert_eq!(found.flush.groups.len(), 0);
    assert_eq!(found.total, 28);
    assert_eq!(score_hand(&cards(&["5S", "5H", "5D", "JC"]), card("5C")), 28);
}

#[test]
fn test_four_of_a_kind_among_court_cards() {
    // All five cards count for ten; only their ranks tell them apart.
    let found = account(&["JC", "JD", "QH", "JS"], "JH", ScoringRules::default());
    assert_eq!(found.quads.score, 12);
    assert_eq!(shown(&found.quads.groups), vec!["JC JD JS JH"]);
    assert_eq!(found.triples.groups.len(), 0);
    assert_eq!(found.pairs.groups.len(), 0);
    assert_eq!(found.fifteens.score, 0);
    assert_eq!(found.runs.score, 0);
    assert_eq!(found.total, 12);
}

#[test]
fn test_three_of_a_kind_among_court_cards() {
    let found = account(&["JC", "QD", "KH", "JS"], "JH", ScoringRules::default());
    assert_eq!(found.quads.score, 0);
    assert_eq!(found.triples.score, 3);
    assert_eq!(shown(&found.triples.groups), vec!["JC JS JH"]);
    assert_eq!(found.pairs.score, 0);
    assert_eq!(shown(&found.runs.groups), vec!["JH QD KH"]);
    assert_eq!(found.runs.score, 3);
    assert_eq!(found.total, 6);
}

#[test]
fn test_run_fifteens_and_flush() {
    let rules = ScoringRules::default();
    let found = account(&["3H", "9H", "AH", "2H"], "KH", rules);
    assert_eq!(shown(&found.fifteens.groups), vec!["9H 3H 2H AH", "KH 3H 2H"]);
    assert_eq!(found.fifteens.score, 4);
    assert_eq!(shown(&found.runs.groups), vec!["AH 2H 3H"]);
    assert_eq!(found.runs.score, 3);
    assert_eq!(shown(&found.flush.groups), vec!["3H 9H AH 2H KH"]);
    assert_eq!(found.flush.score, 5);
    assert_eq!(found.quads.score + found.triples.score + found.pairs.score, 0);
    assert_eq!(found.total, 12);
}

#[test]
fn test_flush_scope() {
    let all_five = ScoringRules { mode: ScoringMode::AllCategories, flush: FlushScope::WithCutCard };
    let dealt = ScoringRules { mode: ScoringMode::AllCategories, flush: FlushScope::DealtCards };
    let with_cut = account(&["3H", "9H", "AH", "2H"], "KS", all_five);
    assert_eq!(with_cut.flush.score, 0);
    assert_eq!(with_cut.flush.groups.len(), 0);
    assert_eq!(with_cut.total, 7);
    let without_cut = account(&["3H", "9H", "AH", "2H"], "KS", dealt);
    assert_eq!(without_cut.flush.score, 5);
    assert_eq!(shown(&without_cut.flush.groups), vec!["3H 9H AH 2H"]);
    assert_eq!(without_cut.total, 12);
    let no_flush = account(&["3H", "9S", "AH", "2H"], "KH", dealt);
    assert_eq!(no_flush.flush.score, 0);
    assert_eq!(no_flush.total, 7);
}

#[test]
fn test_fifteens_only() {
    let rules = ScoringRules { mode: ScoringMode::FifteensOnly, flush: FlushScope::WithCutCard };
    let found = account(&["3H", "9H", "AH", "2H"], "KH", rules);
    assert_eq!(found.total, 4);
    assert_eq!(found.fifteens.score, 4);
    assert_eq!(found.runs.score, 3);
    assert_eq!(found.flush.score, 5);
    let found = account(&["5S", "5H", "5D", "JC"], "5C", rules);
    assert_eq!(found.total, 16);
    assert_eq!(found.quads.score, 12);
}

#[test]
fn test_pairs_and_triples_in_a_hand() {
    let found = account(&["9C", "2D", "9H", "2S"], "KC", ScoringRules::default());
    assert_eq!(shown(&found.pairs.groups), vec!["2D 2S", "9C 9H"]);
    assert_eq!(found.pairs.score, 4);
    assert_eq!(found.fifteens.score, 0);
    assert_eq!(found.total, 4);

    let found = account(&["9C", "2D", "9H", "2S"], "9S", ScoringRules::default());
    assert_eq!(shown(&found.triples.groups), vec!["9C 9H 9S"]);
    assert_eq!(found.triples.score, 3);
    assert_eq!(shown(&found.pairs.groups), vec!["2D 2S"]);
    assert_eq!(found.pairs.score, 2);
    assert_eq!(found.total, 5);
}

#[test]
fn test_hand_with_nothing() {
    let found = account(&["2C", "4D", "6H", "8S"], "KC", ScoringRules::default());
    assert_eq!(found.total, 0);
    assert_eq!(found.fifteens.groups.len(), 0);
    assert_eq!(found.runs.groups.len(), 0);
}

#[test]
fn test_wrong_hand_size_is_turned_down() {
    let rules = ScoringRules::default();
    let three = cards(&["5S", "5H", "5D"]);
    assert_eq!(score_hand_with(&three, Some(card("5C")), rules), Err(ScoreError::WrongHandSize));
    let five = cards(&["5S", "5H", "5D", "JC", "2C"]);
    assert_eq!(score_hand_with(&five, Some(card("5C")), rules), Err(ScoreError::WrongHandSize));
    let none: Vec<CribbageCard> = Vec::new();
    assert_eq!(score_hand_with(&none, Some(card("5C")), rules), Err(ScoreError::WrongHandSize));
    assert_eq!(score_hand_with(&three, None, rules), Err(ScoreError::WrongHandSize));
}

#[test]
fn test_missing_cut_card_is_turned_down() {
    let hand = cards(&["5S", "5H", "5D", "JC"]);
    assert_eq!(
        score_hand_with(&hand, None, ScoringRules::default()),
        Err(ScoreError::MissingCutCard)
    );
}

#[test]
fn test_scoring_twice_gives_the_same_account() {
    for _ in 0..20 {
        let mut deck = create_standard_deck::<CribbageCard>();
        deck.shuffle();
        let hand = deck.draw_top(4);
        let cut = deck.draw_top(1)[0];
        let rules = ScoringRules::default();
        let first = score_hand_with(&hand, Some(cut), rules);
        let second = score_hand_with(&hand, Some(cut), rules);
        assert!(first.is_ok());
        assert_eq!(first, second);
        assert_eq!(score_hand(&hand, cut), score_hand(&hand, cut));
        let found = first.unwrap();
        assert_eq!(score_hand(&hand, cut), found.total);
        assert_eq!(
            found.total,
            found.fifteens.score as i32
                + found.quads.score as i32
                + found.triples.score as i32
                + found.pairs.score as i32
                + found.runs.score as i32
                + found.flush.score as i32
        );
        let mut full = hand.clone();
        full.push(cut);
        assert_eq!(found.fifteens.groups.len(), count_fifteens_by_hand(&full));
    }
}

#[test]
fn test_no_card_is_in_two_groups_of_a_kind() {
    for _ in 0..20 {
        let mut deck = create_standard_deck::<CribbageCard>();
        deck.shuffle();
        let hand = deck.draw_top(4);
        let cut = deck.draw_top(1)[0];
        let found = match score_hand_with(&hand, Some(cut), ScoringRules::default()) {
            Ok(found) => found,
            Err(e) => panic!("not scored: {:?}", e),
        };
        let mut used: Vec<CribbageCard> = Vec::new();
        for groups in [&found.quads.groups, &found.triples.groups, &found.pairs.groups] {
            for group in groups.iter() {
                for c in group.iter() {
                    assert!(!used.contains(c));
                    used.push(*c);
                }
            }
        }
        assert!(used.len() <= 5);
        for group in found.quads.groups.iter() {
            assert_eq!(group.len(), 4);
        }
        for group in found.triples.groups.iter() {
            assert_eq!(group.len(), 3);
        }
        for group in found.pairs.groups.iter() {
            assert_eq!(group.len(), 2);
            assert_eq!(group[0].get_rank(), group[1].get_rank());
        }
        for group in found.runs.groups.iter() {
            assert!(group.len() >= 3);
            for k in 0..group.len() - 1 {
                assert!(group[k].directly_precedes(group[k + 1]));
            }
        }
    }
}

#[test]
fn test_full_house() {
    let found = account(&["8C", "KD", "8H", "KS"], "KC", ScoringRules::default());
    assert_eq!(shown(&found.triples.groups), vec!["KD KS KC"]);
    assert_eq!(shown(&found.pairs.groups), vec!["8C 8H"]);
    assert_eq!(found.triples.score, 3);
    assert_eq!(found.pairs.score, 2);
    assert_eq!(found.fifteens.score, 0);
    assert_eq!(found.total, 5);
}
