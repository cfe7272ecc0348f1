use cribbage::card::{parse_cards, Card, Suit};
use cribbage::combo::Combo;
use cribbage::hand::{cards_str, Hand};

fn cards(text: &str) -> Vec<Card> {
    parse_cards(text).unwrap()
}

fn summary(combos: &[Combo]) -> Vec<(String, i8, String)> {
    combos
        .iter()
        .map(|c| (cards_str(&c.cards), c.score, c.text.clone()))
        .collect()
}

fn row(cards: &str, score: i8, text: &str) -> (String, i8, String) {
    (cards.to_string(), score, text.to_string())
}

#[test]
fn test_find_runs() {
    let card_1 = Card { number: 1, suit: Suit::Diamonds };
    let card_2a = Card { number: 2, suit: Suit::Diamonds };
    let card_2b = Card { number: 2, suit: Suit::Spades };
    let card_3a = Card { number: 3, suit: Suit::Diamonds };
    let card_3b = Card { number: 3, suit: Suit::Spades };
    let cards = vec![card_1, card_2a, card_2b, card_3a, card_3b];
    let hand = Hand::new(&cards);
    let mut runs = vec![];
    hand.find_runs(&mut runs);
    assert_eq!(runs.len(), 4);
    assert_eq!(cards_str(&runs[0].cards), "AD 2D 3D");
    assert_eq!(cards_str(&runs[1].cards), "AD 2S 3D");
    assert_eq!(cards_str(&runs[2].cards), "AD 2D 3S");
    assert_eq!(cards_str(&runs[3].cards), "AD 2S 3S");
}

#[test]
fn runs_score_the_number_of_ranks() {
    let h = cards("AD 2D 2S 3D 3S");
    let mut runs = vec![];
    Hand::new(&h).find_runs(&mut runs);
    for run in &runs {
        assert_eq!(run.score, 3);
        assert_eq!(run.text, "run of 3");
    }
    let h = cards("3S 4C 5H 6D 9S");
    let mut runs = vec![];
    Hand::new(&h).find_runs(&mut runs);
    assert_eq!(summary(&runs), vec![row("3S 4C 5H 6D", 4, "run of 4")]);
}

#[test]
fn two_ranks_in_a_row_are_no_run() {
    let h = cards("AS 2C 4H 5D 7S");
    let mut runs = vec![];
    Hand::new(&h).find_runs(&mut runs);
    assert!(runs.is_empty());
}

#[test]
fn fifteens_are_found_independently() {
    let h = cards("5H 10S 7C 8D AS");
    let mut combos = vec![];
    Hand::new(&h).find_fifteens(&mut combos);
    assert_eq!(
        summary(&combos),
        vec![row("5H 10S", 2, "fifteen"), row("7C 8D", 2, "fifteen")]
    );
}

#[test]
fn fifteens_count_face_cards_as_ten() {
    let h = cards("5S 5C 5H JD 5D");
    let mut combos = vec![];
    Hand::new(&h).find_fifteens(&mut combos);
    assert_eq!(combos.len(), 8);
    assert_eq!(cards_str(&combos[0].cards), "5S 5C 5H");
    assert_eq!(cards_str(&combos[1].cards), "5S JD");
    assert_eq!(cards_str(&combos[7].cards), "JD 5D");
}

#[test]
fn four_of_a_kind_scores_twelve() {
    let h = cards("4S 4C 4H 4D 9S");
    let mut combos = vec![];
    Hand::new(&h).find_n_of_kind(&mut combos);
    assert_eq!(summary(&combos), vec![row("4S 4C 4H 4D", 12, "4 of a kind")]);
}

#[test]
fn three_of_a_kind_scores_six() {
    let h = cards("4S 4C 4H KD 9S");
    let mut combos = vec![];
    Hand::new(&h).find_n_of_kind(&mut combos);
    assert_eq!(summary(&combos), vec![row("4S 4C 4H", 6, "3 of a kind")]);
}

#[test]
fn a_lone_pair_scores_two() {
    let h = cards("2S 2C 5H 9D KS");
    let mut combos = vec![];
    Hand::new(&h).find_n_of_kind(&mut combos);
    assert_eq!(summary(&combos), vec![row("2S 2C", 2, "2 of a kind")]);
}

#[test]
fn five_of_a_suit_is_a_flush() {
    let h = cards("2H 5H 9H JH KH");
    let mut combos = vec![];
    Hand::new(&h).find_flush(&mut combos);
    assert_eq!(summary(&combos), vec![row("2H 5H 9H JH KH", 5, "5-flush")]);
}

#[test]
fn four_of_a_suit_is_no_flush() {
    let h = cards("2H 5H 9H JH KS");
    let mut combos = vec![];
    Hand::new(&h).find_flush(&mut combos);
    assert!(combos.is_empty());
}

#[test]
fn all_combos_come_in_detector_order() {
    let h = cards("AD 2D 2S 3D 3S");
    let hand = Hand::new(&h);
    assert!(hand.is_scorable());
    assert_eq!(
        summary(&hand.find_all_combos()),
        vec![
            row("2D 2S", 2, "2 of a kind"),
            row("3D 3S", 2, "2 of a kind"),
            row("AD 2D 3D", 3, "run of 3"),
            row("AD 2S 3D", 3, "run of 3"),
            row("AD 2D 3S", 3, "run of 3"),
            row("AD 2S 3S", 3, "run of 3"),
        ]
    );
    let h = cards("2H 5H 9H JH KH");
    assert_eq!(
        summary(&Hand::new(&h).find_all_combos()),
        vec![
            row("5H JH", 2, "fifteen"),
            row("5H KH", 2, "fifteen"),
            row("2H 5H 9H JH KH", 5, "5-flush"),
        ]
    );
}

#[test]
fn scoring_twice_gives_the_same_combos() {
    let h = cards("5S 5C 5H JD 5D");
    let hand = Hand::new(&h);
    assert_eq!(summary(&hand.find_all_combos()), summary(&hand.find_all_combos()));
}

#[test]
fn an_empty_hand_has_no_combos() {
    let h: Vec<Card> = vec![];
    let hand = Hand::new(&h);
    assert!(hand.is_scorable());
    assert!(hand.find_all_combos().is_empty());
}

#[test]
fn scorable_hands() {
    let invalid = vec![Card { number: 14, suit: Suit::Spades }];
    assert!(!Hand::new(&invalid).is_scorable());
    let twelve_fives = vec![Card { number: 5, suit: Suit::Spades }; 12];
    assert!(!Hand::new(&twelve_fives).is_scorable());
    let eleven_fives = vec![Card { number: 5, suit: Suit::Spades }; 11];
    assert!(Hand::new(&eleven_fives).is_scorable());
    let too_many = vec![Card { number: 1, suit: Suit::Spades }; 64];
    assert!(!Hand::new(&too_many).is_scorable());
}

#[test]
fn cards_str_joins_with_spaces() {
    assert_eq!(cards_str(&cards("AD 10S KH")), "AD 10S KH");
    assert_eq!(cards_str(&[]), "");
}

#[test]
fn combo_matches_cards_in_any_order() {
    let combo = Combo { cards: cards("AD 2S 3D"), score: 3, text: "run of 3".to_string() };
    assert!(combo.same_cards(&cards("3D AD 2S")));
    assert!(!combo.same_cards(&cards("AD 2S")));
    assert!(!combo.same_cards(&cards("AD 2D 3D")));
}
