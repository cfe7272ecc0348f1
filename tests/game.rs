use cribbage::card::{parse_cards, Card};
use cribbage::deck::Deck;
use cribbage::game::{Game, GuessOutcome, RoundEnd};
use cribbage::hand::Hand;
use cribbage::ui::Guess;

fn cards(text: &str) -> Vec<Card> {
    parse_cards(text).unwrap()
}

#[test]
fn a_right_guess_claims_the_combo() {
    let h = cards("5H 10S 7C 8D AS");
    let mut game = Game::new(&Hand::new(&h));
    let outcome = game.guess(&Guess { cards: cards("10S 5H"), score: 2 });
    match &outcome {
        GuessOutcome::Correct(c) => assert_eq!(c.cards, cards("5H 10S")),
        _ => panic!("expected a correct guess"),
    }
    assert_eq!(outcome.player_points(), 2);
    assert_eq!(outcome.cpu_points(), 0);
    assert_eq!(game.missed_combos().len(), 1);
}

#[test]
fn a_wrong_score_is_not_a_match() {
    let h = cards("5H 10S 7C 8D AS");
    let mut game = Game::new(&Hand::new(&h));
    let outcome = game.guess(&Guess { cards: cards("8D 7C"), score: 4 });
    assert!(matches!(outcome, GuessOutcome::WrongScore(_)));
    assert_eq!(outcome.player_points(), 0);
    assert_eq!(outcome.cpu_points(), 1);
    assert_eq!(game.missed_combos().len(), 2);
}

#[test]
fn a_guess_claims_the_combo_with_its_score() {
    let h = cards("4S 5S 6S");
    let mut game = Game::new(&Hand::new(&h));
    assert_eq!(game.missed_combos().len(), 2);
    let outcome = game.guess(&Guess { cards: cards("6S 5S 4S"), score: 3 });
    match &outcome {
        GuessOutcome::Correct(c) => assert_eq!(c.text, "run of 3"),
        _ => panic!("expected the run to be claimed"),
    }
    assert_eq!(game.missed_combos().len(), 1);
    assert_eq!(game.missed_combos()[0].text, "fifteen");
    let outcome = game.guess(&Guess { cards: cards("4S 5S 6S"), score: 3 });
    match &outcome {
        GuessOutcome::WrongScore(c) => assert_eq!(c.score, 2),
        _ => panic!("expected a wrong score"),
    }
    assert_eq!(game.missed_combos().len(), 1);
    game.guess(&Guess { cards: cards("4S 5S 6S"), score: 2 });
    assert!(matches!(game.finish(), RoundEnd::Win(5)));
}

#[test]
fn cards_of_no_combo_are_an_invalid_guess() {
    let h = cards("5H 10S 7C 8D AS");
    let mut game = Game::new(&Hand::new(&h));
    let outcome = game.guess(&Guess { cards: cards("5H AS"), score: 2 });
    assert!(matches!(outcome, GuessOutcome::InvalidCombo));
    assert_eq!(outcome.cpu_points(), 2);
    assert_eq!(game.missed_combos().len(), 2);
}

#[test]
fn claiming_everything_wins_the_round() {
    let h = cards("5H 10S 7C 8D AS");
    let mut game = Game::new(&Hand::new(&h));
    game.guess(&Guess { cards: cards("5H 10S"), score: 2 });
    game.guess(&Guess { cards: cards("7C 8D"), score: 2 });
    assert!(matches!(game.finish(), RoundEnd::Win(4)));
}

#[test]
fn missed_combos_go_to_the_computer() {
    let h = cards("AD 2D 2S 3D 3S");
    let mut game = Game::new(&Hand::new(&h));
    game.guess(&Guess { cards: cards("2S 2D"), score: 2 });
    assert!(matches!(game.finish(), RoundEnd::Lose(14)));
}

#[test]
fn a_new_deck_holds_fifty_two_distinct_cards() {
    let deck = Deck::new();
    let hand = deck.deal_hand(52);
    assert_eq!(hand.cards.len(), 52);
    for (i, a) in hand.cards.iter().enumerate() {
        assert!(a.number >= 1 && a.number <= 13);
        for b in &hand.cards[i + 1..] {
            assert_ne!(a, b);
        }
    }
    assert_eq!(deck.deal_hand(5).cards, &cards("AS AC AH AD 2S")[..]);
}

#[test]
fn shuffling_reorders_the_same_cards() {
    let ordered = Deck::new();
    let mut deck = Deck::new();
    deck.shuffle();
    let before = ordered.deal_hand(52);
    let after = deck.deal_hand(52);
    assert_ne!(before.cards, after.cards);
    for card in before.cards {
        assert!(after.cards.contains(card));
    }
}
