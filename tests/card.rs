use std::str::FromStr;

use cribbage::card::{parse_cards, Card, Suit};

#[test]
fn test_card_parse() {
    assert_eq!(Card::from_str("ks").unwrap(), Card { number: 13, suit: Suit::Spades });
    assert_eq!(Card::from_str("KS").unwrap(), Card { number: 13, suit: Suit::Spades });
    assert_eq!(Card::from_str("13s").unwrap(), Card { number: 13, suit: Suit::Spades });
    assert!(Card::from_str("5X").is_err());
    assert!(Card::from_str("14s").is_err());
    assert!(Card::from_str("0s").is_err());
    assert!(Card::from_str("barf").is_err());
    assert!(Card::from_str("").is_err());
}

#[test]
fn parse_rejects_malformed_notation() {
    for text in ["", "14S", "0S", "5X", "barf", "S", "+S", "-5S", "1 S", "AAS", "128S"] {
        assert!(Card::parse(text).is_err(), "{:?} should not parse", text);
    }
}

#[test]
fn parse_accepts_every_rank_form() {
    assert_eq!(Card::parse("AH").unwrap(), Card { number: 1, suit: Suit::Hearts });
    assert_eq!(Card::parse("1h").unwrap(), Card { number: 1, suit: Suit::Hearts });
    assert_eq!(Card::parse("jc").unwrap(), Card { number: 11, suit: Suit::Clubs });
    assert_eq!(Card::parse("Qd").unwrap(), Card { number: 12, suit: Suit::Diamonds });
    assert_eq!(Card::parse("10D").unwrap(), Card { number: 10, suit: Suit::Diamonds });
    assert_eq!(Card::parse("+7S").unwrap(), Card { number: 7, suit: Suit::Spades });
    assert_eq!(Card::parse("007S").unwrap(), Card { number: 7, suit: Suit::Spades });
}

#[test]
fn parse_error_describes_the_input() {
    let err = Card::parse("5X").unwrap_err();
    assert!(err.description().contains("5X"));
    assert!(err.description().contains("suit"));
}

#[test]
fn display_uses_rank_letters_and_numbers() {
    assert_eq!(Card { number: 1, suit: Suit::Spades }.to_string(), "AS");
    assert_eq!(Card { number: 10, suit: Suit::Hearts }.to_string(), "10H");
    assert_eq!(Card { number: 7, suit: Suit::Clubs }.to_string(), "7C");
    assert_eq!(Card { number: 11, suit: Suit::Diamonds }.to_string(), "JD");
    assert_eq!(Card { number: 12, suit: Suit::Clubs }.to_string(), "QC");
    assert_eq!(Card { number: 13, suit: Suit::Hearts }.to_string(), "KH");
}

#[test]
fn display_then_parse_gives_the_card_back() {
    for suit in [Suit::Spades, Suit::Clubs, Suit::Hearts, Suit::Diamonds] {
        for number in 1..=13 {
            let card = Card { suit, number };
            assert_eq!(Card::parse(&card.to_string()).unwrap(), card);
        }
    }
}

#[test]
fn value_counts_face_cards_as_ten() {
    assert_eq!(Card { number: 1, suit: Suit::Spades }.value(), 1);
    assert_eq!(Card { number: 10, suit: Suit::Spades }.value(), 10);
    assert_eq!(Card { number: 11, suit: Suit::Spades }.value(), 10);
    assert_eq!(Card { number: 13, suit: Suit::Spades }.value(), 10);
}

#[test]
fn parse_cards_trims_and_splits_on_spaces() {
    let cards = parse_cards("  AS 10H kd\n").unwrap();
    assert_eq!(
        cards,
        vec![
            Card { number: 1, suit: Suit::Spades },
            Card { number: 10, suit: Suit::Hearts },
            Card { number: 13, suit: Suit::Diamonds },
        ]
    );
    assert!(parse_cards("AS  2C").is_err());
    assert!(parse_cards("AS 2X").is_err());
    assert!(parse_cards("").is_err());
}

#[test]
fn parse_cards_reports_the_first_bad_field() {
    let err = parse_cards("AS 5X 14S").unwrap_err();
    assert_eq!(err.description(), "invalid card suit: 5X");
    let err = parse_cards("AS 14S 5X").unwrap_err();
    assert_eq!(err.description(), "invalid card number: 14S");
    let err = parse_cards("AS  2C").unwrap_err();
    assert_eq!(err.description(), "invalid card: ");
}

#[test]
fn parse_cards_trims_unicode_whitespace() {
    let cards = parse_cards("\u{3000}\t2C KD\u{a0}\r\n").unwrap();
    assert_eq!(
        cards,
        vec![Card { number: 2, suit: Suit::Clubs }, Card { number: 13, suit: Suit::Diamonds }]
    );
}
