//! What a front end offers the game: display hooks and guess collection.

use vstd::prelude::*;

use crate::card::Card;
use crate::combo::Combo;
use crate::hand::Hand;

verus! {

/// A player's claim: these cards score this many points.
pub struct Guess {
    pub cards: Vec<Card>,
    pub score: i8,
}

/// Whether a card can join a guess.
pub enum CardChoice {
    /// The card is in the hand and not yet in the guess.
    Accepted,
    /// The guess already holds the card.
    Repeated,
    /// The hand does not hold the card.
    NotInHand,
}

fn holds(cards: &[Card], card: Card) -> (r: bool)
    ensures
        r == cards@.contains(card),
{
    let mut i: usize = 0;
    while i < cards.len()
        invariant
            i <= cards@.len(),
            forall|j: int| 0 <= j < i ==> cards@[j] != card,
        decreases cards@.len() - i,
    {
        if cards[i] == card {
            return true;
        }
        i = i + 1;
    }
    false
}

/// Judges adding `card` to the cards `picked` so far for a guess on `hand`:
/// a guess names each card once, and only cards of the hand.
pub fn choose_card(hand: &Hand<'_>, picked: &[Card], card: Card) -> (r: CardChoice)
    ensures
        picked@.contains(card) ==> r is Repeated,
        !picked@.contains(card) && !hand.cards@.contains(card) ==> r is NotInHand,
        !picked@.contains(card) && hand.cards@.contains(card) ==> r is Accepted,
{
    if holds(picked, card) {
        CardChoice::Repeated
    } else if !holds(hand.cards, card) {
        CardChoice::NotInHand
    } else {
        CardChoice::Accepted
    }
}

/// A front end of the game (a console, a terminal screen).
pub trait UserInterface {
    fn display_hand(&mut self, hand: &Hand<'_>);

    fn display_missed_combos(&mut self, combos: &[Combo]);

    fn display_win_message(&mut self, score: i32);

    fn display_lose_message(&mut self, score: i32);

    fn display_bad_guess_wrong_score(&mut self, actual_combo: &Combo);

    fn display_bad_guess_invalid_combo(&mut self);

    fn display_correct_guess(&mut self, combo: &Combo);

    fn add_score_player(&mut self, score: i32);

    fn add_score_cpu(&mut self, score: i32);

    fn get_guess(&mut self, hand: &Hand<'_>) -> Option<Guess>;
}

} // verus!
