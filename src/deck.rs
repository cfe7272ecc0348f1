//! A standard 52-card deck.

use rand::seq::SliceRandom;
use vstd::prelude::*;
use vstd::slice::slice_subrange;

use crate::card::{Card, Suit};
use crate::hand::Hand;

verus! {

/// The suit at position `i` in the order Spades, Clubs, Hearts, Diamonds.
pub open spec fn suit_at(i: int) -> Suit {
    if i == 0 {
        Suit::Spades
    } else if i == 1 {
        Suit::Clubs
    } else if i == 2 {
        Suit::Hearts
    } else {
        Suit::Diamonds
    }
}

/// The 52 cards in order: by number from ace to king, and within a number
/// by suit, Spades, Clubs, Hearts, Diamonds.
pub open spec fn ordered_deck() -> Seq<Card> {
    Seq::new(52, |i: int| Card { suit: suit_at(i % 4), number: (i / 4 + 1) as i8 })
}

/// Relies on rand's `SliceRandom::shuffle` with `rand::thread_rng`: it only
/// swaps elements of the slice, so the cards come out in some order of the
/// same cards. Which order depends on the random generator.
#[verifier::external_body]
fn shuffle_cards(cards: &mut Vec<Card>)
    ensures
        final(cards)@.len() == old(cards)@.len(),
        final(cards)@.to_multiset() == old(cards)@.to_multiset(),
{
    cards.shuffle(&mut rand::thread_rng());
}

/// A deck of the 52 distinct cards, in some order.
pub struct Deck {
    cards: Vec<Card>,
}

impl Deck {
    /// The cards of the deck, top first.
    pub closed spec fn cards(&self) -> Seq<Card> {
        self.cards@
    }

    /// The deck holds each of the 52 cards once.
    pub open spec fn wf(&self) -> bool {
        &&& self.cards().len() == 52
        &&& self.cards().to_multiset() == ordered_deck().to_multiset()
    }

    /// A deck in order: aces first, each number in suit order.
    pub fn new() -> (r: Deck)
        ensures
            r.wf(),
            r.cards() == ordered_deck(),
    {
        let mut cards: Vec<Card> = Vec::new();
        let mut number: i8 = 1;
        while number <= 13
            invariant
                1 <= number <= 14,
                cards@ == ordered_deck().take(4 * (number - 1)),
            decreases 14 - number,
        {
            cards.push(Card { number, suit: Suit::Spades });
            cards.push(Card { number, suit: Suit::Clubs });
            cards.push(Card { number, suit: Suit::Hearts });
            cards.push(Card { number, suit: Suit::Diamonds });
            assert(cards@ =~= ordered_deck().take(4 * number));
            number = number + 1;
        }
        assert(cards@ =~= ordered_deck());
        Deck { cards }
    }

    /// Puts the cards in a random order.
    pub fn shuffle(&mut self)
        requires
            old(self).wf(),
        ensures
            final(self).wf(),
            final(self).cards().to_multiset() == old(self).cards().to_multiset(),
    {
        shuffle_cards(&mut self.cards);
    }

    /// A hand of the top `size` cards.
    pub fn deal_hand(&self, size: usize) -> (r: Hand<'_>)
        requires
            self.wf(),
            size <= 52,
        ensures
            r.cards@ == self.cards().take(size as int),
    {
        Hand::new(slice_subrange(self.cards.as_slice(), 0, size))
    }
}

} // verus!
