//! A combination of cards that scores points.

use vstd::prelude::*;

use crate::card::Card;

verus! {

/// A scoring unit found in a hand: the cards involved, the points they
/// score, and a label such as `fifteen` or `run of 3`.
pub struct Combo {
    pub cards: Vec<Card>,
    pub score: i8,
    pub text: String,
}

/// What a combo holds, as mathematical values.
pub struct ComboView {
    pub cards: Seq<Card>,
    pub score: int,
    pub text: Seq<char>,
}

impl View for Combo {
    type V = ComboView;

    open spec fn view(&self) -> ComboView {
        ComboView { cards: self.cards@, score: self.score as int, text: self.text@ }
    }
}

/// The views of a sequence of combos.
pub open spec fn combos_view(s: Seq<Combo>) -> Seq<ComboView> {
    s.map_values(|c: Combo| c@)
}

/// Two card collections hold the same cards: they have the same size and
/// every card of the first is one of the second. Order does not matter.
pub open spec fn same_cards(a: Seq<Card>, b: Seq<Card>) -> bool {
    &&& a.len() == b.len()
    &&& forall|i: int| 0 <= i < a.len() ==> b.contains(#[trigger] a[i])
}

impl Combo {
    /// Whether `other` holds the same cards as this combo, in any order.
    pub fn same_cards(&self, other: &[Card]) -> (r: bool)
        ensures
            r == same_cards(self.cards@, other@),
    {
        if self.cards.len() != other.len() {
            return false;
        }
        let mut i: usize = 0;
        while i < self.cards.len()
            invariant
                i <= self.cards@.len(),
                self.cards@.len() == other@.len(),
                forall|j: int| 0 <= j < i ==> other@.contains(#[trigger] self.cards@[j]),
            decreases self.cards@.len() - i,
        {
            let card = self.cards[i];
            let mut found = false;
            let mut j: usize = 0;
            while j < other.len()
                invariant
                    j <= other@.len(),
                    found <==> exists|l: int| 0 <= l < j && other@[l] == card,
                decreases other@.len() - j,
            {
                if other[j] == card {
                    found = true;
                }
                j = j + 1;
            }
            if !found {
                assert(!other@.contains(self.cards@[i as int]));
                return false;
            }
            i = i + 1;
        }
        true
    }
}

} // verus!
