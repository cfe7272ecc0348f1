//! One round of the game: the combos of a hand that are still to be
//! claimed, and the judgement of each guess.

use vstd::prelude::*;
use vstd::slice::slice_to_vec;

use crate::card::Card;
use crate::combo::{combos_view, same_cards, Combo, ComboView};
use crate::hand::{all_combos, scorable, Hand};
use crate::ui::Guess;

verus! {

/// Points the computer gets when a guess names a combo with a wrong score.
pub const SCORE_BAD_GUESS_WRONG_SCORE: i32 = 1;

/// Points the computer gets when a guess names no combo.
pub const SCORE_BAD_GUESS_INVALID_COMBO: i32 = 2;

/// `x`, held to the range of an `i32`.
pub open spec fn clamp_i32(x: int) -> int {
    if x > i32::MAX {
        i32::MAX as int
    } else if x < i32::MIN {
        i32::MIN as int
    } else {
        x
    }
}

/// The sum of the combos' scores, held to the range of an `i32` after each
/// addition.
pub open spec fn total_score(s: Seq<ComboView>) -> int
    decreases s.len(),
{
    if s.len() == 0 {
        0
    } else {
        clamp_i32(total_score(s.drop_last()) + s.last().score)
    }
}

/// Whether a combo answers a claim: it holds the cards `cards` (in any
/// order) and, when a score is claimed, scores exactly that.
pub open spec fn answers(c: ComboView, cards: Seq<Card>, score: Option<i8>) -> bool {
    &&& same_cards(c.cards, cards)
    &&& match score {
        Some(v) => c.score == v as int,
        None => true,
    }
}

/// The position of the first combo that answers the claim.
pub open spec fn first_answer(s: Seq<ComboView>, cards: Seq<Card>, score: Option<i8>) -> Option<
    int,
>
    decreases s.len(),
{
    if s.len() == 0 {
        None
    } else if answers(s[0], cards, score) {
        Some(0)
    } else {
        match first_answer(s.drop_first(), cards, score) {
            Some(i) => Some(i + 1),
            None => None,
        }
    }
}

proof fn lemma_first_answer_in_range(s: Seq<ComboView>, cards: Seq<Card>, score: Option<i8>)
    ensures
        first_answer(s, cards, score) matches Some(i) ==> 0 <= i < s.len() && answers(
            s[i],
            cards,
            score,
        ),
    decreases s.len(),
{
    if s.len() > 0 {
        lemma_first_answer_in_range(s.drop_first(), cards, score);
    }
}

/// The position of the first of `combos` that answers the claim.
fn find_answer(combos: &Vec<Combo>, cards: &[Card], score: Option<i8>) -> (r: Option<usize>)
    ensures
        r matches Some(i) ==> first_answer(combos_view(combos@), cards@, score) == Some(i as int),
        r is None ==> first_answer(combos_view(combos@), cards@, score) is None,
        r matches Some(i) ==> i < combos@.len(),
{
    let ghost pending = combos_view(combos@);
    proof {
        lemma_first_answer_in_range(pending, cards@, score);
    }
    let mut i: usize = 0;
    assert(pending.subrange(0, pending.len() as int) =~= pending);
    while i < combos.len()
        invariant
            i <= combos@.len(),
            pending == combos_view(combos@),
            first_answer(pending, cards@, score) == match first_answer(
                pending.subrange(i as int, pending.len() as int),
                cards@,
                score,
            ) {
                Some(j) => Some(j + i),
                None => None,
            },
        decreases combos@.len() - i,
    {
        let ghost rest = pending.subrange(i as int, pending.len() as int);
        assert(rest.drop_first() =~= pending.subrange(i + 1, pending.len() as int));
        assert(rest[0] == combos@[i as int]@);
        let score_ok = match score {
            Some(v) => combos[i].score == v,
            None => true,
        };
        if score_ok && combos[i].same_cards(cards) {
            return Some(i);
        }
        i = i + 1;
    }
    assert(pending.subrange(i as int, pending.len() as int) =~= Seq::<ComboView>::empty());
    None
}

/// A copy of a combo.
fn copy_combo(c: &Combo) -> (r: Combo)
    ensures
        r@ == c@,
{
    Combo { cards: slice_to_vec(c.cards.as_slice()), score: c.score, text: c.text.clone() }
}

/// How a guess was judged.
pub enum GuessOutcome {
    /// The cards and the score are those of this combo, now claimed.
    Correct(Combo),
    /// The cards are those of this combo, which stays pending, but the
    /// claimed score is not its score.
    WrongScore(Combo),
    /// No combo holds these cards.
    InvalidCombo,
}

impl GuessOutcome {
    /// The points that the player earns by this guess.
    pub fn player_points(&self) -> (r: i32)
        ensures
            r == match self {
                GuessOutcome::Correct(c) => c.score as int,
                _ => 0,
            },
    {
        match self {
            GuessOutcome::Correct(c) => c.score as i32,
            _ => 0,
        }
    }

    /// The points that the computer earns by this guess.
    pub fn cpu_points(&self) -> (r: i32)
        ensures
            r == match self {
                GuessOutcome::Correct(_) => 0,
                GuessOutcome::WrongScore(_) => SCORE_BAD_GUESS_WRONG_SCORE,
                GuessOutcome::InvalidCombo => SCORE_BAD_GUESS_INVALID_COMBO,
            },
    {
        match self {
            GuessOutcome::Correct(_) => 0,
            GuessOutcome::WrongScore(_) => SCORE_BAD_GUESS_WRONG_SCORE,
            GuessOutcome::InvalidCombo => SCORE_BAD_GUESS_INVALID_COMBO,
        }
    }
}

/// How a round ended.
pub enum RoundEnd {
    /// Every combo was claimed; the player scored this much in the round.
    Win(i32),
    /// Some combos were missed; the computer gets their total score.
    Lose(i32),
}

/// One round: the combos of the dealt hand not yet claimed, and the points
/// that the player has earned so far.
pub struct Game {
    combos: Vec<Combo>,
    player_score: i32,
}

impl Game {
    /// The combos not yet claimed, in the order they were found.
    pub closed spec fn pending(&self) -> Seq<ComboView> {
        combos_view(self.combos@)
    }

    /// The points that the player has earned in this round.
    pub closed spec fn score(&self) -> int {
        self.player_score as int
    }

    /// A round on `hand`, with all its combos to be claimed.
    pub fn new(hand: &Hand<'_>) -> (r: Game)
        requires
            scorable(hand.cards@),
        ensures
            r.pending() == all_combos(hand.cards@),
            r.score() == 0,
    {
        Game { combos: hand.find_all_combos(), player_score: 0 }
    }

    /// The combos not yet claimed.
    pub fn missed_combos(&self) -> (r: &[Combo])
        ensures
            combos_view(r@) == self.pending(),
    {
        self.combos.as_slice()
    }

    /// Judges a guess. The first pending combo with the guessed cards and
    /// the guessed score is claimed: it is no longer pending, and its score
    /// is added to the player's points. When no combo has both, but one has
    /// the cards, the score was wrong; otherwise no combo holds those cards.
    /// Neither of these changes the round.
    pub fn guess(&mut self, guess: &Guess) -> (r: GuessOutcome)
        ensures
            match first_answer(old(self).pending(), guess.cards@, Some(guess.score)) {
                Some(i) => {
                    let c = old(self).pending()[i];
                    &&& r matches GuessOutcome::Correct(k) && k@ == c
                    &&& final(self).pending() == old(self).pending().remove(i)
                    &&& final(self).score() == clamp_i32(old(self).score() + c.score)
                },
                None => {
                    &&& final(self).pending() == old(self).pending()
                    &&& final(self).score() == old(self).score()
                    &&& match first_answer(old(self).pending(), guess.cards@, None) {
                        Some(j) => r matches GuessOutcome::WrongScore(k) && k@ == old(
                            self,
                        ).pending()[j],
                        None => r is InvalidCombo,
                    }
                },
            },
    {
        let ghost pending = combos_view(self.combos@);
        proof {
            lemma_first_answer_in_range(pending, guess.cards@, Some(guess.score));
            lemma_first_answer_in_range(pending, guess.cards@, None);
        }
        match find_answer(&self.combos, guess.cards.as_slice(), Some(guess.score)) {
            Some(i) => {
                let ghost before = self.combos@;
                let combo = self.combos.remove(i);
                assert(combo == before[i as int]);
                assert(combo@ == pending[i as int]);
                assert(combos_view(self.combos@) =~= pending.remove(i as int));
                let sum = self.player_score as i64 + combo.score as i64;
                self.player_score = if sum > i32::MAX as i64 {
                    i32::MAX
                } else if sum < i32::MIN as i64 {
                    i32::MIN
                } else {
                    sum as i32
                };
                GuessOutcome::Correct(combo)
            },
            None => match find_answer(&self.combos, guess.cards.as_slice(), None) {
                Some(j) => {
                    let combo = copy_combo(&self.combos[j]);
                    assert(combo@ == pending[j as int]);
                    GuessOutcome::WrongScore(combo)
                },
                None => GuessOutcome::InvalidCombo,
            },
        }
    }

    /// How the round ends: a win with the player's points when every combo
    /// was claimed, else a loss with the total score of those missed.
    pub fn finish(&self) -> (r: RoundEnd)
        ensures
            self.pending().len() == 0 ==> r == RoundEnd::Win(self.score() as i32),
            self.pending().len() > 0 ==> r == RoundEnd::Lose(total_score(self.pending()) as i32),
    {
        if self.combos.len() == 0 {
            return RoundEnd::Win(self.player_score);
        }
        let ghost pending = combos_view(self.combos@);
        let mut total: i32 = 0;
        let mut i: usize = 0;
        while i < self.combos.len()
            invariant
                i <= self.combos@.len(),
                pending == combos_view(self.combos@),
                total == total_score(pending.take(i as int)),
            decreases self.combos@.len() - i,
        {
            assert(pending.take(i + 1).drop_last() =~= pending.take(i as int));
            let sum = total as i64 + self.combos[i].score as i64;
            total = if sum > i32::MAX as i64 {
                i32::MAX
            } else if sum < i32::MIN as i64 {
                i32::MIN
            } else {
                sum as i32
            };
            i = i + 1;
        }
        assert(pending.take(pending.len() as int) =~= pending);
        RoundEnd::Lose(total)
    }
}

} // verus!
