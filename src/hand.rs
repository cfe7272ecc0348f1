//! A hand of cards, and the detectors that find its scoring combinations.

use std::collections::BTreeMap;

use vstd::arithmetic::power2::pow2;
use vstd::prelude::*;
use vstd::slice::slice_to_vec;
use vstd::string::StringExecFns;

use crate::card::{card_text, suit_index, Card};
use crate::combo::{combos_view, Combo, ComboView};
use crate::util::{
    binomial, binomial_coefficient, decimal, decimal_string, group_by, grouped, power_set,
    lemma_pairs, lemma_with_key_absent, subset_of, with_key,
};

verus! {

broadcast use vstd::laws_cmp::group_laws_cmp;

/// The number of each card, in hand order.
pub open spec fn number_keys(h: Seq<Card>) -> Seq<i8> {
    h.map_values(|c: Card| c.number)
}

/// The cards of `h` whose number is `k`, in hand order.
pub open spec fn with_number(h: Seq<Card>, k: i8) -> Seq<Card> {
    with_key(h, number_keys(h), k)
}

/// The sum of the cards' counting values.
pub open spec fn sum_values(s: Seq<Card>) -> int
    decreases s.len(),
{
    if s.len() == 0 {
        0
    } else {
        sum_values(s.drop_last()) + s.last().spec_value()
    }
}

/// The fifteens among the subsets numbered below `m`, in subset order.
pub open spec fn fifteens_below(h: Seq<Card>, m: nat) -> Seq<ComboView>
    decreases m,
{
    if m == 0 {
        Seq::empty()
    } else {
        let prev = fifteens_below(h, (m - 1) as nat);
        let s = subset_of(h, (m - 1) as nat);
        if sum_values(s) == 15 {
            prev.push(ComboView { cards: s, score: 2, text: "fifteen"@ })
        } else {
            prev
        }
    }
}

/// One combo worth 2 for every subset of the hand whose values sum to 15,
/// in the order of the power set enumeration.
pub open spec fn fifteen_combos(h: Seq<Card>) -> Seq<ComboView> {
    fifteens_below(h, pow2(h.len()))
}

/// The combo of a group of cards of one number: 2 points for each pair.
pub open spec fn kind_combo(g: Seq<Card>) -> ComboView {
    ComboView {
        cards: g,
        score: 2 * binomial(g.len() as int, 2),
        text: decimal(g.len()) + " of a kind"@,
    }
}

/// The of-a-kind combos of the numbers below `k`, in ascending number order.
pub open spec fn kinds_below(h: Seq<Card>, k: int) -> Seq<ComboView>
    decreases k,
{
    if k <= 1 {
        Seq::empty()
    } else {
        let prev = kinds_below(h, k - 1);
        let g = with_number(h, (k - 1) as i8);
        if g.len() > 1 {
            prev.push(kind_combo(g))
        } else {
            prev
        }
    }
}

/// One combo for every number that two or more cards of the hand share.
pub open spec fn kind_combos(h: Seq<Card>) -> Seq<ComboView> {
    kinds_below(h, 14)
}

/// The suit position of each card, in hand order.
pub open spec fn suit_keys(h: Seq<Card>) -> Seq<u8> {
    h.map_values(|c: Card| suit_index(c.suit))
}

/// The cards of `h` of the suit at position `i`, in hand order.
pub open spec fn with_suit(h: Seq<Card>, i: u8) -> Seq<Card> {
    with_key(h, suit_keys(h), i)
}

/// The combo of five or more cards of one suit: one point per card.
pub open spec fn flush_combo(g: Seq<Card>) -> ComboView {
    ComboView { cards: g, score: g.len() as int, text: decimal(g.len()) + "-flush"@ }
}

/// The flush combos of the suits before position `i`, in suit order.
pub open spec fn flushes_below(h: Seq<Card>, i: int) -> Seq<ComboView>
    decreases i,
{
    if i <= 0 {
        Seq::empty()
    } else {
        let prev = flushes_below(h, i - 1);
        let g = with_suit(h, (i - 1) as u8);
        if g.len() > 4 {
            prev.push(flush_combo(g))
        } else {
            prev
        }
    }
}

/// One combo for every suit held by more than four cards of the hand, in
/// the order Spades, Clubs, Hearts, Diamonds.
pub open spec fn flush_combos(h: Seq<Card>) -> Seq<ComboView> {
    flushes_below(h, 4)
}

/// The contents of a sequence of card vectors.
pub open spec fn groups_view(s: Seq<Vec<Card>>) -> Seq<Seq<Card>> {
    s.map_values(|v: Vec<Card>| v@)
}

/// For each tail in turn, every card of `g` put in front of it.
pub open spec fn choices_with(g: Seq<Card>, tails: Seq<Seq<Card>>) -> Seq<Seq<Card>>
    decreases tails.len(),
{
    if tails.len() == 0 {
        Seq::empty()
    } else {
        choices_with(g, tails.drop_last()) + g.map_values(|c: Card| seq![c] + tails.last())
    }
}

/// Every way to pick one card from each group, in group order. The choice
/// in the first group changes fastest, then the second, and so on.
pub open spec fn run_choices(groups: Seq<Seq<Card>>) -> Seq<Seq<Card>>
    decreases groups.len(),
{
    if groups.len() == 0 {
        seq![Seq::empty()]
    } else {
        choices_with(groups[0], run_choices(groups.drop_first()))
    }
}

/// The combo of a run of `n` consecutive numbers: one point per number.
pub open spec fn run_combo(cards: Seq<Card>, n: nat) -> ComboView {
    ComboView { cards, score: n as int, text: "run of "@ + decimal(n) }
}

/// One run combo for every way to pick a card of each of the groups.
pub open spec fn run_combos_of(groups: Seq<Seq<Card>>) -> Seq<ComboView> {
    run_choices(groups).map_values(|t: Seq<Card>| run_combo(t, groups.len()))
}

/// The combos of a run of groups of consecutive numbers that has ended:
/// none unless it spans three numbers or more.
pub open spec fn close_run(groups: Seq<Seq<Card>>) -> Seq<ComboView> {
    if groups.len() >= 3 {
        run_combos_of(groups)
    } else {
        Seq::empty()
    }
}

/// The run combos found by scanning the numbers from `k` up to 13, when
/// `groups` holds the groups of the consecutive numbers just before `k`.
pub open spec fn runs_from(h: Seq<Card>, k: int, groups: Seq<Seq<Card>>) -> Seq<ComboView>
    decreases 14 - k,
{
    if k >= 14 {
        close_run(groups)
    } else {
        let g = with_number(h, k as i8);
        if g.len() > 0 {
            runs_from(h, k + 1, groups.push(g))
        } else {
            close_run(groups) + runs_from(h, k + 1, Seq::empty())
        }
    }
}

/// The run combos of a hand: for every maximal stretch of three or more
/// consecutive numbers that the hand holds, one combo per choice of a card
/// of each number, in the order of the stretches.
pub open spec fn run_combos(h: Seq<Card>) -> Seq<ComboView> {
    runs_from(h, 1, Seq::empty())
}

/// Every scoring combo of a hand: the fifteens, then the cards of a kind,
/// then the flushes, then the runs.
pub open spec fn all_combos(h: Seq<Card>) -> Seq<ComboView> {
    fifteen_combos(h) + kind_combos(h) + flush_combos(h) + run_combos(h)
}

/// The notations of `cards`, separated by single spaces.
pub open spec fn cards_text(cards: Seq<Card>) -> Seq<char>
    decreases cards.len(),
{
    if cards.len() == 0 {
        Seq::empty()
    } else if cards.len() == 1 {
        card_text(cards[0])
    } else {
        cards_text(cards.drop_last()) + seq![' '] + card_text(cards.last())
    }
}

/// A hand that every detector can score: a valid hand with no number on
/// more than 11 cards, so that the score of cards of a kind fits in an `i8`.
pub open spec fn scorable(h: Seq<Card>) -> bool {
    &&& valid_hand(h)
    &&& forall|k: i8| (#[trigger] with_number(h, k)).len() <= 11
}

/// Fewer than 64 cards (the power set enumeration counts in 64 bits), each
/// of them valid.
pub open spec fn valid_hand(h: Seq<Card>) -> bool {
    &&& h.len() < 64
    &&& forall|i: int| 0 <= i < h.len() ==> (#[trigger] h[i]).wf()
}

/// A hand of cards, borrowed for the time it is scored.
pub struct Hand<'a> {
    pub cards: &'a [Card],
}

proof fn lemma_subset_len<T>(items: Seq<T>, mask: nat)
    ensures
        subset_of(items, mask).len() <= items.len(),
    decreases items.len(),
{
    if items.len() > 0 {
        lemma_subset_len(items.drop_last(), mask);
    }
}

/// The sum of the counting values of at most 63 cards.
fn sum_of_values(set: &Vec<Card>) -> (r: i32)
    requires
        set@.len() < 64,
    ensures
        r == sum_values(set@),
{
    let mut sum: i32 = 0;
    let mut i: usize = 0;
    while i < set.len()
        invariant
            i <= set@.len() < 64,
            sum == sum_values(set@.take(i as int)),
            -128 * i <= sum <= 10 * i,
        decreases set@.len() - i,
    {
        assert(set@.take(i + 1).drop_last() =~= set@.take(i as int));
        sum = sum + set[i].value() as i32;
        i = i + 1;
    }
    assert(set@.take(set@.len() as int) =~= set@);
    sum
}

/// The cards grouped by number.
fn group_by_number(cards: &[Card]) -> (r: BTreeMap<i8, Vec<Card>>)
    ensures
        grouped(r@, cards@, number_keys(cards@)),
{
    let number_of = |c: &Card| -> (k: i8)
        ensures
            k == c.number,
        { c.number };
    let r = group_by(cards, number_of);
    proof {
        let keys = choose|keys: Seq<i8>|
            {
                &&& keys.len() == cards@.len()
                &&& forall|i: int|
                    0 <= i < cards@.len() ==> number_of.ensures((&cards@[i],), keys[i])
                &&& grouped(r@, cards@, keys)
            };
        assert(keys =~= number_keys(cards@));
    }
    r
}

/// The cards grouped by suit position.
fn group_by_suit(cards: &[Card]) -> (r: BTreeMap<u8, Vec<Card>>)
    ensures
        grouped(r@, cards@, suit_keys(cards@)),
{
    let suit_of = |c: &Card| -> (k: u8)
        ensures
            k == suit_index(c.suit),
        { c.suit.index() };
    let r = group_by(cards, suit_of);
    proof {
        let keys = choose|keys: Seq<u8>|
            {
                &&& keys.len() == cards@.len()
                &&& forall|i: int|
                    0 <= i < cards@.len() ==> suit_of.ensures((&cards@[i],), keys[i])
                &&& grouped(r@, cards@, keys)
            };
        assert(keys =~= suit_keys(cards@));
    }
    r
}

proof fn lemma_with_key_len<T, K>(items: Seq<T>, keys: Seq<K>, k: K)
    ensures
        with_key(items, keys, k).len() <= items.len(),
    decreases items.len(),
{
    if items.len() > 0 {
        lemma_with_key_len(items.drop_last(), keys.take(items.len() - 1), k);
    }
}

/// `front` followed by the cards of `tail`.
fn prepend_card(front: Card, tail: &[Card]) -> (r: Vec<Card>)
    ensures
        r@ == seq![front] + tail@,
{
    let mut r: Vec<Card> = Vec::new();
    r.push(front);
    let mut i: usize = 0;
    while i < tail.len()
        invariant
            i <= tail@.len(),
            r@ == seq![front] + tail@.take(i as int),
        decreases tail@.len() - i,
    {
        r.push(tail[i]);
        i = i + 1;
        assert(r@ =~= seq![front] + tail@.take(i as int));
    }
    assert(tail@.take(tail@.len() as int) =~= tail@);
    r
}

/// Every way to pick one card from each of the groups from position `from`
/// on, in the order of `run_choices`.
fn choices(groups: &[Vec<Card>], from: usize) -> (r: Vec<Vec<Card>>)
    requires
        from <= groups@.len(),
    ensures
        groups_view(r@) == run_choices(groups_view(groups@).subrange(from as int, groups@.len() as int)),
    decreases groups@.len() - from,
{
    let ghost rest = groups_view(groups@).subrange(from as int, groups@.len() as int);
    if from == groups.len() {
        let mut r: Vec<Vec<Card>> = Vec::new();
        r.push(Vec::new());
        assert(groups_view(r@) =~= seq![Seq::<Card>::empty()]);
        assert(rest =~= Seq::<Seq<Card>>::empty());
        return r;
    }
    let tails = choices(groups, from + 1);
    let ghost tv = groups_view(tails@);
    assert(rest.drop_first() =~= groups_view(groups@).subrange(from + 1, groups@.len() as int));
    let group = &groups[from];
    assert(rest[0] == group@);
    let mut out: Vec<Vec<Card>> = Vec::new();
    let mut t: usize = 0;
    while t < tails.len()
        invariant
            t <= tails@.len(),
            tv == groups_view(tails@),
            groups_view(out@) == choices_with(group@, tv.take(t as int)),
        decreases tails@.len() - t,
    {
        let ghost done = groups_view(out@);
        let mut c: usize = 0;
        while c < group.len()
            invariant
                t < tails@.len(),
                c <= group@.len(),
                tv == groups_view(tails@),
                groups_view(out@) == done + group@.take(c as int).map_values(
                    |x: Card| seq![x] + tv[t as int],
                ),
            decreases group@.len() - c,
        {
            let pick = prepend_card(group[c], tails[t].as_slice());
            let ghost before = out@;
            out.push(pick);
            assert(groups_view(out@) =~= groups_view(before).push(pick@));
            assert(group@.take(c + 1).map_values(|x: Card| seq![x] + tv[t as int])
                =~= group@.take(c as int).map_values(|x: Card| seq![x] + tv[t as int]).push(
                seq![group@[c as int]] + tv[t as int],
            ));
            c = c + 1;
            assert(groups_view(out@) =~= done + group@.take(c as int).map_values(
                |x: Card| seq![x] + tv[t as int],
            ));
        }
        assert(group@.take(group@.len() as int) =~= group@);
        assert(tv.take(t + 1).drop_last() =~= tv.take(t as int));
        assert(tv.take(t + 1).last() == tv[t as int]);
        t = t + 1;
    }
    assert(tv.take(tails@.len() as int) =~= tv);
    out
}

impl<'a> Hand<'a> {
    pub fn new(cards: &'a [Card]) -> (r: Hand<'a>)
        ensures
            r.cards@ == cards@,
    {
        Hand { cards: cards }
    }

    /// Appends a `fifteen` combo for every subset of the hand whose values
    /// sum to 15.
    pub fn find_fifteens(&self, combos: &mut Vec<Combo>)
        requires
            valid_hand(self.cards@),
        ensures
            combos_view(final(combos)@) == combos_view(old(combos)@) + fifteen_combos(
                self.cards@,
            ),
    {
        let ghost h = self.cards@;
        let ghost start = combos_view(combos@);
        let mut sets = power_set(self.cards);
        loop
            invariant
                sets.wf(),
                sets.items() == h,
                combos_view(combos@) == start + fifteens_below(h, sets.position()),
            ensures
                combos_view(combos@) == start + fifteen_combos(h),
            decreases pow2(h.len()) - sets.position(),
        {
            let ghost m = sets.position();
            match sets.next() {
                None => {
                    break;
                },
                Some(set) => {
                    proof {
                        lemma_subset_len(h, m);
                    }
                    if sum_of_values(&set) == 15 {
                        let ghost set_view = set@;
                        let combo = Combo { cards: set, score: 2, text: String::from_str("fifteen") };
                        let ghost before = combos@;
                        combos.push(combo);
                        assert(combo@ == ComboView { cards: subset_of(h, m), score: 2, text: "fifteen"@ });
                        assert(combos@ == before.push(combo));
                        assert(combos_view(combos@) =~= combos_view(before).push(combo@));
                        assert(combos_view(combos@) =~= start + fifteens_below(h, m + 1));
                    } else {
                        assert(combos_view(combos@) =~= start + fifteens_below(h, m + 1));
                    }
                },
            }
        }
    }

    /// Appends an `n of a kind` combo for every number that two or more
    /// cards share, in ascending number order.
    pub fn find_n_of_kind(&self, combos: &mut Vec<Combo>)
        requires
            scorable(self.cards@),
        ensures
            combos_view(final(combos)@) == combos_view(old(combos)@) + kind_combos(self.cards@),
    {
        let ghost h = self.cards@;
        let ghost start = combos_view(combos@);
        let by_number = group_by_number(self.cards);
        let mut k: i8 = 1;
        while k <= 13
            invariant
                1 <= k <= 14,
                scorable(h),
                grouped(by_number@, h, number_keys(h)),
                combos_view(combos@) == start + kinds_below(h, k as int),
            decreases 14 - k,
        {
            let ghost before = combos@;
            match by_number.get(&k) {
                Some(group) => {
                    assert(group@ == with_number(h, k));
                    if group.len() > 1 {
                        let n = group.len();
                        proof {
                            lemma_pairs(n as int);
                        }
                        let pairs = binomial_coefficient(n as i8, 2);
                        let mut text = decimal_string(n as u64);
                        text.append(" of a kind");
                        let combo = Combo {
                            cards: slice_to_vec(group.as_slice()),
                            score: 2 * pairs,
                            text: text,
                        };
                        combos.push(combo);
                        assert(combo@ == kind_combo(with_number(h, k)));
                        assert(combos_view(combos@) =~= combos_view(before).push(combo@));
                    }
                },
                None => {
                    proof {
                        lemma_with_key_absent(h, number_keys(h), k);
                    }
                },
            }
            assert(combos_view(combos@) =~= start + kinds_below(h, k + 1));
            k = k + 1;
        }
    }

    /// Appends an `n-flush` combo for every suit that more than four cards
    /// share, in suit order.
    pub fn find_flush(&self, combos: &mut Vec<Combo>)
        requires
            valid_hand(self.cards@),
        ensures
            combos_view(final(combos)@) == combos_view(old(combos)@) + flush_combos(self.cards@),
    {
        let ghost h = self.cards@;
        let ghost start = combos_view(combos@);
        let by_suit = group_by_suit(self.cards);
        let mut i: u8 = 0;
        while i < 4
            invariant
                i <= 4,
                valid_hand(h),
                grouped(by_suit@, h, suit_keys(h)),
                combos_view(combos@) == start + flushes_below(h, i as int),
            decreases 4 - i,
        {
            let ghost before = combos@;
            match by_suit.get(&i) {
                Some(group) => {
                    assert(group@ == with_suit(h, i));
                    if group.len() > 4 {
                        let n = group.len();
                        proof {
                            lemma_with_key_len(h, suit_keys(h), i);
                        }
                        let mut text = decimal_string(n as u64);
                        text.append("-flush");
                        let combo = Combo {
                            cards: slice_to_vec(group.as_slice()),
                            score: n as i8,
                            text: text,
                        };
                        combos.push(combo);
                        assert(combo@ == flush_combo(with_suit(h, i)));
                        assert(combos_view(combos@) =~= combos_view(before).push(combo@));
                    }
                },
                None => {
                    proof {
                        lemma_with_key_absent(h, suit_keys(h), i);
                    }
                },
            }
            assert(combos_view(combos@) =~= start + flushes_below(h, i + 1));
            i = i + 1;
        }
    }

    /// Appends a `run of n` combo for every way to pick one card of each of
    /// the `n` groups of consecutive numbers in `cards`.
    fn make_run_combos(cards: &[Vec<Card>], combos: &mut Vec<Combo>)
        requires
            cards@.len() <= 13,
            forall|i: int| 0 <= i < cards@.len() ==> (#[trigger] cards@[i])@.len() > 0,
        ensures
            combos_view(final(combos)@) == combos_view(old(combos)@) + run_combos_of(
                groups_view(cards@),
            ),
    {
        let ghost start = combos_view(combos@);
        let ghost groups = groups_view(cards@);
        let picks = choices(cards, 0);
        assert(groups.subrange(0, cards@.len() as int) =~= groups);
        let ghost pv = groups_view(picks@);
        let n = cards.len();
        let mut i: usize = 0;
        while i < picks.len()
            invariant
                i <= picks@.len(),
                n == cards@.len() <= 13,
                groups == groups_view(cards@),
                pv == groups_view(picks@),
                pv == run_choices(groups),
                combos_view(combos@) == start + pv.take(i as int).map_values(
                    |t: Seq<Card>| run_combo(t, groups.len()),
                ),
            decreases picks@.len() - i,
        {
            let mut text = String::from_str("run of ");
            let digits = decimal_string(n as u64);
            text.append(digits.as_str());
            let combo = Combo {
                cards: slice_to_vec(picks[i].as_slice()),
                score: n as i8,
                text: text,
            };
            let ghost before = combos@;
            combos.push(combo);
            assert(combo@ == run_combo(pv[i as int], groups.len()));
            assert(combos_view(combos@) =~= combos_view(before).push(combo@));
            assert(pv.take(i + 1).map_values(|t: Seq<Card>| run_combo(t, groups.len()))
                =~= pv.take(i as int).map_values(|t: Seq<Card>| run_combo(t, groups.len())).push(
                run_combo(pv[i as int], groups.len()),
            ));
            i = i + 1;
        }
        assert(pv.take(picks@.len() as int) =~= pv);
    }

    /// Appends the run combos: for every maximal stretch of three or more
    /// consecutive numbers, one `run of n` combo per choice of a card of
    /// each number.
    pub fn find_runs(&self, combos: &mut Vec<Combo>)
        requires
            valid_hand(self.cards@),
        ensures
            combos_view(final(combos)@) == combos_view(old(combos)@) + run_combos(self.cards@),
    {
        let ghost h = self.cards@;
        let ghost start = combos_view(combos@);
        let by_number = group_by_number(self.cards);
        let mut candidates: Vec<Vec<Card>> = Vec::new();
        assert(groups_view(candidates@) =~= Seq::<Seq<Card>>::empty());
        let mut k: i8 = 1;
        while k <= 13
            invariant
                1 <= k <= 14,
                candidates@.len() < k,
                forall|i: int| 0 <= i < candidates@.len() ==> (#[trigger] candidates@[i])@.len() > 0,
                valid_hand(h),
                grouped(by_number@, h, number_keys(h)),
                combos_view(combos@) + runs_from(h, k as int, groups_view(candidates@)) == start
                    + run_combos(h),
            decreases 14 - k,
        {
            let ghost cv = groups_view(candidates@);
            let ghost before = combos_view(combos@);
            let mut extend = false;
            match by_number.get(&k) {
                Some(group) => {
                    assert(group@ == with_number(h, k));
                    if group.len() > 0 {
                        candidates.push(slice_to_vec(group.as_slice()));
                        assert(groups_view(candidates@) =~= cv.push(with_number(h, k)));
                        extend = true;
                    }
                },
                None => {
                    proof {
                        lemma_with_key_absent(h, number_keys(h), k);
                    }
                },
            }
            if !extend {
                assert(with_number(h, k).len() == 0);
                if candidates.len() >= 3 {
                    Self::make_run_combos(candidates.as_slice(), combos);
                }
                candidates = Vec::new();
                assert(groups_view(candidates@) =~= Seq::<Seq<Card>>::empty());
                assert(combos_view(combos@) == before + close_run(cv));
                assert(combos_view(combos@) + runs_from(h, k + 1, groups_view(candidates@))
                    =~= before + runs_from(h, k as int, cv));
            }
            k = k + 1;
        }
        if candidates.len() >= 3 {
            Self::make_run_combos(candidates.as_slice(), combos);
        }
        assert(combos_view(combos@) =~= start + run_combos(h));
    }

    /// Every scoring combo of the hand, detector by detector: fifteens,
    /// cards of a kind, flushes, runs.
    pub fn find_all_combos(&self) -> (r: Vec<Combo>)
        requires
            scorable(self.cards@),
        ensures
            combos_view(r@) == all_combos(self.cards@),
    {
        let mut combos: Vec<Combo> = Vec::new();
        assert(combos_view(combos@) =~= Seq::<ComboView>::empty());
        self.find_fifteens(&mut combos);
        self.find_n_of_kind(&mut combos);
        self.find_flush(&mut combos);
        self.find_runs(&mut combos);
        assert(combos_view(combos@) =~= all_combos(self.cards@));
        combos
    }

    /// Whether the detectors can score this hand: fewer than 64 valid
    /// cards, and no number on more than 11 of them.
    pub fn is_scorable(&self) -> (r: bool)
        ensures
            r == scorable(self.cards@),
    {
        let ghost h = self.cards@;
        if self.cards.len() >= 64 {
            return false;
        }
        let mut i: usize = 0;
        while i < self.cards.len()
            invariant
                i <= h.len(),
                h == self.cards@,
                forall|j: int| 0 <= j < i ==> (#[trigger] h[j]).wf(),
            decreases h.len() - i,
        {
            if self.cards[i].number < 1 || self.cards[i].number > 13 {
                assert(!h[i as int].wf());
                return false;
            }
            i = i + 1;
        }
        let by_number = group_by_number(self.cards);
        let mut k: i8 = 1;
        while k <= 13
            invariant
                1 <= k <= 14,
                h == self.cards@,
                grouped(by_number@, h, number_keys(h)),
                forall|l: i8| 1 <= l < k ==> (#[trigger] with_number(h, l)).len() <= 11,
            decreases 14 - k,
        {
            match by_number.get(&k) {
                Some(group) => {
                    assert(group@ == with_number(h, k));
                    if group.len() > 11 {
                        return false;
                    }
                },
                None => {
                    proof {
                        lemma_with_key_absent(h, number_keys(h), k);
                    }
                },
            }
            k = k + 1;
        }
        assert forall|l: i8| (#[trigger] with_number(h, l)).len() <= 11 by {
            if l < 1 || l > 13 {
                assert(!number_keys(h).contains(l)) by {
                    if number_keys(h).contains(l) {
                        let j = choose|j: int| 0 <= j < h.len() && number_keys(h)[j] == l;
                        assert(h[j].wf());
                    }
                }
                lemma_with_key_absent(h, number_keys(h), l);
            }
        }
        true
    }
}

/// Scoring a hand depends on the hand alone: two results of
/// `find_all_combos` on the same cards hold the same combos.
pub proof fn lemma_find_all_combos_idempotent(h: Seq<Card>, first: Seq<Combo>, second: Seq<Combo>)
    requires
        scorable(h),
        combos_view(first) == all_combos(h),
        combos_view(second) == all_combos(h),
    ensures
        combos_view(first) == combos_view(second),
{
}

/// The notations of `cards`, separated by single spaces (`AD 2S 3D`).
pub fn cards_str(cards: &[Card]) -> (r: String)
    ensures
        r@ == cards_text(cards@),
{
    let mut out = String::new();
    let mut i: usize = 0;
    while i < cards.len()
        invariant
            i <= cards@.len(),
            out@ == cards_text(cards@.take(i as int)),
        decreases cards@.len() - i,
    {
        let ghost pre = cards@.take(i as int);
        assert(cards@.take(i + 1).drop_last() =~= pre);
        if i > 0 {
            out.append(" ");
        }
        let text = cards[i].to_string();
        out.append(text.as_str());
        proof {
            reveal_strlit(" ");
            if i == 0 {
                assert(cards@.take(1) =~= seq![cards@[0]]);
                assert(out@ =~= cards_text(cards@.take(1)));
            } else {
                assert(out@ =~= cards_text(cards@.take(i + 1)));
            }
        }
        i = i + 1;
    }
    assert(cards@.take(cards@.len() as int) =~= cards@);
    out
}

} // verus!
