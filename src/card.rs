//! A standard playing card, and its two-character notation.

use vstd::prelude::*;
use vstd::string::{StrSliceExecFns, StringExecFns};

use crate::util::{decimal, decimal_string};

verus! {

#[derive(Debug, PartialEq, Eq, Structural, PartialOrd, Ord, Clone, Copy)]
pub enum Suit {
    Spades,
    Clubs,
    Hearts,
    Diamonds,
}

/// The position of a suit in the order Spades, Clubs, Hearts, Diamonds.
pub open spec fn suit_index(s: Suit) -> u8 {
    match s {
        Suit::Spades => 0,
        Suit::Clubs => 1,
        Suit::Hearts => 2,
        Suit::Diamonds => 3,
    }
}

impl Suit {
    /// The suit's position in the order Spades, Clubs, Hearts, Diamonds.
    pub fn index(&self) -> (r: u8)
        ensures
            r == suit_index(*self),
    {
        match self {
            Suit::Spades => 0,
            Suit::Clubs => 1,
            Suit::Hearts => 2,
            Suit::Diamonds => 3,
        }
    }
}

/// A playing card. `number` is 1 for an ace, 2 to 10 for the pip cards, and
/// 11, 12, 13 for jack, queen and king.
#[derive(Debug, PartialEq, Eq, Structural, Clone, Copy)]
pub struct Card {
    pub suit: Suit,
    pub number: i8,
}

/// The letter that names a suit in card notation.
pub open spec fn suit_letter(s: Suit) -> char {
    match s {
        Suit::Spades => 'S',
        Suit::Clubs => 'C',
        Suit::Hearts => 'H',
        Suit::Diamonds => 'D',
    }
}

/// The suit that a letter names, in either case.
pub open spec fn suit_of_letter(c: char) -> Option<Suit> {
    if c == 's' || c == 'S' {
        Some(Suit::Spades)
    } else if c == 'c' || c == 'C' {
        Some(Suit::Clubs)
    } else if c == 'h' || c == 'H' {
        Some(Suit::Hearts)
    } else if c == 'd' || c == 'D' {
        Some(Suit::Diamonds)
    } else {
        None
    }
}

pub open spec fn is_digit(c: char) -> bool {
    '0' <= c <= '9'
}

pub open spec fn all_digits(s: Seq<char>) -> bool {
    forall|i: int| 0 <= i < s.len() ==> is_digit(#[trigger] s[i])
}

/// The value of a string of decimal digits (leading zeros allowed).
pub open spec fn digits_value(s: Seq<char>) -> nat
    decreases s.len(),
{
    if s.len() == 0 {
        0
    } else {
        10 * digits_value(s.drop_last()) + (s.last() as nat - '0' as nat) as nat
    }
}

/// The value of a decimal integer: an optional `+` or `-` followed by at
/// least one digit.
pub open spec fn integer_value(s: Seq<char>) -> Option<int> {
    if s.len() > 1 && (s[0] == '+' || s[0] == '-') && all_digits(s.drop_first()) {
        if s[0] == '-' {
            Some(-(digits_value(s.drop_first()) as int))
        } else {
            Some(digits_value(s.drop_first()) as int)
        }
    } else if s.len() > 0 && all_digits(s) {
        Some(digits_value(s) as int)
    } else {
        None
    }
}

/// The number that a rank letter `A`, `J`, `Q`, `K` (in either case) names.
pub open spec fn named_rank(s: Seq<char>) -> Option<i8> {
    if s =~= seq!['a'] || s =~= seq!['A'] {
        Some(1)
    } else if s =~= seq!['j'] || s =~= seq!['J'] {
        Some(11)
    } else if s =~= seq!['q'] || s =~= seq!['Q'] {
        Some(12)
    } else if s =~= seq!['k'] || s =~= seq!['K'] {
        Some(13)
    } else {
        None
    }
}

/// The number that the rank part of a card's notation names: a rank letter,
/// or a decimal integer in 1 to 13.
pub open spec fn rank_of(s: Seq<char>) -> Option<i8> {
    if named_rank(s) is Some {
        named_rank(s)
    } else {
        match integer_value(s) {
            Some(v) => if 1 <= v <= 13 {
                Some(v as i8)
            } else {
                None
            },
            None => None,
        }
    }
}

/// The card that a notation `<rank><suit>` names, if any: the suit is the
/// last character, the rank is everything before it.
pub open spec fn parse_card(s: Seq<char>) -> Option<Card> {
    if s.len() == 0 {
        None
    } else {
        match (suit_of_letter(s.last()), rank_of(s.drop_last())) {
            (Some(suit), Some(number)) => Some(Card { suit, number }),
            _ => None,
        }
    }
}

/// The message of the error for a notation `s` that names no card.
pub open spec fn parse_error_text(s: Seq<char>) -> Seq<char> {
    if s.len() == 0 {
        "invalid card: "@ + s
    } else if suit_of_letter(s.last()) is None {
        "invalid card suit: "@ + s
    } else {
        "invalid card number: "@ + s
    }
}

/// How a card's rank is written: `A`, `J`, `Q`, `K`, or the number.
pub open spec fn rank_text(n: i8) -> Seq<char> {
    if n == 1 {
        seq!['A']
    } else if n == 11 {
        seq!['J']
    } else if n == 12 {
        seq!['Q']
    } else if n == 13 {
        seq!['K']
    } else if n < 0 {
        seq!['-'] + decimal((-n) as nat)
    } else {
        decimal(n as nat)
    }
}

/// A card's notation: its rank followed by its suit letter.
pub open spec fn card_text(c: Card) -> Seq<char> {
    rank_text(c.number).push(suit_letter(c.suit))
}

impl Card {
    /// A card is valid when its number is between 1 and 13.
    pub open spec fn wf(self) -> bool {
        1 <= self.number <= 13
    }

    /// The value of the card when counting fifteens: face cards count 10.
    pub open spec fn spec_value(self) -> int {
        if self.number > 10 {
            10
        } else {
            self.number as int
        }
    }

    /// Value of the card for scoring purposes.
    pub fn value(&self) -> (r: i8)
        ensures
            r == self.spec_value(),
    {
        if self.number > 10 {
            10
        } else {
            self.number
        }
    }

    /// The card's notation, such as `AS` or `10H`.
    pub fn to_string(&self) -> (r: String)
        ensures
            r@ == card_text(*self),
    {
        proof {
            reveal_strlit("A");
            reveal_strlit("J");
            reveal_strlit("Q");
            reveal_strlit("K");
            reveal_strlit("-");
            reveal_strlit("S");
            reveal_strlit("C");
            reveal_strlit("H");
            reveal_strlit("D");
        }
        let mut out = if self.number == 1 {
            String::from_str("A")
        } else if self.number == 11 {
            String::from_str("J")
        } else if self.number == 12 {
            String::from_str("Q")
        } else if self.number == 13 {
            String::from_str("K")
        } else if self.number < 0 {
            let mut s = String::from_str("-");
            let digits = decimal_string((-(self.number as i16)) as u64);
            s.append(digits.as_str());
            s
        } else {
            decimal_string(self.number as u64)
        };
        match self.suit {
            Suit::Spades => out.append("S"),
            Suit::Clubs => out.append("C"),
            Suit::Hearts => out.append("H"),
            Suit::Diamonds => out.append("D"),
        }
        assert(out@ =~= card_text(*self));
        out
    }

    /// Parses the notation `<rank><suit>`: the rank is 1 to 13 or one of
    /// `A`, `J`, `Q`, `K`; the suit is one of `S`, `C`, `H`, `D`; letters
    /// in either case.
    pub fn parse(s: &str) -> (r: Result<Card, CardParseError>)
        ensures
            match r {
                Ok(c) => parse_card(s@) == Some(c),
                Err(e) => parse_card(s@) is None && e.message() == parse_error_text(s@),
            },
    {
        let len = s.unicode_len();
        if len == 0 {
            return Err(CardParseError::with_input("invalid card: ", s));
        }
        let suit_char = s.get_char(len - 1);
        let suit = if suit_char == 's' || suit_char == 'S' {
            Suit::Spades
        } else if suit_char == 'c' || suit_char == 'C' {
            Suit::Clubs
        } else if suit_char == 'h' || suit_char == 'H' {
            Suit::Hearts
        } else if suit_char == 'd' || suit_char == 'D' {
            Suit::Diamonds
        } else {
            return Err(CardParseError::with_input("invalid card suit: ", s));
        };
        proof {
            assert(s@.drop_last() =~= s@.subrange(0, len - 1));
        }
        match parse_rank(s, len - 1) {
            Some(number) => Ok(Card { suit, number }),
            None => Err(CardParseError::with_input("invalid card number: ", s)),
        }
    }
}

/// The rank named by the first `n` characters of `s`.
fn parse_rank(s: &str, n: usize) -> (r: Option<i8>)
    requires
        n <= s@.len(),
    ensures
        r == rank_of(s@.subrange(0, n as int)),
{
    let ghost t = s@.subrange(0, n as int);
    if n == 1 {
        let c = s.get_char(0);
        assert(t =~= seq![c]);
        if c == 'a' || c == 'A' {
            return Some(1);
        } else if c == 'j' || c == 'J' {
            return Some(11);
        } else if c == 'q' || c == 'Q' {
            return Some(12);
        } else if c == 'k' || c == 'K' {
            return Some(13);
        }
    }
    assert(named_rank(t) is None) by {
        if t.len() == 1 {
            assert(t[0] == s@[0]);
        }
    }
    if n == 0 {
        return None;
    }
    let first = s.get_char(0);
    let start: usize = if first == '+' || first == '-' {
        1
    } else {
        0
    };
    if start == n {
        assert(!all_digits(t)) by {
            assert(!is_digit(t[0]));
        }
        return None;
    }
    let mut acc: u32 = 0;
    let mut i: usize = start;
    while i < n
        invariant
            start <= i <= n,
            n <= s@.len(),
            t == s@.subrange(0, n as int),
            t.len() > 0 && t[0] == first,
            named_rank(t) is None,
            start == 1 <==> (first == '+' || first == '-'),
            all_digits(s@.subrange(start as int, i as int)),
            acc == if digits_value(s@.subrange(start as int, i as int)) < 14 {
                digits_value(s@.subrange(start as int, i as int))
            } else {
                14
            },
        decreases n - i,
    {
        let c = s.get_char(i);
        if !('0' <= c && c <= '9') {
            proof {
                if start == 1 {
                    assert(!all_digits(t.drop_first())) by {
                        assert(t.drop_first()[i - 1] == c);
                    }
                    assert(!is_digit(t[0]));
                } else {
                    assert(!all_digits(t)) by {
                        assert(t[i as int] == c);
                    }
                }
            }
            return None;
        }
        let ghost prev = s@.subrange(start as int, i as int);
        let ghost next = s@.subrange(start as int, i + 1);
        assert(next.drop_last() =~= prev);
        assert(all_digits(next)) by {
            assert forall|k: int| 0 <= k < next.len() implies is_digit(#[trigger] next[k]) by {
                if k < prev.len() {
                    assert(next[k] == prev[k]);
                }
            }
        }
        let d = (c as u32) - ('0' as u32);
        acc = if acc > 13 {
            14
        } else if acc * 10 + d > 14 {
            14
        } else {
            acc * 10 + d
        };
        i = i + 1;
    }
    proof {
        if start == 1 {
            assert(t.drop_first() =~= s@.subrange(1, n as int));
        } else {
            assert(t =~= s@.subrange(0, n as int));
            assert(!(t.len() > 1 && (t[0] == '+' || t[0] == '-')));
        }
    }
    if first == '-' || acc < 1 || acc > 13 {
        None
    } else {
        Some(acc as i8)
    }
}

proof fn lemma_digits_value_single(d: char)
    ensures
        digits_value(seq![d]) == (d as nat - '0' as nat) as nat,
{
    let s = seq![d];
    assert(s.len() == 1);
    assert(s.last() == d);
    assert(s.drop_last() =~= Seq::<char>::empty());
    assert(digits_value(s.drop_last()) == 0);
    assert(digits_value(s) == 10 * digits_value(s.drop_last()) + (s.last() as nat - '0' as nat) as nat);
}

/// Printing a valid card and parsing the text gives the card back.
pub proof fn lemma_parse_card_text(c: Card)
    requires
        c.wf(),
    ensures
        parse_card(card_text(c)) == Some(c),
{
    let t = card_text(c);
    let r = rank_text(c.number);
    assert(t.drop_last() =~= r);
    assert(t.last() == suit_letter(c.suit));
    if 2 <= c.number <= 9 {
        assert(r =~= seq![crate::util::digit_char(c.number as nat)]);
        assert(r.drop_last() =~= Seq::<char>::empty());
        assert(all_digits(r));
        lemma_digits_value_single(r[0]);
        assert(r =~= seq![r[0]]);
        assert(named_rank(r) is None);
        assert(integer_value(r) == Some(c.number as int));
    } else if c.number == 10 {
        assert(decimal(1) =~= seq!['1']);
        assert(r =~= seq!['1', '0']);
        assert(r.drop_last() =~= seq!['1']);
        assert(r.drop_last().drop_last() =~= Seq::<char>::empty());
        assert(all_digits(r));
        lemma_digits_value_single('1');
        assert(digits_value(r) == 10);
        assert(named_rank(r) is None);
        assert(integer_value(r) == Some(10int));
    }
    assert(rank_of(r) == Some(c.number));
    assert(suit_of_letter(suit_letter(c.suit)) == Some(c.suit));
}

/// The error of a card notation that names no card.
#[derive(Debug)]
pub struct CardParseError {
    message: String,
}

impl CardParseError {
    /// The error's message.
    pub closed spec fn message(&self) -> Seq<char> {
        self.message@
    }

    fn new(s: String) -> (r: CardParseError)
        ensures
            r.message@ == s@,
    {
        CardParseError { message: s }
    }

    fn with_input(prefix: &str, input: &str) -> (r: CardParseError)
        ensures
            r.message() == prefix@ + input@,
    {
        let mut s = String::from_str(prefix);
        s.append(input);
        CardParseError::new(s)
    }

    /// A description of what was wrong with the notation.
    pub fn description(&self) -> (r: &str)
        ensures
            r@ == self.message(),
    {
        self.message.as_str()
    }
}

impl std::str::FromStr for Card {
    type Err = CardParseError;

    fn from_str(s: &str) -> Result<Card, CardParseError> {
        Card::parse(s)
    }
}

/// The pieces of `s` between single spaces: `"AS  2C"` has three pieces,
/// the middle one empty, and the empty text has one empty piece.
pub open spec fn space_fields(s: Seq<char>) -> Seq<Seq<char>>
    decreases s.len(),
{
    if s.len() == 0 {
        seq![Seq::empty()]
    } else {
        let f = space_fields(s.drop_last());
        if s.last() == ' ' {
            f.push(Seq::empty())
        } else {
            f.update(f.len() - 1, f.last().push(s.last()))
        }
    }
}

/// The cards that the notations `fs` name, in order, if each names one;
/// else the error message of the first that names none.
pub open spec fn parse_all(fs: Seq<Seq<char>>) -> Result<Seq<Card>, Seq<char>>
    decreases fs.len(),
{
    if fs.len() == 0 {
        Ok(Seq::empty())
    } else {
        match parse_all(fs.drop_last()) {
            Err(e) => Err(e),
            Ok(cards) => match parse_card(fs.last()) {
                Some(c) => Ok(cards.push(c)),
                None => Err(parse_error_text(fs.last())),
            },
        }
    }
}

/// Unicode's White_Space characters, the whitespace of `char::is_whitespace`.
pub open spec fn is_white_space(c: char) -> bool {
    ||| '\u{9}' <= c <= '\u{d}'
    ||| c == ' '
    ||| c == '\u{85}'
    ||| c == '\u{a0}'
    ||| c == '\u{1680}'
    ||| '\u{2000}' <= c <= '\u{200a}'
    ||| c == '\u{2028}'
    ||| c == '\u{2029}'
    ||| c == '\u{202f}'
    ||| c == '\u{205f}'
    ||| c == '\u{3000}'
}

/// `s` without its leading whitespace.
pub open spec fn trim_start(s: Seq<char>) -> Seq<char>
    decreases s.len(),
{
    if s.len() > 0 && is_white_space(s[0]) {
        trim_start(s.drop_first())
    } else {
        s
    }
}

/// `s` without its trailing whitespace.
pub open spec fn trim_end(s: Seq<char>) -> Seq<char>
    decreases s.len(),
{
    if s.len() > 0 && is_white_space(s.last()) {
        trim_end(s.drop_last())
    } else {
        s
    }
}

/// `s` without its leading and trailing whitespace.
pub open spec fn trimmed(s: Seq<char>) -> Seq<char> {
    trim_end(trim_start(s))
}

/// Relies on `str::trim`: the text without leading and trailing whitespace,
/// where whitespace is what `char::is_whitespace` accepts (Unicode's
/// White_Space property).
#[verifier::external_body]
fn trim_text(s: &str) -> (r: &str)
    ensures
        r@ == trimmed(s@),
{
    s.trim()
}

/// The texts of a sequence of string slices.
pub open spec fn strs_view(v: Seq<&str>) -> Seq<Seq<char>> {
    v.map_values(|s: &str| s@)
}

/// Splits `text` at each space.
fn split_spaces(text: &str) -> (r: Vec<&str>)
    ensures
        strs_view(r@) == space_fields(text@),
{
    let n = text.unicode_len();
    let mut out: Vec<&str> = Vec::new();
    let mut start: usize = 0;
    let mut i: usize = 0;
    assert(text@.take(0) =~= Seq::<char>::empty());
    assert(strs_view(out@).push(text@.subrange(0, 0)) =~= seq![Seq::<char>::empty()]);
    while i < n
        invariant
            n == text@.len(),
            start <= i <= n,
            space_fields(text@.take(i as int)) == strs_view(out@).push(
                text@.subrange(start as int, i as int),
            ),
        decreases n - i,
    {
        let c = text.get_char(i);
        let ghost before = strs_view(out@);
        assert(text@.take(i + 1).drop_last() =~= text@.take(i as int));
        assert(text@.take(i + 1).last() == c);
        if c == ' ' {
            let piece = text.substring_char(start, i);
            out.push(piece);
            assert(strs_view(out@) =~= before.push(piece@));
            start = i + 1;
            assert(text@.subrange(start as int, i + 1) =~= Seq::<char>::empty());
        } else {
            assert(text@.subrange(start as int, i + 1) =~= text@.subrange(start as int, i as int).push(c));
        }
        i = i + 1;
        assert(space_fields(text@.take(i as int)) =~= strs_view(out@).push(
            text@.subrange(start as int, i as int),
        ));
    }
    let piece = text.substring_char(start, n);
    let ghost before = strs_view(out@);
    out.push(piece);
    assert(strs_view(out@) =~= before.push(piece@));
    assert(text@.take(n as int) =~= text@);
    out
}

proof fn lemma_parse_all_prefix(fs: Seq<Seq<char>>, k: int, e: Seq<char>)
    requires
        0 <= k <= fs.len(),
        parse_all(fs.take(k)) == Err::<Seq<Card>, Seq<char>>(e),
    ensures
        parse_all(fs) == Err::<Seq<Card>, Seq<char>>(e),
    decreases fs.len() - k,
{
    if k < fs.len() {
        assert(fs.take(k + 1).drop_last() =~= fs.take(k));
        lemma_parse_all_prefix(fs, k + 1, e);
    } else {
        assert(fs.take(k) =~= fs);
    }
}

/// Parses card notations separated by single spaces, such as `AS 10H KD`.
pub fn parse_card_list(text: &str) -> (r: Result<Vec<Card>, CardParseError>)
    ensures
        match r {
            Ok(cards) => parse_all(space_fields(text@)) == Ok::<Seq<Card>, Seq<char>>(cards@),
            Err(e) => parse_all(space_fields(text@)) == Err::<Seq<Card>, Seq<char>>(e.message()),
        },
{
    let fields = split_spaces(text);
    let ghost fs = strs_view(fields@);
    let mut cards: Vec<Card> = Vec::new();
    let mut i: usize = 0;
    assert(fs.take(0) =~= Seq::<Seq<char>>::empty());
    while i < fields.len()
        invariant
            i <= fields@.len(),
            fs == strs_view(fields@),
            fs == space_fields(text@),
            parse_all(fs.take(i as int)) == Ok::<Seq<Card>, Seq<char>>(cards@),
        decreases fields@.len() - i,
    {
        assert(fs.take(i + 1).drop_last() =~= fs.take(i as int));
        assert(fs.take(i + 1).last() == fields@[i as int]@);
        match Card::parse(fields[i]) {
            Ok(card) => {
                cards.push(card);
            },
            Err(e) => {
                proof {
                    lemma_parse_all_prefix(fs, i + 1, e.message());
                }
                return Err(e);
            },
        }
        i = i + 1;
    }
    assert(fs.take(fields@.len() as int) =~= fs);
    Ok(cards)
}

/// Parses card notations separated by single spaces, ignoring whitespace
/// around them.
pub fn parse_cards(input: &str) -> (r: Result<Vec<Card>, CardParseError>)
    ensures
        match r {
            Ok(cards) => parse_all(space_fields(trimmed(input@))) == Ok::<Seq<Card>, Seq<char>>(
                cards@,
            ),
            Err(e) => parse_all(space_fields(trimmed(input@))) == Err::<Seq<Card>, Seq<char>>(
                e.message(),
            ),
        },
{
    parse_card_list(trim_text(input))
}

} // verus!
