//! Card values, suits and cards, with their ordering and textual encoding.

use vstd::prelude::*;
use vstd::std_specs::cmp::PartialOrdSpec;

verus! {

/// The face value of a card, from Two up to Ace.
///
/// Values are ordered by rank; an Ace always ranks highest (14).
#[derive(Clone, Copy, Debug, PartialEq, Eq, Structural, Hash, Ord)]
pub enum Value {
    Two,
    Three,
    Four,
    Five,
    Six,
    Seven,
    Eight,
    Nine,
    Ten,
    Jack,
    Queen,
    King,
    Ace,
}

/// The suit of a card. Suits carry no order.
#[derive(Clone, Copy, Debug, PartialEq, Eq, Structural, Hash)]
pub enum Suit {
    Clubs,
    Diamonds,
    Hearts,
    Spades,
}

/// The numeric rank of a value: 2 for Two up to 14 for Ace.
pub open spec fn rank_of(v: Value) -> int {
    match v {
        Value::Two => 2,
        Value::Three => 3,
        Value::Four => 4,
        Value::Five => 5,
        Value::Six => 6,
        Value::Seven => 7,
        Value::Eight => 8,
        Value::Nine => 9,
        Value::Ten => 10,
        Value::Jack => 11,
        Value::Queen => 12,
        Value::King => 13,
        Value::Ace => 14,
    }
}

/// The value whose rank is `r`, for `2 <= r <= 14`.
pub open spec fn value_of_rank(r: int) -> Value
    recommends
        2 <= r <= 14,
{
    if r <= 2 {
        Value::Two
    } else if r == 3 {
        Value::Three
    } else if r == 4 {
        Value::Four
    } else if r == 5 {
        Value::Five
    } else if r == 6 {
        Value::Six
    } else if r == 7 {
        Value::Seven
    } else if r == 8 {
        Value::Eight
    } else if r == 9 {
        Value::Nine
    } else if r == 10 {
        Value::Ten
    } else if r == 11 {
        Value::Jack
    } else if r == 12 {
        Value::Queen
    } else if r == 13 {
        Value::King
    } else {
        Value::Ace
    }
}

/// Compares two integers.
pub open spec fn cmp_int(a: int, b: int) -> core::cmp::Ordering {
    if a < b {
        core::cmp::Ordering::Less
    } else if a > b {
        core::cmp::Ordering::Greater
    } else {
        core::cmp::Ordering::Equal
    }
}

impl Value {
    /// The rank of this value, 2 to 14.
    pub fn rank(&self) -> (r: u8)
        ensures
            r as int == rank_of(*self),
    {
        match self {
            Value::Two => 2,
            Value::Three => 3,
            Value::Four => 4,
            Value::Five => 5,
            Value::Six => 6,
            Value::Seven => 7,
            Value::Eight => 8,
            Value::Nine => 9,
            Value::Ten => 10,
            Value::Jack => 11,
            Value::Queen => 12,
            Value::King => 13,
            Value::Ace => 14,
        }
    }
}

impl PartialOrd for Value {
    fn partial_cmp(&self, other: &Value) -> (r: Option<core::cmp::Ordering>)
        ensures
            r == Some(cmp_int(rank_of(*self), rank_of(*other))),
    {
        let a = self.rank();
        let b = other.rank();
        if a < b {
            Some(core::cmp::Ordering::Less)
        } else if a > b {
            Some(core::cmp::Ordering::Greater)
        } else {
            Some(core::cmp::Ordering::Equal)
        }
    }
}

impl vstd::std_specs::cmp::PartialOrdSpecImpl for Value {
    open spec fn obeys_partial_cmp_spec() -> bool {
        true
    }

    open spec fn partial_cmp_spec(&self, other: &Value) -> Option<core::cmp::Ordering> {
        Some(cmp_int(rank_of(*self), rank_of(*other)))
    }
}

/// A playing card: a value and a suit.
///
/// Equality compares both fields; the order compares values only.
#[derive(Clone, Copy, Debug, PartialEq, Eq, Structural, Hash)]
pub struct Card {
    pub value: Value,
    pub suit: Suit,
}

impl Card {
    /// The card of the given value and suit.
    pub fn new(value: Value, suit: Suit) -> (r: Card)
        ensures
            r == (Card { value, suit }),
    {
        Card { value, suit }
    }
}

impl PartialOrd for Card {
    fn partial_cmp(&self, other: &Card) -> (r: Option<core::cmp::Ordering>)
        ensures
            r == Some(cmp_int(rank_of(self.value), rank_of(other.value))),
    {
        self.value.partial_cmp(&other.value)
    }
}

impl vstd::std_specs::cmp::PartialOrdSpecImpl for Card {
    open spec fn obeys_partial_cmp_spec() -> bool {
        true
    }

    open spec fn partial_cmp_spec(&self, other: &Card) -> Option<core::cmp::Ordering> {
        Some(cmp_int(rank_of(self.value), rank_of(other.value)))
    }
}

impl From<&Value> for u8 {
    fn from(value: &Value) -> (r: u8)
        ensures
            r as int == rank_of(*value),
    {
        value.rank()
    }
}

impl vstd::std_specs::convert::FromSpecImpl<&Value> for u8 {
    open spec fn obeys_from_spec() -> bool {
        true
    }

    open spec fn from_spec(v: &Value) -> u8 {
        rank_of(*v) as u8
    }
}

/// Why a card token was rejected.
#[derive(Clone, Copy, Debug, PartialEq, Eq, Structural, Hash)]
pub enum ParseError {
    /// The token holds a character outside ASCII.
    NotAscii,
    /// The token is shorter than a value and a suit.
    MissingField,
    /// The value part is not one of 2 to 10, J, Q, K, A.
    InvalidValue,
    /// The suit part is not one of C, D, H, S.
    InvalidSuit,
}

impl ParseError {
    /// A sentence that describes the error.
    pub fn message(&self) -> (r: &'static str)
        ensures
            r@ == error_message(*self),
    {
        match self {
            ParseError::NotAscii => "String must be ASCII",
            ParseError::MissingField => "String must contain value and suit",
            ParseError::InvalidValue => "Invalid value",
            ParseError::InvalidSuit => "Invalid suit",
        }
    }
}

pub open spec fn error_message(e: ParseError) -> Seq<char> {
    match e {
        ParseError::NotAscii => "String must be ASCII"@,
        ParseError::MissingField => "String must contain value and suit"@,
        ParseError::InvalidValue => "Invalid value"@,
        ParseError::InvalidSuit => "Invalid suit"@,
    }
}

/// The order of values: Two < Three < ... < Ten < Jack < Queen < King < Ace.
pub proof fn lemma_value_order()
    ensures
        Value::Ace.partial_cmp_spec(&Value::King) == Some(core::cmp::Ordering::Greater),
        Value::King.partial_cmp_spec(&Value::Queen) == Some(core::cmp::Ordering::Greater),
        Value::Queen.partial_cmp_spec(&Value::Jack) == Some(core::cmp::Ordering::Greater),
        Value::Jack.partial_cmp_spec(&Value::Ten) == Some(core::cmp::Ordering::Greater),
        Value::Ten.partial_cmp_spec(&Value::Nine) == Some(core::cmp::Ordering::Greater),
        Value::Nine.partial_cmp_spec(&Value::Eight) == Some(core::cmp::Ordering::Greater),
        Value::Eight.partial_cmp_spec(&Value::Seven) == Some(core::cmp::Ordering::Greater),
        Value::Seven.partial_cmp_spec(&Value::Six) == Some(core::cmp::Ordering::Greater),
        Value::Six.partial_cmp_spec(&Value::Five) == Some(core::cmp::Ordering::Greater),
        Value::Five.partial_cmp_spec(&Value::Four) == Some(core::cmp::Ordering::Greater),
        Value::Four.partial_cmp_spec(&Value::Three) == Some(core::cmp::Ordering::Greater),
        Value::Three.partial_cmp_spec(&Value::Two) == Some(core::cmp::Ordering::Greater),
        forall|a: Value, b: Value|
            a.partial_cmp_spec(&b) == Some(core::cmp::Ordering::Greater) <==> rank_of(a) > rank_of(b),
{
}

/// Cards compare by value alone: cards of equal value compare equal,
/// whatever their suits.
pub proof fn lemma_card_order_ignores_suit(a: Card, b: Card)
    requires
        a.value == b.value,
    ensures
        a.partial_cmp_spec(&b) == Some(core::cmp::Ordering::Equal),
{
}

/// The value that a one-character value token names, either case.
pub open spec fn value_of_char(c: char) -> Option<Value> {
    if c == 'J' || c == 'j' {
        Some(Value::Jack)
    } else if c == 'Q' || c == 'q' {
        Some(Value::Queen)
    } else if c == 'K' || c == 'k' {
        Some(Value::King)
    } else if c == 'A' || c == 'a' {
        Some(Value::Ace)
    } else if c == '2' {
        Some(Value::Two)
    } else if c == '3' {
        Some(Value::Three)
    } else if c == '4' {
        Some(Value::Four)
    } else if c == '5' {
        Some(Value::Five)
    } else if c == '6' {
        Some(Value::Six)
    } else if c == '7' {
        Some(Value::Seven)
    } else if c == '8' {
        Some(Value::Eight)
    } else if c == '9' {
        Some(Value::Nine)
    } else {
        None
    }
}

/// The value that a value token names: one character, or "10".
pub open spec fn value_of_text(p: Seq<char>) -> Option<Value> {
    if p.len() == 1 {
        value_of_char(p[0])
    } else if p.len() == 2 && p[0] == '1' && p[1] == '0' {
        Some(Value::Ten)
    } else {
        None
    }
}

/// The suit that a suit character names, either case.
pub open spec fn suit_of_char(c: char) -> Option<Suit> {
    if c == 'C' || c == 'c' {
        Some(Suit::Clubs)
    } else if c == 'D' || c == 'd' {
        Some(Suit::Diamonds)
    } else if c == 'H' || c == 'h' {
        Some(Suit::Hearts)
    } else if c == 'S' || c == 's' {
        Some(Suit::Spades)
    } else {
        None
    }
}

pub open spec fn is_ascii_text(t: Seq<char>) -> bool {
    forall|i: int| 0 <= i < t.len() ==> #[trigger] t[i] <= '\u{7f}'
}

/// The card that a token such as "10h" or "Qs" names, or why it names none:
/// a value token followed by one suit character.
pub open spec fn parse_token(t: Seq<char>) -> Result<Card, ParseError> {
    if !is_ascii_text(t) {
        Err(ParseError::NotAscii)
    } else if t.len() < 2 {
        Err(ParseError::MissingField)
    } else {
        match value_of_text(t.drop_last()) {
            None => Err(ParseError::InvalidValue),
            Some(v) => match suit_of_char(t.last()) {
                None => Err(ParseError::InvalidSuit),
                Some(s) => Ok(Card { value: v, suit: s }),
            },
        }
    }
}

fn value_from_char(c: char) -> (r: Option<Value>)
    ensures
        r == value_of_char(c),
{
    match c {
        'J' | 'j' => Some(Value::Jack),
        'Q' | 'q' => Some(Value::Queen),
        'K' | 'k' => Some(Value::King),
        'A' | 'a' => Some(Value::Ace),
        '2' => Some(Value::Two),
        '3' => Some(Value::Three),
        '4' => Some(Value::Four),
        '5' => Some(Value::Five),
        '6' => Some(Value::Six),
        '7' => Some(Value::Seven),
        '8' => Some(Value::Eight),
        '9' => Some(Value::Nine),
        _ => None,
    }
}

fn suit_from_char(c: char) -> (r: Option<Suit>)
    ensures
        r == suit_of_char(c),
{
    match c {
        'C' | 'c' => Some(Suit::Clubs),
        'D' | 'd' => Some(Suit::Diamonds),
        'H' | 'h' => Some(Suit::Hearts),
        'S' | 's' => Some(Suit::Spades),
        _ => None,
    }
}

/// Parses the token `chars[start..end]`.
fn parse_chars(chars: &Vec<char>, start: usize, end: usize) -> (r: Result<Card, ParseError>)
    requires
        start <= end <= chars.len(),
    ensures
        r == parse_token(chars@.subrange(start as int, end as int)),
{
    let ghost t = chars@.subrange(start as int, end as int);
    let mut i: usize = start;
    while i < end
        invariant
            start <= i <= end <= chars.len(),
            t == chars@.subrange(start as int, end as int),
            forall|k: int| 0 <= k < i - start ==> #[trigger] t[k] <= '\u{7f}',
        decreases end - i,
    {
        if chars[i] > '\u{7f}' {
            assert(t[i - start] == chars@[i as int]);
            return Err(ParseError::NotAscii);
        }
        i = i + 1;
    }
    if end - start < 2 {
        return Err(ParseError::MissingField);
    }
    let value = if end - start == 2 {
        value_from_char(chars[start])
    } else if end - start == 3 && chars[start] == '1' && chars[start + 1] == '0' {
        Some(Value::Ten)
    } else {
        None
    };
    match value {
        None => Err(ParseError::InvalidValue),
        Some(v) => match suit_from_char(chars[end - 1]) {
            None => Err(ParseError::InvalidSuit),
            Some(s) => Ok(Card { value: v, suit: s }),
        },
    }
}

/// Whether `c` is ASCII white space: space, tab, line feed, form feed or
/// carriage return.
pub open spec fn is_space(c: char) -> bool {
    c == ' ' || c == '\t' || c == '\n' || c == '\x0C' || c == '\r'
}

/// The white-space separated words of `s`, where `cur` is a word already
/// begun before `s`.
pub open spec fn split_words(s: Seq<char>, cur: Seq<char>) -> Seq<Seq<char>>
    decreases s.len(),
{
    if s.len() == 0 {
        if cur.len() > 0 {
            seq![cur]
        } else {
            seq![]
        }
    } else if is_space(s[0]) {
        (if cur.len() > 0 {
            seq![cur]
        } else {
            seq![]
        }) + split_words(s.drop_first(), seq![])
    } else {
        split_words(s.drop_first(), cur.push(s[0]))
    }
}

/// The white-space separated words of `s`.
pub open spec fn words(s: Seq<char>) -> Seq<Seq<char>> {
    split_words(s, seq![])
}

/// Parses each token in turn; the first failure is the result.
pub open spec fn parse_tokens(ts: Seq<Seq<char>>) -> Result<Seq<Card>, ParseError>
    decreases ts.len(),
{
    if ts.len() == 0 {
        Ok(seq![])
    } else {
        match parse_token(ts[0]) {
            Err(e) => Err(e),
            Ok(c) => match parse_tokens(ts.drop_first()) {
                Err(e) => Err(e),
                Ok(rest) => Ok(seq![c] + rest),
            },
        }
    }
}

/// The cards that a white-space separated list of tokens names, or the
/// first token's error.
pub open spec fn parse_list(s: Seq<char>) -> Result<Seq<Card>, ParseError> {
    parse_tokens(words(s))
}

/// `done` followed by what `r` holds, or `r`'s error.
pub open spec fn after(done: Seq<Card>, r: Result<Seq<Card>, ParseError>) -> Result<
    Seq<Card>,
    ParseError,
> {
    match r {
        Ok(rest) => Ok(done + rest),
        Err(e) => Err(e),
    }
}

proof fn lemma_parse_tokens_append(ts: Seq<Seq<char>>, us: Seq<Seq<char>>)
    ensures
        parse_tokens(ts + us) == match parse_tokens(ts) {
            Ok(a) => after(a, parse_tokens(us)),
            Err(e) => Err(e),
        },
    decreases ts.len(),
{
    if ts.len() == 0 {
        assert(ts + us =~= us);
        match parse_tokens(us) {
            Ok(b) => {
                assert(seq![] + b =~= b);
            },
            Err(_) => {},
        }
    } else {
        assert((ts + us)[0] == ts[0]);
        assert((ts + us).drop_first() =~= ts.drop_first() + us);
        lemma_parse_tokens_append(ts.drop_first(), us);
        match parse_token(ts[0]) {
            Ok(c) => match parse_tokens(ts.drop_first()) {
                Ok(a) => match parse_tokens(us) {
                    Ok(b) => {
                        assert(seq![c] + (a + b) =~= (seq![c] + a) + b);
                    },
                    Err(_) => {},
                },
                Err(_) => {},
            },
            Err(_) => {},
        }
    }
}

/// Parsing one more token `w` after the cards `done`.
proof fn lemma_parse_one_more(done: Seq<Card>, w: Seq<char>, rest: Seq<Seq<char>>)
    ensures
        after(done, parse_tokens(seq![w] + rest)) == match parse_token(w) {
            Ok(c) => after(done.push(c), parse_tokens(rest)),
            Err(e) => Err(e),
        },
{
    lemma_parse_tokens_append(seq![w], rest);
    assert(seq![w].drop_first() =~= Seq::<Seq<char>>::empty());
    assert(seq![w][0] == w);
    match parse_token(w) {
        Ok(c) => {
            assert(seq![c] + Seq::<Card>::empty() =~= seq![c]);
            assert(parse_tokens(Seq::<Seq<char>>::empty()) == Ok::<Seq<Card>, ParseError>(
                Seq::<Card>::empty(),
            ));
            assert(parse_tokens(seq![w]) == Ok::<Seq<Card>, ParseError>(seq![c]));
            match parse_tokens(rest) {
                Ok(b) => {
                    assert(done + (seq![c] + b) =~= done.push(c) + b);
                },
                Err(_) => {},
            }
        },
        Err(e) => {
            assert(parse_tokens(seq![w]) == Err::<Seq<Card>, ParseError>(e));
        },
    }
}

pub(crate) fn collect_chars(s: &str) -> (r: Vec<char>)
    ensures
        r@ == s@,
{
    let mut r: Vec<char> = Vec::new();
    for c in it: s.chars()
        invariant
            r@ == it.seq().take(it.index() as int),
    {
        r.push(c);
    }
    r
}

impl Card {
    /// Parses one token such as "10h", "qs" or "Kd".
    pub fn parse(s: &str) -> (r: Result<Card, ParseError>)
        ensures
            r == parse_token(s@),
    {
        let chars = collect_chars(s);
        assert(chars@.subrange(0, chars@.len() as int) =~= chars@);
        parse_chars(&chars, 0, chars.len())
    }

    /// Parses a white-space separated list of tokens, such as "2s qc", and
    /// stops at the first token that fails.
    pub fn try_vec_from(s: &str) -> (r: Result<Vec<Card>, ParseError>)
        ensures
            match r {
                Ok(v) => parse_list(s@) == Ok::<Seq<Card>, ParseError>(v@),
                Err(e) => parse_list(s@) == Err::<Seq<Card>, ParseError>(e),
            },
    {
        let chars = collect_chars(s);
        let n = chars.len();
        let mut result: Vec<Card> = Vec::new();
        let mut start: usize = 0;
        let mut i: usize = 0;
        assert(chars@.skip(0) =~= chars@);
        assert(chars@.subrange(0, 0) =~= Seq::<char>::empty());
        while i < n
            invariant
                n == chars.len(),
                start <= i <= n,
                parse_list(s@) == after(
                    result@,
                    parse_tokens(
                        split_words(chars@.skip(i as int), chars@.subrange(start as int, i as int)),
                    ),
                ),
                chars@ == s@,
            decreases n - i,
        {
            let c = chars[i];
            let ghost cur = chars@.subrange(start as int, i as int);
            let ghost tail = chars@.skip(i as int);
            assert(tail[0] == c);
            assert(tail.drop_first() =~= chars@.skip(i + 1));
            if c == ' ' || c == '\t' || c == '\n' || c == '\x0C' || c == '\r' {
                let ghost rest = split_words(chars@.skip(i + 1), seq![]);
                if start < i {
                    assert(split_words(tail, cur) == seq![cur] + rest);
                    proof {
                        lemma_parse_one_more(result@, cur, rest);
                    }
                    match parse_chars(&chars, start, i) {
                        Err(e) => {
                            return Err(e);
                        },
                        Ok(card) => {
                            result.push(card);
                        },
                    }
                } else {
                    assert(cur.len() == 0);
                    assert(split_words(tail, cur) == Seq::<Seq<char>>::empty() + rest);
                    assert(Seq::<Seq<char>>::empty() + rest =~= rest);
                }
                start = i + 1;
                assert(chars@.subrange(start as int, (i + 1) as int) =~= Seq::<char>::empty());
            } else {
                assert(split_words(tail, cur) == split_words(tail.drop_first(), cur.push(c)));
                assert(cur.push(c) =~= chars@.subrange(start as int, (i + 1) as int));
            }
            i = i + 1;
        }
        let ghost cur = chars@.subrange(start as int, n as int);
        assert(chars@.skip(n as int) =~= Seq::<char>::empty());
        if start < n {
            assert(split_words(chars@.skip(n as int), cur) == seq![cur]);
            proof {
                lemma_parse_one_more(result@, cur, seq![]);
                assert(seq![cur] + Seq::<Seq<char>>::empty() =~= seq![cur]);
            }
            match parse_chars(&chars, start, n) {
                Err(e) => {
                    return Err(e);
                },
                Ok(card) => {
                    result.push(card);
                    assert(result@ + Seq::<Card>::empty() =~= result@);
                },
            }
        } else {
            assert(cur.len() == 0);
            assert(split_words(chars@.skip(n as int), cur) == Seq::<Seq<char>>::empty());
            assert(result@ + Seq::<Card>::empty() =~= result@);
        }
        Ok(result)
    }
}

/// The value at position `i` of the rank order, Two first.
pub open spec fn value_at(i: int) -> Value {
    value_of_rank(i + 2)
}

/// The suit at position `i` of the order Clubs, Diamonds, Hearts, Spades.
pub open spec fn suit_at(i: int) -> Suit {
    if i <= 0 {
        Suit::Clubs
    } else if i == 1 {
        Suit::Diamonds
    } else if i == 2 {
        Suit::Hearts
    } else {
        Suit::Spades
    }
}

/// The 52 cards of a fresh deck: suit by suit in the order Clubs, Diamonds,
/// Hearts, Spades, and within a suit from Two up to Ace.
pub open spec fn full_deck() -> Seq<Card> {
    Seq::new(52, |i: int| Card { value: value_at(i % 13), suit: suit_at(i / 13) })
}

/// The word that names a value, such as "Seven".
pub open spec fn value_name(v: Value) -> Seq<char> {
    match v {
        Value::Two => "Two"@,
        Value::Three => "Three"@,
        Value::Four => "Four"@,
        Value::Five => "Five"@,
        Value::Six => "Six"@,
        Value::Seven => "Seven"@,
        Value::Eight => "Eight"@,
        Value::Nine => "Nine"@,
        Value::Ten => "Ten"@,
        Value::Jack => "Jack"@,
        Value::Queen => "Queen"@,
        Value::King => "King"@,
        Value::Ace => "Ace"@,
    }
}

/// The word that names a suit, such as "Clubs".
pub open spec fn suit_name(s: Suit) -> Seq<char> {
    match s {
        Suit::Clubs => "Clubs"@,
        Suit::Diamonds => "Diamonds"@,
        Suit::Hearts => "Hearts"@,
        Suit::Spades => "Spades"@,
    }
}

/// The name of a card, such as "Seven of Clubs".
pub open spec fn card_name(c: Card) -> Seq<char> {
    value_name(c.value) + " of "@ + suit_name(c.suit)
}

/// The names of the cards of `s`, joined by ", ".
pub open spec fn names_joined(s: Seq<Card>) -> Seq<char>
    decreases s.len(),
{
    if s.len() == 0 {
        seq![]
    } else if s.len() == 1 {
        card_name(s[0])
    } else {
        names_joined(s.drop_last()) + ", "@ + card_name(s.last())
    }
}

/// The value part of a card's token, such as "10" or "q".
pub open spec fn value_token(v: Value) -> Seq<char> {
    match v {
        Value::Two => "2"@,
        Value::Three => "3"@,
        Value::Four => "4"@,
        Value::Five => "5"@,
        Value::Six => "6"@,
        Value::Seven => "7"@,
        Value::Eight => "8"@,
        Value::Nine => "9"@,
        Value::Ten => "10"@,
        Value::Jack => "j"@,
        Value::Queen => "q"@,
        Value::King => "k"@,
        Value::Ace => "a"@,
    }
}

/// The suit part of a card's token, such as "h".
pub open spec fn suit_token(s: Suit) -> Seq<char> {
    match s {
        Suit::Clubs => "c"@,
        Suit::Diamonds => "d"@,
        Suit::Hearts => "h"@,
        Suit::Spades => "s"@,
    }
}

/// The token of a card, such as "10h" or "qs".
pub open spec fn token_of(c: Card) -> Seq<char> {
    value_token(c.value) + suit_token(c.suit)
}

/// A card's token parses back to that card.
pub proof fn lemma_token_parses_back(c: Card)
    ensures
        parse_token(token_of(c)) == Ok::<Card, ParseError>(c),
{
    reveal_strlit("2");
    reveal_strlit("3");
    reveal_strlit("4");
    reveal_strlit("5");
    reveal_strlit("6");
    reveal_strlit("7");
    reveal_strlit("8");
    reveal_strlit("9");
    reveal_strlit("10");
    reveal_strlit("j");
    reveal_strlit("q");
    reveal_strlit("k");
    reveal_strlit("a");
    reveal_strlit("c");
    reveal_strlit("d");
    reveal_strlit("h");
    reveal_strlit("s");
    let t = token_of(c);
    assert(t.drop_last() =~= value_token(c.value));
    assert(t.last() == suit_token(c.suit)[0]);
    assert(is_ascii_text(t));
}

/// Round trip: whenever a token `t` names a card, writing that card's token
/// and parsing it again gives the same card as parsing `t`.
pub proof fn lemma_round_trip(t: Seq<char>)
    requires
        parse_token(t) is Ok,
    ensures
        parse_token(token_of(parse_token(t)->Ok_0)) == parse_token(t),
{
    lemma_token_parses_back(parse_token(t)->Ok_0);
}

impl Value {
    /// The value at position `i` of the rank order, Two first.
    pub fn at(i: usize) -> (r: Value)
        requires
            i < 13,
        ensures
            r == value_at(i as int),
    {
        match i {
            0 => Value::Two,
            1 => Value::Three,
            2 => Value::Four,
            3 => Value::Five,
            4 => Value::Six,
            5 => Value::Seven,
            6 => Value::Eight,
            7 => Value::Nine,
            8 => Value::Ten,
            9 => Value::Jack,
            10 => Value::Queen,
            11 => Value::King,
            _ => Value::Ace,
        }
    }

    /// The word that names this value, such as "Seven".
    pub fn name(&self) -> (r: &'static str)
        ensures
            r@ == value_name(*self),
    {
        match self {
            Value::Two => "Two",
            Value::Three => "Three",
            Value::Four => "Four",
            Value::Five => "Five",
            Value::Six => "Six",
            Value::Seven => "Seven",
            Value::Eight => "Eight",
            Value::Nine => "Nine",
            Value::Ten => "Ten",
            Value::Jack => "Jack",
            Value::Queen => "Queen",
            Value::King => "King",
            Value::Ace => "Ace",
        }
    }

    /// The value part of a token, such as "10" or "q".
    pub fn token(&self) -> (r: &'static str)
        ensures
            r@ == value_token(*self),
    {
        match self {
            Value::Two => "2",
            Value::Three => "3",
            Value::Four => "4",
            Value::Five => "5",
            Value::Six => "6",
            Value::Seven => "7",
            Value::Eight => "8",
            Value::Nine => "9",
            Value::Ten => "10",
            Value::Jack => "j",
            Value::Queen => "q",
            Value::King => "k",
            Value::Ace => "a",
        }
    }
}

impl Suit {
    /// The suit at position `i` of the order Clubs, Diamonds, Hearts, Spades.
    pub fn at(i: usize) -> (r: Suit)
        requires
            i < 4,
        ensures
            r == suit_at(i as int),
    {
        match i {
            0 => Suit::Clubs,
            1 => Suit::Diamonds,
            2 => Suit::Hearts,
            _ => Suit::Spades,
        }
    }

    /// The word that names this suit, such as "Clubs".
    pub fn name(&self) -> (r: &'static str)
        ensures
            r@ == suit_name(*self),
    {
        match self {
            Suit::Clubs => "Clubs",
            Suit::Diamonds => "Diamonds",
            Suit::Hearts => "Hearts",
            Suit::Spades => "Spades",
        }
    }

    /// The suit part of a token, such as "h".
    pub fn token(&self) -> (r: &'static str)
        ensures
            r@ == suit_token(*self),
    {
        match self {
            Suit::Clubs => "c",
            Suit::Diamonds => "d",
            Suit::Hearts => "h",
            Suit::Spades => "s",
        }
    }
}

impl Card {
    /// A fresh deck of 52 cards in a fixed order (see `full_deck`).
    pub fn new_deck() -> (r: Vec<Card>)
        ensures
            r@ == full_deck(),
    {
        let mut result: Vec<Card> = Vec::new();
        let mut s: usize = 0;
        while s < 4
            invariant
                s <= 4,
                result@.len() == 13 * s,
                forall|i: int| 0 <= i < result@.len() ==> #[trigger] result@[i] == full_deck()[i],
            decreases 4 - s,
        {
            let suit = Suit::at(s);
            let mut v: usize = 0;
            while v < 13
                invariant
                    s < 4,
                    v <= 13,
                    suit == suit_at(s as int),
                    result@.len() == 13 * s + v,
                    forall|i: int| 0 <= i < result@.len() ==> #[trigger] result@[i] == full_deck()[i],
                decreases 13 - v,
            {
                proof {
                    let k = 13 * s + v;
                    assert(k % 13 == v && k / 13 == s) by (nonlinear_arith)
                        requires
                            k == 13 * s + v,
                            v < 13,
                    ;
                }
                result.push(Card::new(Value::at(v), suit));
                v = v + 1;
            }
            s = s + 1;
        }
        assert(result@ =~= full_deck());
        result
    }

    /// The name of this card, such as "Seven of Clubs".
    pub fn name(&self) -> (r: String)
        ensures
            r@ == card_name(*self),
    {
        let mut r = String::from_str(self.value.name());
        r.append(" of ");
        r.append(self.suit.name());
        r
    }

    /// The names of the cards, joined by ", ", such as
    /// "Two of Spades, Queen of Clubs".
    pub fn vec_to_string(cards: &Vec<Card>) -> (r: String)
        ensures
            r@ == names_joined(cards@),
    {
        let mut r = String::new();
        let mut i: usize = 0;
        while i < cards.len()
            invariant
                i <= cards@.len(),
                r@ == names_joined(cards@.take(i as int)),
            decreases cards.len() - i,
        {
            assert(cards@.take(i + 1).drop_last() =~= cards@.take(i as int));
            if i > 0 {
                r.append(", ");
            } else {
                assert(cards@.take(1) =~= seq![cards@[0]]);
            }
            let name = cards[i].name();
            r.append(name.as_str());
            i = i + 1;
        }
        assert(cards@.take(cards@.len() as int) =~= cards@);
        r
    }

    /// The token of this card, such as "10h" or "qs"; it parses back to this
    /// card.
    pub fn token(&self) -> (r: String)
        ensures
            r@ == token_of(*self),
    {
        let mut r = String::from_str(self.value.token());
        r.append(self.suit.token());
        r
    }
}

impl core::str::FromStr for Card {
    type Err = ParseError;

    fn from_str(s: &str) -> Result<Card, ParseError> {
        Card::parse(s)
    }
}

} // verus!
