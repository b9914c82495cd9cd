use theb::Suit::{Clubs, Diamonds, Hearts, Spades};
use theb::Value::{Ace, Jack, King, Queen, Seven, Ten, Two};
use theb::{Card, ParseError, Suit, Value};

#[test]
fn test_cmp_works() {
    assert!(Ace > Jack);
    assert!(Jack < Queen);
    assert!(Jack > Ten);
}

#[test]
fn test_display_works() {
    assert_eq!(Card::new(Seven, Clubs).name(), String::from("Seven of Clubs"));
}

#[test]
fn test_parse_works() {
    assert_eq!("10h".parse::<Card>().unwrap(), Card::new(Ten, Hearts),);

    assert_eq!("kd".parse::<Card>().unwrap(), Card::new(King, Diamonds));
}

#[test]
fn try_vec_from_works() {
    assert_eq!(
        Card::try_vec_from("2s qc").unwrap(),
        vec![Card::new(Two, Spades), Card::new(Queen, Clubs),]
    );
}

#[test]
fn values_ascend_from_two_to_ace() {
    let order = [
        Value::Two,
        Value::Three,
        Value::Four,
        Value::Five,
        Value::Six,
        Value::Seven,
        Value::Eight,
        Value::Nine,
        Value::Ten,
        Value::Jack,
        Value::Queen,
        Value::King,
        Value::Ace,
    ];
    for i in 0..order.len() {
        assert_eq!(order[i].rank() as usize, i + 2);
        assert_eq!(u8::from(&order[i]) as usize, i + 2);
        for j in (i + 1)..order.len() {
            assert!(order[j] > order[i]);
            assert!(order[i] < order[j]);
        }
    }
}

#[test]
fn card_order_ignores_suit() {
    let a = Card::new(Ten, Hearts);
    let b = Card::new(Ten, Clubs);
    assert_eq!(a.partial_cmp(&b), Some(std::cmp::Ordering::Equal));
    assert!(a != b);
    assert!(Card::new(Jack, Clubs) > Card::new(Ten, Spades));
}

#[test]
fn parse_accepts_either_case() {
    assert_eq!(Card::parse("QS"), Ok(Card::new(Queen, Spades)));
    assert_eq!(Card::parse("aH"), Ok(Card::new(Ace, Hearts)));
    assert_eq!(Card::parse("10D"), Ok(Card::new(Ten, Diamonds)));
}

#[test]
fn parse_rejects_non_ascii() {
    assert_eq!(Card::parse("é"), Err(ParseError::NotAscii));
    assert_eq!(Card::parse("2♠"), Err(ParseError::NotAscii));
}

#[test]
fn parse_rejects_short_tokens() {
    assert_eq!(Card::parse(""), Err(ParseError::MissingField));
    assert_eq!(Card::parse("s"), Err(ParseError::MissingField));
}

#[test]
fn parse_rejects_bad_values() {
    assert_eq!(Card::parse("1s"), Err(ParseError::InvalidValue));
    assert_eq!(Card::parse("11s"), Err(ParseError::InvalidValue));
    assert_eq!(Card::parse("xh"), Err(ParseError::InvalidValue));
    assert_eq!(Card::parse("0h"), Err(ParseError::InvalidValue));
}

#[test]
fn parse_rejects_bad_suits() {
    assert_eq!(Card::parse("2x"), Err(ParseError::InvalidSuit));
    assert_eq!(Card::parse("10"), Err(ParseError::InvalidValue));
    assert_eq!(Card::parse("qq"), Err(ParseError::InvalidSuit));
}

#[test]
fn error_messages_describe_the_error() {
    assert_eq!(ParseError::NotAscii.message(), "String must be ASCII");
    assert_eq!(ParseError::MissingField.message(), "String must contain value and suit");
    assert_eq!(ParseError::InvalidValue.message(), "Invalid value");
    assert_eq!(ParseError::InvalidSuit.message(), "Invalid suit");
}

#[test]
fn try_vec_from_stops_at_first_error() {
    assert_eq!(Card::try_vec_from("2s zz 9x"), Err(ParseError::InvalidValue));
    assert_eq!(Card::try_vec_from("2s 9x zz"), Err(ParseError::InvalidSuit));
}

#[test]
fn try_vec_from_skips_any_white_space() {
    assert_eq!(Card::try_vec_from(""), Ok(vec![]));
    assert_eq!(Card::try_vec_from("   \t\n "), Ok(vec![]));
    assert_eq!(
        Card::try_vec_from("\t10c\r\n  ah "),
        Ok(vec![Card::new(Ten, Clubs), Card::new(Ace, Hearts)])
    );
}

#[test]
fn new_deck_is_suit_major() {
    let deck = Card::new_deck();
    assert_eq!(deck.len(), 52);
    assert_eq!(deck[0], Card::new(Two, Clubs));
    assert_eq!(deck[12], Card::new(Ace, Clubs));
    assert_eq!(deck[13], Card::new(Two, Diamonds));
    assert_eq!(deck[51], Card::new(Ace, Spades));
    for i in 0..deck.len() {
        for j in (i + 1)..deck.len() {
            assert!(deck[i] != deck[j]);
        }
    }
}

#[test]
fn tokens_parse_back_to_the_same_card() {
    for card in Card::new_deck() {
        assert_eq!(Card::parse(&card.token()), Ok(card));
    }
    assert_eq!(Card::new(Ten, Hearts).token(), "10h");
    assert_eq!(Card::new(Queen, Spades).token(), "qs");
    for s in ["QS", "10h", "aD", "7c"] {
        let card = Card::parse(s).unwrap();
        assert_eq!(Card::parse(&card.token()), Card::parse(s));
    }
}

#[test]
fn card_lists_join_names() {
    assert_eq!(Card::vec_to_string(&vec![]), "");
    assert_eq!(
        Card::vec_to_string(&Card::try_vec_from("2s qc").unwrap()),
        "Two of Spades, Queen of Clubs"
    );
    assert_eq!(Suit::Hearts.name(), "Hearts");
    assert_eq!(Value::Ten.name(), "Ten");
}
