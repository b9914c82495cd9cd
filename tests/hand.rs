use std::cmp::Ordering;

use theb::{Card, Category, Hand, Suit, Value};

fn hand(value: &'static str) -> Hand {
    value.parse::<Hand>().unwrap()
}

fn cards(value: &'static str) -> Vec<Card> {
    Card::try_vec_from(value).unwrap()
}

#[test]
fn test_highest_value_works() {
    assert_eq!(hand("").highest_value(), None);
    assert_eq!(hand("2s ah 4d").highest_value(), Some(Value::Ace));
}

#[test]
fn test_four_of_a_kind_works() {
    assert_eq!(hand("").four_of_a_kind(), None);
    assert_eq!(hand("2s").four_of_a_kind(), None);
    assert_eq!(hand("2s 2d 2h 2c").four_of_a_kind(), Some(Value::Two));
    assert_eq!(
        hand("kh 3s 3d qs 3h 4d 3c").four_of_a_kind(),
        Some(Value::Three)
    );
}

#[test]
fn test_full_house_works() {
    assert_eq!(hand("").full_house(), None);
    assert_eq!(
        hand("2s 2d 2h 3h 3d").full_house(),
        Some((Value::Two, Value::Three))
    );
}

#[test]
fn test_full_house_handles_double_triplets() {
    assert_eq!(
        hand("2s 2d 2h 3h 3d 3c").full_house(),
        Some((Value::Three, Value::Two))
    );
}

#[test]
fn test_two_pair_works() {
    assert_eq!(hand("").two_pair(), None);
    assert_eq!(
        hand("2s 2d 3h 3d").two_pair(),
        Some((Value::Three, Value::Two))
    );
}

#[test]
fn test_flush_works() {
    assert_eq!(hand("").flush(), None);
    assert_eq!(hand("kh 3h 2h 7h 5h").flush().unwrap().0, Suit::Hearts);
    assert_eq!(hand("kh 3h 2h 7h 5h 9h").flush().unwrap().0, Suit::Hearts);
    assert_eq!(
        hand("kh 3h 2h 7h 5h 9h 10h").flush().unwrap().0,
        Suit::Hearts
    );
    assert_eq!(hand("2s 2d 2h 2c 5h").flush(), None);
}

#[test]
fn test_straight_flush_works() {
    assert_eq!(hand("").straight_flush(), None);
    assert_eq!(hand("kh 10h jh qh ah").straight_flush(), Some(Value::Ace));
}

#[test]
fn test_straight_works() {
    assert_eq!(hand("").straight(), None);
    assert_eq!(hand("2s 3h 4d 5h 6s").straight(), Some(Value::Six));
    assert_eq!(hand("2s 3h 4d 5h 6s 7d 8h").straight(), Some(Value::Eight));
}

#[test]
fn test_straight_works_with_ace_high() {
    assert_eq!(hand("10s jd qc kh as").straight(), Some(Value::Ace));
}

#[test]
fn test_straight_works_with_ace_low() {
    assert_eq!(hand("as 2s 3h 4d 5h").straight(), Some(Value::Five));
}

#[test]
fn test_ord_considers_kickers() {
    assert!(hand("qs qc 10s 5s 3s") > hand("qh qd 10h 4h 3s"));
    assert!(hand("qs qc 10s 5s 3s") < hand("qh qd kh 4h 3s"));
}

#[test]
fn test_ord_works_for_empty_hands() {
    assert!(hand("as") > hand(""));
    assert!(hand("") < hand("kh"));
    assert!(hand("").cmp(&hand("")) == Ordering::Equal);
}

#[test]
fn test_ord_works_for_high_cards() {
    assert!(hand("2h as") > hand("kd qs"));
    assert!(hand("as kd") > hand("qd as"));
    assert!(hand("as").cmp(&hand("ah")) == Ordering::Equal);
}

#[test]
fn test_ord_works_for_two_pairs() {
    assert!(hand("3h 3s") > hand("2h 2s"));
    assert!(hand("3h 3s") > hand("kh qd"));
    assert!(hand("3h 3s").cmp(&hand("3d 3c")) == Ordering::Equal);
}

#[test]
fn test_category_enum_orders_as_expected() {
    assert!(Category::StraightFlush(Value::Two) > Category::FourOfAKind(Value::Two));
    assert!(
        Category::FullHouse(Value::Three, Value::Four)
            > Category::FullHouse(Value::Three, Value::Two)
    );
}

#[test]
fn test_find_best_category_works() {
    assert_eq!(hand("").find_best_category(), None);

    assert_eq!(
        hand("2h kd").find_best_category(),
        Some(Category::HighCard(Value::King))
    );

    assert_eq!(
        hand("2h 2d").find_best_category(),
        Some(Category::OnePair(Value::Two))
    );

    assert_eq!(
        hand("2h 3h 2d 3c").find_best_category(),
        Some(Category::TwoPair(Value::Three, Value::Two))
    );

    assert_eq!(
        hand("2h 3h 4s 5c 6h").find_best_category(),
        Some(Category::Straight(Value::Six))
    );

    assert_eq!(
        hand("2h 3h 4h kh 10h").find_best_category(),
        Some(Category::Flush)
    );

    assert_eq!(
        hand("2h 3h 2d 3c 3s").find_best_category(),
        Some(Category::FullHouse(Value::Three, Value::Two))
    );

    assert_eq!(
        hand("5s 5h 5c 5d").find_best_category(),
        Some(Category::FourOfAKind(Value::Five))
    );

    assert_eq!(
        hand("2h 3h 4h 5h 6h").find_best_category(),
        Some(Category::StraightFlush(Value::Six))
    );
}

#[test]
fn empty_hand_is_below_every_hand() {
    let empty = Hand::empty();
    assert!(empty.is_empty());
    assert!(empty.cmp(&Hand::empty()) == Ordering::Equal);
    assert!(empty == Hand::empty());
    for token in ["2c", "as", "2c 2d", "10h jh qh kh ah"] {
        assert!(empty < hand(token));
        assert!(hand(token) > Hand::empty());
    }
}

#[test]
fn category_kinds_dominate_values() {
    assert!(Category::OnePair(Value::Two) > Category::HighCard(Value::Ace));
    assert!(Category::Flush > Category::Straight(Value::Ace));
    assert!(Category::FullHouse(Value::Two, Value::Three) > Category::Flush);
    assert!(Category::TwoPair(Value::King, Value::Two) > Category::TwoPair(Value::Queen, Value::Jack));
    assert!(Category::TwoPair(Value::King, Value::Three) > Category::TwoPair(Value::King, Value::Two));
    assert_eq!(
        Category::Straight(Value::Six).compare(&Category::Straight(Value::Six)),
        Ordering::Equal
    );
}

#[test]
fn double_triplet_plays_as_full_house() {
    assert_eq!(
        hand("2s 2d 2h 3h 3d 3c").find_best_category(),
        Some(Category::FullHouse(Value::Three, Value::Two))
    );
    assert_eq!(
        hand("2s 2d 2h 3h 3d 3c 4s").full_house(),
        Some((Value::Three, Value::Two))
    );
    assert_eq!(
        hand("2s 2d 2h 3h 3d 9c 9s").full_house(),
        Some((Value::Two, Value::Nine))
    );
}

#[test]
fn flush_precedence() {
    assert_eq!(hand("2h 3h 4h kh 10h").straight(), None);
    assert_eq!(hand("2h 3h 4h kh 10h").find_best_category(), Some(Category::Flush));
    let straight_flush = hand("2h 3h 4h 5h 6h");
    assert_eq!(straight_flush.find_best_category(), Some(Category::StraightFlush(Value::Six)));
    assert!(straight_flush > hand("2h 3h 4h kh 10h"));
    assert!(straight_flush > hand("2h 3d 4h 5h 6h"));
}

#[test]
fn flush_holds_the_suit_cards_in_order() {
    let (suit, flush_cards) = hand("kh 3h 2s 7h 5h 9h").flush().unwrap();
    assert_eq!(suit, Suit::Hearts);
    assert_eq!(flush_cards, cards("3h 5h 7h 9h kh"));
}

#[test]
fn straight_flush_needs_the_run_in_one_suit() {
    assert_eq!(hand("2h 3h 4h 5h 6d 9h").straight_flush(), None);
    assert_eq!(hand("2h 3h 4h 5h 6d 9h").straight(), Some(Value::Six));
    assert_eq!(hand("ad 2d 3d 4d 5d").straight_flush(), Some(Value::Five));
}

#[test]
fn straight_edge_cases() {
    assert_eq!(hand("as 2s 3h 4d 6h").straight(), None);
    assert_eq!(hand("as 2s 3h 4d 5h 6c").straight(), Some(Value::Six));
    assert_eq!(hand("qs ks as 2d 3h").straight(), None);
    assert_eq!(hand("9s 10s js qd kh ah").straight(), Some(Value::Ace));
    assert_eq!(hand("2s 2d 3h 4d 5h 5c ah").straight(), Some(Value::Five));
}

#[test]
fn group_detectors_take_the_highest_exact_group() {
    let h = hand("2s 2d 9h 9d kc kd 4s");
    assert_eq!(h.one_pair(), Some(Value::King));
    assert_eq!(h.two_pair(), Some((Value::King, Value::Nine)));
    assert_eq!(h.three_of_a_kind(), None);
    assert_eq!(h.find_best_category(), Some(Category::TwoPair(Value::King, Value::Nine)));
    let t = hand("7s 7d 7h qc");
    assert_eq!(t.three_of_a_kind(), Some(Value::Seven));
    assert_eq!(t.find_best_category(), Some(Category::ThreeOfAKind(Value::Seven)));
}

#[test]
fn hands_keep_cards_in_rank_order() {
    let h = hand("kh 2s qd 2c");
    assert_eq!(h.cards(), &cards("2s 2c qd kh"));
    assert_eq!(Card::vec_to_string(h.cards()), "Two of Spades, Two of Clubs, Queen of Diamonds, King of Hearts");
    assert!(hand("as kd") == hand("kd as"));
    assert!(hand("as kd") != hand("ad kd"));
}

#[test]
fn kickers_are_the_cards_outside_the_category() {
    let h = hand("qs qc 10s 5s 3d");
    let cat = h.find_best_category().unwrap();
    assert_eq!(h.kickers(&cat), cards("10s 5s 3d"));
    let f = hand("2h 3h 4h kh 10h js");
    assert_eq!(f.kickers(&Category::Flush), cards("js"));
    let s = hand("as 2s 3h 4d 5h 9c");
    assert_eq!(s.kickers(&Category::Straight(Value::Five)), cards("9c"));
    let fh = hand("2h 3h 2d 3c 3s");
    assert_eq!(fh.kickers(&fh.find_best_category().unwrap()), vec![]);
}
