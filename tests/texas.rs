use theb::texas::{category_to_str, outcome_to_str, remove_from_deck, simulate};
use theb::{Card, Category, Counters, Random, Value};

fn cards(value: &'static str) -> Vec<Card> {
    Card::try_vec_from(value).unwrap()
}

fn total(entries: &[(&'static str, usize)]) -> usize {
    entries.iter().map(|e| e.1).sum()
}

#[test]
fn counters_keep_labels_in_order() {
    let mut c = Counters::new();
    assert!(c.entries().is_empty());
    c.increment("Tie");
    c.increment("Loss");
    c.increment("Win");
    c.increment("Loss");
    c.increment("Loss");
    assert_eq!(c.entries(), vec![("Loss", 3), ("Tie", 1), ("Win", 1)]);
}

#[test]
fn counters_order_prefixes_first() {
    let mut c = Counters::new();
    c.increment("Straight flush");
    c.increment("Straight");
    c.increment("Flush");
    c.increment("Straight");
    assert_eq!(c.entries(), vec![("Flush", 1), ("Straight", 2), ("Straight flush", 1)]);
}

#[test]
fn labels_name_categories_and_outcomes() {
    assert_eq!(category_to_str(&Category::FullHouse(Value::Two, Value::Three)), "Full house");
    assert_eq!(category_to_str(&Category::HighCard(Value::Ace)), "High card");
    assert_eq!(outcome_to_str(std::cmp::Ordering::Greater), "Win");
    assert_eq!(outcome_to_str(std::cmp::Ordering::Less), "Loss");
    assert_eq!(outcome_to_str(std::cmp::Ordering::Equal), "Tie");
}

#[test]
fn removing_known_cards_from_the_deck() {
    let deck = remove_from_deck(Card::new_deck(), &cards("2c ah 10d"));
    assert_eq!(deck.len(), 49);
    assert!(!deck.contains(&cards("ah")[0]));
    assert_eq!(deck[0], cards("3c")[0]);
    let same = remove_from_deck(Card::new_deck(), &cards("2c 2c"));
    assert_eq!(same.len(), 51);
}

#[test]
fn simulation_is_deterministic() {
    let hole = cards("10s js");
    let community = cards("qs 9s 3d");
    let first = simulate(&hole, &community, 300, &mut Random { seed: 42 });
    let second = simulate(&hole, &community, 300, &mut Random { seed: 42 });
    assert_eq!(first.hands.entries(), second.hands.entries());
    assert_eq!(first.opponent_hands.entries(), second.opponent_hands.entries());
    assert_eq!(first.outcomes.entries(), second.outcomes.entries());
    assert_eq!(total(&first.hands.entries()), 300);
    assert_eq!(total(&first.opponent_hands.entries()), 300);
    assert_eq!(total(&first.outcomes.entries()), 300);
}

#[test]
fn simulation_advances_the_generator_once_per_pass() {
    let hole = cards("10s js");
    let mut r = Random { seed: 5 };
    simulate(&hole, &vec![], 2, &mut r);
    let mut expected = Random { seed: 5 };
    for _ in 0..(2 * 2 * 50) {
        expected.next();
    }
    assert_eq!(r.seed, expected.seed);
}

#[test]
fn simulation_with_a_known_board() {
    let hole = cards("as ah");
    let community = cards("ad ac ks kh 2c");
    let result = simulate(&hole, &community, 50, &mut Random { seed: 1 });
    assert_eq!(result.hands.entries(), vec![("Four of a kind", 50)]);
    assert_eq!(result.outcomes.entries(), vec![("Win", 50)]);
}

#[test]
fn simulation_of_no_rounds_counts_nothing() {
    let result = simulate(&cards("2c 7d"), &vec![], 0, &mut Random { seed: 3 });
    assert!(result.hands.entries().is_empty());
    assert!(result.outcomes.entries().is_empty());
}
