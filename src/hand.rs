//! Hands of cards: grouping by value and suit, poker category detection, and
//! the poker order between hands with kicker tie-breaking.

use vstd::prelude::*;

use crate::card::{cmp_int, ParseError, rank_of, suit_at, value_at, value_of_rank, Card, Suit, Value};

verus! {

/// A poker hand category, from weakest to strongest. Categories of the same
/// kind compare by their values, the first value first.
#[derive(Clone, Copy, Debug, PartialEq, Eq, Structural, Hash, Ord)]
pub enum Category {
    HighCard(Value),
    OnePair(Value),
    TwoPair(Value, Value),
    ThreeOfAKind(Value),
    Straight(Value),
    Flush,
    FullHouse(Value, Value),
    FourOfAKind(Value),
    StraightFlush(Value),
}

/// The place of a category's kind in the poker ranking, 0 for a high card up
/// to 8 for a straight flush.
pub open spec fn kind_index(c: Category) -> int {
    match c {
        Category::HighCard(_) => 0,
        Category::OnePair(_) => 1,
        Category::TwoPair(_, _) => 2,
        Category::ThreeOfAKind(_) => 3,
        Category::Straight(_) => 4,
        Category::Flush => 5,
        Category::FullHouse(_, _) => 6,
        Category::FourOfAKind(_) => 7,
        Category::StraightFlush(_) => 8,
    }
}

/// The rank of a category's first value, 0 where it has none.
pub open spec fn first_rank(c: Category) -> int {
    match c {
        Category::HighCard(v) => rank_of(v),
        Category::OnePair(v) => rank_of(v),
        Category::TwoPair(v, _) => rank_of(v),
        Category::ThreeOfAKind(v) => rank_of(v),
        Category::Straight(v) => rank_of(v),
        Category::Flush => 0,
        Category::FullHouse(v, _) => rank_of(v),
        Category::FourOfAKind(v) => rank_of(v),
        Category::StraightFlush(v) => rank_of(v),
    }
}

/// The rank of a category's second value, 0 where it has none.
pub open spec fn second_rank(c: Category) -> int {
    match c {
        Category::TwoPair(_, v) => rank_of(v),
        Category::FullHouse(_, v) => rank_of(v),
        _ => 0,
    }
}

/// The poker order of categories: by kind, then by the first value, then by
/// the second.
pub open spec fn category_cmp(a: Category, b: Category) -> core::cmp::Ordering {
    if kind_index(a) != kind_index(b) {
        cmp_int(kind_index(a), kind_index(b))
    } else if first_rank(a) != first_rank(b) {
        cmp_int(first_rank(a), first_rank(b))
    } else {
        cmp_int(second_rank(a), second_rank(b))
    }
}

fn cmp_u8(a: u8, b: u8) -> (r: core::cmp::Ordering)
    ensures
        r == cmp_int(a as int, b as int),
{
    if a < b {
        core::cmp::Ordering::Less
    } else if a > b {
        core::cmp::Ordering::Greater
    } else {
        core::cmp::Ordering::Equal
    }
}

impl Category {
    fn kind(&self) -> (r: u8)
        ensures
            r as int == kind_index(*self),
    {
        match self {
            Category::HighCard(_) => 0,
            Category::OnePair(_) => 1,
            Category::TwoPair(_, _) => 2,
            Category::ThreeOfAKind(_) => 3,
            Category::Straight(_) => 4,
            Category::Flush => 5,
            Category::FullHouse(_, _) => 6,
            Category::FourOfAKind(_) => 7,
            Category::StraightFlush(_) => 8,
        }
    }

    fn ranks(&self) -> (r: (u8, u8))
        ensures
            r.0 as int == first_rank(*self),
            r.1 as int == second_rank(*self),
    {
        match self {
            Category::HighCard(v) => (v.rank(), 0),
            Category::OnePair(v) => (v.rank(), 0),
            Category::TwoPair(v, w) => (v.rank(), w.rank()),
            Category::ThreeOfAKind(v) => (v.rank(), 0),
            Category::Straight(v) => (v.rank(), 0),
            Category::Flush => (0, 0),
            Category::FullHouse(v, w) => (v.rank(), w.rank()),
            Category::FourOfAKind(v) => (v.rank(), 0),
            Category::StraightFlush(v) => (v.rank(), 0),
        }
    }

    /// Compares two categories in the poker order.
    pub fn compare(&self, other: &Category) -> (r: core::cmp::Ordering)
        ensures
            r == category_cmp(*self, *other),
    {
        let (k, l) = (self.kind(), other.kind());
        if k != l {
            return cmp_u8(k, l);
        }
        let (a, b) = (self.ranks(), other.ranks());
        if a.0 != b.0 {
            cmp_u8(a.0, b.0)
        } else {
            cmp_u8(a.1, b.1)
        }
    }
}

impl PartialOrd for Category {
    fn partial_cmp(&self, other: &Category) -> (r: Option<core::cmp::Ordering>)
        ensures
            r == Some(category_cmp(*self, *other)),
    {
        Some(self.compare(other))
    }
}

impl vstd::std_specs::cmp::PartialOrdSpecImpl for Category {
    open spec fn obeys_partial_cmp_spec() -> bool {
        true
    }

    open spec fn partial_cmp_spec(&self, other: &Category) -> Option<core::cmp::Ordering> {
        Some(category_cmp(*self, *other))
    }
}

/// How many cards of `s` have the rank `r`.
pub open spec fn count_rank(s: Seq<Card>, r: int) -> nat
    decreases s.len(),
{
    if s.len() == 0 {
        0
    } else {
        count_rank(s.drop_last(), r) + if rank_of(s.last().value) == r {
            1nat
        } else {
            0nat
        }
    }
}

/// How many cards of `s` have the suit `u`.
pub open spec fn count_suit(s: Seq<Card>, u: Suit) -> nat
    decreases s.len(),
{
    if s.len() == 0 {
        0
    } else {
        count_suit(s.drop_last(), u) + if s.last().suit == u {
            1nat
        } else {
            0nat
        }
    }
}

/// The cards of `s` that have the rank `r`, in their order in `s`.
pub open spec fn of_rank(s: Seq<Card>, r: int) -> Seq<Card>
    decreases s.len(),
{
    if s.len() == 0 {
        seq![]
    } else if rank_of(s.last().value) == r {
        of_rank(s.drop_last(), r).push(s.last())
    } else {
        of_rank(s.drop_last(), r)
    }
}

/// The cards of `s` whose rank is below `r`, rank by rank from Two upwards,
/// and in their order in `s` within a rank.
pub open spec fn ranked_below(s: Seq<Card>, r: int) -> Seq<Card>
    decreases r,
{
    if r <= 2 {
        seq![]
    } else {
        ranked_below(s, r - 1) + of_rank(s, r - 1)
    }
}

/// `s` in ascending rank order; cards of equal rank keep their order.
pub open spec fn sort_by_rank(s: Seq<Card>) -> Seq<Card> {
    ranked_below(s, 15)
}

/// Whether the ranks of `s` never decrease.
pub open spec fn sorted_by_rank(s: Seq<Card>) -> bool {
    forall|i: int, j: int|
        0 <= i < j < s.len() ==> rank_of(#[trigger] s[i].value) <= rank_of(#[trigger] s[j].value)
}

proof fn lemma_rank_bounds(v: Value)
    ensures
        2 <= rank_of(v) <= 14,
{
}

proof fn lemma_count_rank_le(s: Seq<Card>, r: int)
    ensures
        count_rank(s, r) <= s.len(),
    decreases s.len(),
{
    if s.len() > 0 {
        lemma_count_rank_le(s.drop_last(), r);
    }
}

proof fn lemma_count_suit_le(s: Seq<Card>, u: Suit)
    ensures
        count_suit(s, u) <= s.len(),
    decreases s.len(),
{
    if s.len() > 0 {
        lemma_count_suit_le(s.drop_last(), u);
    }
}

proof fn lemma_of_rank_ranks(s: Seq<Card>, r: int)
    ensures
        forall|i: int| 0 <= i < of_rank(s, r).len() ==> rank_of(#[trigger] of_rank(s, r)[i].value) == r,
    decreases s.len(),
{
    if s.len() > 0 {
        lemma_of_rank_ranks(s.drop_last(), r);
    }
}

proof fn lemma_ranked_below_sorted(s: Seq<Card>, r: int)
    ensures
        sorted_by_rank(ranked_below(s, r)),
        forall|i: int|
            0 <= i < ranked_below(s, r).len() ==> rank_of(#[trigger] ranked_below(s, r)[i].value) < r,
    decreases r,
{
    if r > 2 {
        lemma_ranked_below_sorted(s, r - 1);
        lemma_of_rank_ranks(s, r - 1);
        let a = ranked_below(s, r - 1);
        let b = of_rank(s, r - 1);
        let c = ranked_below(s, r);
        assert(c == a + b);
        assert forall|i: int, j: int| 0 <= i < j < c.len() implies rank_of(#[trigger] c[i].value)
            <= rank_of(#[trigger] c[j].value) by {
            if j < a.len() {
                assert(c[i] == a[i] && c[j] == a[j]);
            } else if i < a.len() {
                assert(c[i] == a[i] && c[j] == b[j - a.len()]);
            } else {
                assert(c[i] == b[i - a.len()] && c[j] == b[j - a.len()]);
            }
        }
        assert forall|i: int| 0 <= i < c.len() implies rank_of(#[trigger] c[i].value) < r by {
            if i < a.len() {
                assert(c[i] == a[i]);
            } else {
                assert(c[i] == b[i - a.len()]);
            }
        }
    }
}

/// The number of cards of each rank: entry `i` counts rank `i + 2`.
fn rank_counts(cards: &Vec<Card>) -> (r: Vec<usize>)
    ensures
        r@.len() == 13,
        forall|i: int| 0 <= i < 13 ==> #[trigger] r@[i] == count_rank(cards@, i + 2),
{
    let mut counts: Vec<usize> = vec![0, 0, 0, 0, 0, 0, 0, 0, 0, 0, 0, 0, 0];
    let mut j: usize = 0;
    while j < cards.len()
        invariant
            j <= cards.len(),
            counts@.len() == 13,
            forall|i: int| 0 <= i < 13 ==> #[trigger] counts@[i] == count_rank(cards@.take(j as int), i + 2),
        decreases cards.len() - j,
    {
        let ghost before = cards@.take(j as int);
        let ghost after = cards@.take(j + 1);
        assert(after.drop_last() =~= before);
        proof {
            lemma_rank_bounds(cards@[j as int].value);
            lemma_count_rank_le(before, rank_of(cards@[j as int].value));
        }
        let idx = (cards[j].value.rank() - 2) as usize;
        counts.set(idx, counts[idx] + 1);
        j = j + 1;
    }
    assert(cards@.take(cards@.len() as int) =~= cards@);
    counts
}

/// The number of cards of each suit: entry `i` counts `suit_at(i)`.
fn suit_counts(cards: &Vec<Card>) -> (r: Vec<usize>)
    ensures
        r@.len() == 4,
        forall|i: int| 0 <= i < 4 ==> #[trigger] r@[i] == count_suit(cards@, suit_at(i)),
{
    let mut counts: Vec<usize> = vec![0, 0, 0, 0];
    let mut j: usize = 0;
    while j < cards.len()
        invariant
            j <= cards.len(),
            counts@.len() == 4,
            forall|i: int| 0 <= i < 4 ==> #[trigger] counts@[i] == count_suit(cards@.take(j as int), suit_at(i)),
        decreases cards.len() - j,
    {
        let ghost before = cards@.take(j as int);
        let ghost after = cards@.take(j + 1);
        assert(after.drop_last() =~= before);
        proof {
            lemma_count_suit_le(before, cards@[j as int].suit);
        }
        let idx: usize = match cards[j].suit {
            Suit::Clubs => 0,
            Suit::Diamonds => 1,
            Suit::Hearts => 2,
            Suit::Spades => 3,
        };
        counts.set(idx, counts[idx] + 1);
        j = j + 1;
    }
    assert(cards@.take(cards@.len() as int) =~= cards@);
    counts
}

/// Sorts by rank, keeping the order of cards of equal rank.
fn sorted_by_value(cards: &Vec<Card>) -> (r: Vec<Card>)
    ensures
        r@ == sort_by_rank(cards@),
{
    let mut result: Vec<Card> = Vec::new();
    let mut r: u8 = 2;
    while r < 15
        invariant
            2 <= r <= 15,
            result@ == ranked_below(cards@, r as int),
        decreases 15 - r,
    {
        let mut j: usize = 0;
        assert(cards@.take(0) =~= Seq::<Card>::empty());
        assert(result@ + Seq::<Card>::empty() =~= result@);
        while j < cards.len()
            invariant
                2 <= r < 15,
                j <= cards.len(),
                result@ == ranked_below(cards@, r as int) + of_rank(cards@.take(j as int), r as int),
            decreases cards.len() - j,
        {
            let ghost before = cards@.take(j as int);
            assert(cards@.take(j + 1).drop_last() =~= before);
            assert(cards@.take(j + 1).last() == cards@[j as int]);
            if cards[j].value.rank() == r {
                assert(ranked_below(cards@, r as int) + of_rank(before, r as int).push(cards@[j as int])
                    =~= (ranked_below(cards@, r as int) + of_rank(before, r as int)).push(cards@[j as int]));
                result.push(cards[j]);
            }
            j = j + 1;
        }
        assert(cards@.take(cards@.len() as int) =~= cards@);
        r = r + 1;
    }
    result
}

/// The highest value of rank at most `r` that exactly `n` cards of `s` have.
pub open spec fn top_group(s: Seq<Card>, n: nat, r: int) -> Option<Value>
    decreases r,
{
    if r < 2 {
        None
    } else if count_rank(s, r) == n {
        Some(value_of_rank(r))
    } else {
        top_group(s, n, r - 1)
    }
}

/// Whether some card of `s` has the rank `r`.
pub open spec fn has_rank(s: Seq<Card>, r: int) -> bool {
    count_rank(s, r) > 0
}

/// The highest value of rank at most `r` that some card of `s` has.
pub open spec fn top_present(s: Seq<Card>, r: int) -> Option<Value>
    decreases r,
{
    if r < 2 {
        None
    } else if has_rank(s, r) {
        Some(value_of_rank(r))
    } else {
        top_present(s, r - 1)
    }
}

/// The highest value among the cards of `s`.
pub open spec fn highest_value_of(s: Seq<Card>) -> Option<Value> {
    top_present(s, 14)
}

/// The highest value that exactly four cards of `s` have.
pub open spec fn four_of_a_kind_of(s: Seq<Card>) -> Option<Value> {
    top_group(s, 4, 14)
}

/// The highest value that exactly three cards of `s` have.
pub open spec fn three_of_a_kind_of(s: Seq<Card>) -> Option<Value> {
    top_group(s, 3, 14)
}

/// The highest value that exactly two cards of `s` have.
pub open spec fn one_pair_of(s: Seq<Card>) -> Option<Value> {
    top_group(s, 2, 14)
}

/// The two highest values that exactly two cards of `s` have, higher first.
pub open spec fn two_pair_of(s: Seq<Card>) -> Option<(Value, Value)> {
    match top_group(s, 2, 14) {
        Some(h) => match top_group(s, 2, rank_of(h) - 1) {
            Some(l) => Some((h, l)),
            None => None,
        },
        None => None,
    }
}

/// A full house of `s`: the highest triplet, with the highest pair; or,
/// where no value has exactly two cards, with the next triplet below it,
/// which then plays as the pair.
pub open spec fn full_house_of(s: Seq<Card>) -> Option<(Value, Value)> {
    match top_group(s, 3, 14) {
        None => None,
        Some(t) => match top_group(s, 2, 14) {
            Some(p) => Some((t, p)),
            None => match top_group(s, 3, rank_of(t) - 1) {
                Some(l) => Some((t, l)),
                None => None,
            },
        },
    }
}

/// The cards of `s` that have the suit `u`, in their order in `s`.
pub open spec fn of_suit(s: Seq<Card>, u: Suit) -> Seq<Card>
    decreases s.len(),
{
    if s.len() == 0 {
        seq![]
    } else if s.last().suit == u {
        of_suit(s.drop_last(), u).push(s.last())
    } else {
        of_suit(s.drop_last(), u)
    }
}

/// The suit that most cards of `s` have; of suits with equally many, the
/// first in the order Clubs, Diamonds, Hearts, Spades.
pub open spec fn largest_suit(s: Seq<Card>) -> Suit {
    let a = if count_suit(s, Suit::Diamonds) > count_suit(s, Suit::Clubs) {
        Suit::Diamonds
    } else {
        Suit::Clubs
    };
    let b = if count_suit(s, Suit::Hearts) > count_suit(s, a) {
        Suit::Hearts
    } else {
        a
    };
    if count_suit(s, Suit::Spades) > count_suit(s, b) {
        Suit::Spades
    } else {
        b
    }
}

/// A flush of `s`: the largest suit, where it has at least five cards, with
/// the cards of that suit.
pub open spec fn flush_of(s: Seq<Card>) -> Option<(Suit, Seq<Card>)> {
    if count_suit(s, largest_suit(s)) >= 5 {
        Some((largest_suit(s), of_suit(s, largest_suit(s))))
    } else {
        None
    }
}

/// Whether `s` holds the five ranks from `h - 4` up to `h`.
pub open spec fn run_at(s: Seq<Card>, h: int) -> bool {
    &&& has_rank(s, h)
    &&& has_rank(s, h - 1)
    &&& has_rank(s, h - 2)
    &&& has_rank(s, h - 3)
    &&& has_rank(s, h - 4)
}

/// Whether `s` holds an Ace, Two, Three, Four and Five.
pub open spec fn wheel(s: Seq<Card>) -> bool {
    &&& has_rank(s, 14)
    &&& has_rank(s, 2)
    &&& has_rank(s, 3)
    &&& has_rank(s, 4)
    &&& has_rank(s, 5)
}

/// The top value of the highest straight of `s` whose top rank is at most
/// `h`; below Six only the wheel is left, whose top is Five.
pub open spec fn straight_from(s: Seq<Card>, h: int) -> Option<Value>
    decreases h,
{
    if h < 6 {
        if wheel(s) {
            Some(Value::Five)
        } else {
            None
        }
    } else if run_at(s, h) {
        Some(value_of_rank(h))
    } else {
        straight_from(s, h - 1)
    }
}

/// The top value of the highest straight of `s`.
pub open spec fn straight_of(s: Seq<Card>) -> Option<Value> {
    straight_from(s, 14)
}

/// The top value of the highest straight among the cards of the flush of
/// `s`.
pub open spec fn straight_flush_of(s: Seq<Card>) -> Option<Value> {
    match flush_of(s) {
        Some((_, f)) => straight_of(f),
        None => None,
    }
}

/// The best category of `s`: the first that holds of straight flush, four of
/// a kind, full house, flush, straight, three of a kind, two pair, one pair
/// and high card; none for no cards.
pub open spec fn best_category(s: Seq<Card>) -> Option<Category> {
    if let Some(v) = straight_flush_of(s) {
        Some(Category::StraightFlush(v))
    } else if let Some(v) = four_of_a_kind_of(s) {
        Some(Category::FourOfAKind(v))
    } else if let Some((t, p)) = full_house_of(s) {
        Some(Category::FullHouse(t, p))
    } else if flush_of(s) is Some {
        Some(Category::Flush)
    } else if let Some(v) = straight_of(s) {
        Some(Category::Straight(v))
    } else if let Some(v) = three_of_a_kind_of(s) {
        Some(Category::ThreeOfAKind(v))
    } else if let Some((h, l)) = two_pair_of(s) {
        Some(Category::TwoPair(h, l))
    } else if let Some(v) = one_pair_of(s) {
        Some(Category::OnePair(v))
    } else if let Some(v) = highest_value_of(s) {
        Some(Category::HighCard(v))
    } else {
        None
    }
}

proof fn lemma_count_rank_outside(s: Seq<Card>, r: int)
    requires
        r < 2 || r > 14,
    ensures
        count_rank(s, r) == 0,
    decreases s.len(),
{
    if s.len() > 0 {
        lemma_rank_bounds(s.last().value);
        lemma_count_rank_outside(s.drop_last(), r);
    }
}

/// The top value of the highest straight, from how many cards have each
/// rank (entry `i` counting rank `i + 2`): ranks are scanned from Ace down
/// with a count of consecutive ranks present.
fn get_straight(counts: &Vec<usize>, Ghost(s): Ghost<Seq<Card>>) -> (r: Option<Value>)
    requires
        counts@.len() == 13,
        forall|i: int| 0 <= i < 13 ==> #[trigger] counts@[i] == count_rank(s, i + 2),
    ensures
        r == straight_of(s),
{
    proof {
        lemma_count_rank_outside(s, 15);
        lemma_count_rank_outside(s, 16);
        lemma_count_rank_outside(s, 17);
        lemma_count_rank_outside(s, 18);
        assert(straight_from(s, 15) == straight_from(s, 14));
        assert(straight_from(s, 16) == straight_from(s, 15));
        assert(straight_from(s, 17) == straight_from(s, 16));
        assert(straight_from(s, 18) == straight_from(s, 17));
        assert(!has_rank(s, 15));
    }
    let mut run: usize = 0;
    let mut r: usize = 14;
    while r >= 2
        invariant
            1 <= r <= 14,
            run <= 4,
            counts@.len() == 13,
            forall|i: int| 0 <= i < 13 ==> #[trigger] counts@[i] == count_rank(s, i + 2),
            forall|q: int| r < q <= r + run ==> #[trigger] has_rank(s, q),
            !has_rank(s, r + run + 1),
            straight_of(s) == straight_from(s, r + 4),
        decreases r,
    {
        assert(counts@[r - 2] == count_rank(s, r as int));
        if counts[r - 2] > 0 {
            if run + 1 == 5 {
                assert(has_rank(s, r + 4 as int));
                if r + 4 > 14 {
                    proof {
                        lemma_count_rank_outside(s, r + 4 as int);
                    }
                }
                assert(run_at(s, r + 4));
                return Some(Value::at(r + 2));
            }
            assert(!run_at(s, r + 4)) by {
                if r + run + 1 > 14 {
                    lemma_count_rank_outside(s, r + 4 as int);
                }
            }
            run = run + 1;
        } else {
            assert(!run_at(s, r + 4));
            run = 0;
        }
        r = r - 1;
    }
    assert(run == 4 || !has_rank(s, 2 + run as int));
    assert(counts@[12] == count_rank(s, 14));
    if run == 4 && counts[12] > 0 {
        assert(has_rank(s, 2) && has_rank(s, 3) && has_rank(s, 4) && has_rank(s, 5));
        Some(Value::Five)
    } else {
        None
    }
}

/// Compares the ranks of `a` and `b` from their last cards backwards, and
/// gives the first difference; equal when either runs out first.
pub open spec fn kicker_cmp(a: Seq<Card>, b: Seq<Card>) -> core::cmp::Ordering
    decreases a.len(),
{
    if a.len() == 0 || b.len() == 0 {
        core::cmp::Ordering::Equal
    } else if rank_of(a.last().value) != rank_of(b.last().value) {
        cmp_int(rank_of(a.last().value), rank_of(b.last().value))
    } else {
        kicker_cmp(a.drop_last(), b.drop_last())
    }
}

/// The poker order of hands given by their cards in ascending rank order:
/// an empty hand is below every other and equal to an empty one; otherwise
/// the best categories decide, and between equal categories the cards from
/// the highest down.
pub open spec fn hand_cmp(a: Seq<Card>, b: Seq<Card>) -> core::cmp::Ordering {
    if a.len() == 0 {
        if b.len() == 0 {
            core::cmp::Ordering::Equal
        } else {
            core::cmp::Ordering::Less
        }
    } else if b.len() == 0 {
        core::cmp::Ordering::Greater
    } else if category_cmp(best_category(a)->Some_0, best_category(b)->Some_0)
        != core::cmp::Ordering::Equal {
        category_cmp(best_category(a)->Some_0, best_category(b)->Some_0)
    } else {
        kicker_cmp(a, b)
    }
}

/// Whether a card of rank `r` is part of a straight whose top rank is `h`.
pub open spec fn in_run(h: int, r: int) -> bool {
    (h - 4 <= r <= h) || (h == 5 && r == 14)
}

/// Whether the card `c` belongs to the rank groups that make up the category
/// `cat`; for a flush, whether it has the flush suit `u`.
pub open spec fn defines(cat: Category, u: Suit, c: Card) -> bool {
    let r = rank_of(c.value);
    match cat {
        Category::HighCard(v) => r == rank_of(v),
        Category::OnePair(v) => r == rank_of(v),
        Category::TwoPair(a, b) => r == rank_of(a) || r == rank_of(b),
        Category::ThreeOfAKind(v) => r == rank_of(v),
        Category::Straight(h) => in_run(rank_of(h), r),
        Category::Flush => c.suit == u,
        Category::FullHouse(a, b) => r == rank_of(a) || r == rank_of(b),
        Category::FourOfAKind(v) => r == rank_of(v),
        Category::StraightFlush(h) => in_run(rank_of(h), r),
    }
}

/// The cards of `s` that do not belong to the category `cat` (with the flush
/// suit `u`), from the last card of `s` to the first.
pub open spec fn kickers_from(s: Seq<Card>, cat: Category, u: Suit) -> Seq<Card>
    decreases s.len(),
{
    if s.len() == 0 {
        seq![]
    } else if defines(cat, u, s.last()) {
        kickers_from(s.drop_last(), cat, u)
    } else {
        seq![s.last()] + kickers_from(s.drop_last(), cat, u)
    }
}

/// The kickers of the cards `s`, held in ascending rank order, for the
/// category `cat`: the cards outside its rank groups, highest first.
pub open spec fn kickers_of(s: Seq<Card>, cat: Category) -> Seq<Card> {
    kickers_from(s, cat, largest_suit(s))
}

proof fn lemma_top_present_some(s: Seq<Card>, q: int, r: int)
    requires
        2 <= q <= r,
        has_rank(s, q),
    ensures
        top_present(s, r) is Some,
    decreases r,
{
    if !has_rank(s, r) {
        lemma_top_present_some(s, q, r - 1);
    }
}

proof fn lemma_count_rank_last(s: Seq<Card>)
    requires
        s.len() > 0,
    ensures
        has_rank(s, rank_of(s.last().value)),
{
}

/// A hand with cards has a best category.
pub proof fn lemma_best_category_exists(s: Seq<Card>)
    requires
        s.len() > 0,
    ensures
        best_category(s) is Some,
{
    lemma_count_rank_last(s);
    lemma_rank_bounds(s.last().value);
    lemma_top_present_some(s, rank_of(s.last().value), 14);
}

proof fn lemma_ranked_below_holds(s: Seq<Card>, r: int, q: int)
    requires
        2 <= q < r,
    ensures
        ranked_below(s, r).len() >= of_rank(s, q).len(),
    decreases r,
{
    if q < r - 1 {
        lemma_ranked_below_holds(s, r - 1, q);
    }
}

/// Sorting keeps a hand with cards non-empty.
pub proof fn lemma_sort_nonempty(s: Seq<Card>)
    requires
        s.len() > 0,
    ensures
        sort_by_rank(s).len() > 0,
{
    let r = rank_of(s.last().value);
    lemma_rank_bounds(s.last().value);
    assert(of_rank(s, r).len() > 0);
    lemma_ranked_below_holds(s, 15, r);
}

/// The empty hand is below every hand with cards, and equal to itself.
pub proof fn lemma_empty_hand_least(s: Seq<Card>)
    requires
        s.len() > 0,
    ensures
        hand_cmp(Seq::<Card>::empty(), s) == core::cmp::Ordering::Less,
        hand_cmp(s, Seq::<Card>::empty()) == core::cmp::Ordering::Greater,
        hand_cmp(Seq::<Card>::empty(), Seq::<Card>::empty()) == core::cmp::Ordering::Equal,
{
}

/// A hand: cards held in ascending rank order, together with how many of
/// them have each rank and each suit.
pub struct Hand {
    cards: Vec<Card>,
    value_counts: Vec<usize>,
    suit_counts: Vec<usize>,
}

impl View for Hand {
    type V = Seq<Card>;

    /// The cards of the hand, in ascending rank order.
    closed spec fn view(&self) -> Seq<Card> {
        self.cards@
    }
}

impl Hand {
    #[verifier::type_invariant]
    spec fn inv(self) -> bool {
        &&& sorted_by_rank(self.cards@)
        &&& self.value_counts@.len() == 13
        &&& self.suit_counts@.len() == 4
        &&& forall|i: int| 0 <= i < 13 ==> #[trigger] self.value_counts@[i] == count_rank(self.cards@, i + 2)
        &&& forall|i: int| 0 <= i < 4 ==> #[trigger] self.suit_counts@[i] == count_suit(self.cards@, suit_at(i))
    }

    /// The hand of the given cards, which it holds sorted by rank.
    pub fn new(cards: Vec<Card>) -> (r: Hand)
        ensures
            r@ == sort_by_rank(cards@),
            sorted_by_rank(r@),
    {
        let sorted = sorted_by_value(&cards);
        proof {
            lemma_ranked_below_sorted(cards@, 15);
        }
        let value_counts = rank_counts(&sorted);
        let suit_counts = suit_counts(&sorted);
        Hand { cards: sorted, value_counts, suit_counts }
    }

    /// The hand without cards.
    pub fn empty() -> (r: Hand)
        ensures
            r@ == Seq::<Card>::empty(),
    {
        Hand {
            cards: Vec::new(),
            value_counts: vec![0, 0, 0, 0, 0, 0, 0, 0, 0, 0, 0, 0, 0],
            suit_counts: vec![0, 0, 0, 0],
        }
    }

    /// The highest value of rank at most `r` that exactly `n` cards have,
    /// scanning the counts from rank `r` down.
    fn top_group(&self, n: usize, r: u8) -> (res: Option<Value>)
        requires
            r <= 14,
        ensures
            res == top_group(self@, n as nat, r as int),
    {
        proof {
            use_type_invariant(self);
        }
        let mut k: u8 = r;
        while k >= 2
            invariant
                k <= r <= 14,
                top_group(self@, n as nat, r as int) == top_group(self@, n as nat, k as int),
                self.inv(),
            decreases k,
        {
            assert(self.value_counts@[k - 2] == count_rank(self@, k as int));
            if self.value_counts[(k - 2) as usize] == n {
                return Some(Value::at((k - 2) as usize));
            }
            k = k - 1;
        }
        None
    }

    /// The rank of the highest card; none for an empty hand.
    pub fn highest_value(&self) -> (r: Option<Value>)
        ensures
            r == highest_value_of(self@),
    {
        proof {
            use_type_invariant(self);
        }
        let mut k: u8 = 14;
        while k >= 2
            invariant
                k <= 14,
                highest_value_of(self@) == top_present(self@, k as int),
                self.inv(),
            decreases k,
        {
            assert(self.value_counts@[k - 2] == count_rank(self@, k as int));
            if self.value_counts[(k - 2) as usize] > 0 {
                return Some(Value::at((k - 2) as usize));
            }
            k = k - 1;
        }
        None
    }

    /// The value of the highest group of exactly four cards.
    pub fn four_of_a_kind(&self) -> (r: Option<Value>)
        ensures
            r == four_of_a_kind_of(self@),
    {
        self.top_group(4, 14)
    }

    /// The value of the highest group of exactly three cards.
    pub fn three_of_a_kind(&self) -> (r: Option<Value>)
        ensures
            r == three_of_a_kind_of(self@),
    {
        self.top_group(3, 14)
    }

    /// The value of the highest group of exactly two cards.
    pub fn one_pair(&self) -> (r: Option<Value>)
        ensures
            r == one_pair_of(self@),
    {
        self.top_group(2, 14)
    }

    /// The triplet's and the pair's values of a full house. Where no pair is
    /// there, a second, lower triplet plays as the pair.
    pub fn full_house(&self) -> (r: Option<(Value, Value)>)
        ensures
            r == full_house_of(self@),
    {
        match self.top_group(3, 14) {
            None => None,
            Some(t) => match self.top_group(2, 14) {
                Some(p) => Some((t, p)),
                None => match self.top_group(3, t.rank() - 1) {
                    Some(l) => Some((t, l)),
                    None => None,
                },
            },
        }
    }

    /// The values of the two highest pairs, higher first.
    pub fn two_pair(&self) -> (r: Option<(Value, Value)>)
        ensures
            r == two_pair_of(self@),
    {
        match self.top_group(2, 14) {
            Some(h) => match self.top_group(2, h.rank() - 1) {
                Some(l) => Some((h, l)),
                None => None,
            },
            None => None,
        }
    }

    /// The suit with the most cards, where it has five or more, and its
    /// cards in ascending rank order.
    pub fn flush(&self) -> (r: Option<(Suit, Vec<Card>)>)
        ensures
            match r {
                Some((u, v)) => flush_of(self@) == Some((u, v@)),
                None => flush_of(self@) is None,
            },
    {
        proof {
            use_type_invariant(self);
        }
        let c = &self.suit_counts;
        assert(c@[0] == count_suit(self@, Suit::Clubs));
        assert(c@[1] == count_suit(self@, Suit::Diamonds));
        assert(c@[2] == count_suit(self@, Suit::Hearts));
        assert(c@[3] == count_suit(self@, Suit::Spades));
        let (a, na) = if c[1] > c[0] {
            (Suit::Diamonds, c[1])
        } else {
            (Suit::Clubs, c[0])
        };
        let (b, nb) = if c[2] > na {
            (Suit::Hearts, c[2])
        } else {
            (a, na)
        };
        let (suit, n) = if c[3] > nb {
            (Suit::Spades, c[3])
        } else {
            (b, nb)
        };
        assert(suit == largest_suit(self@));
        if n < 5 {
            return None;
        }
        let mut cards: Vec<Card> = Vec::new();
        let mut j: usize = 0;
        while j < self.cards.len()
            invariant
                j <= self.cards@.len(),
                cards@ == of_suit(self.cards@.take(j as int), suit),
            decreases self.cards.len() - j,
        {
            assert(self.cards@.take(j + 1).drop_last() =~= self.cards@.take(j as int));
            if self.cards[j].suit == suit {
                cards.push(self.cards[j]);
            }
            j = j + 1;
        }
        assert(self.cards@.take(self.cards@.len() as int) =~= self.cards@);
        Some((suit, cards))
    }

    /// The top value of the highest straight among the flush's cards.
    pub fn straight_flush(&self) -> (r: Option<Value>)
        ensures
            r == straight_flush_of(self@),
    {
        match self.flush() {
            Some((_, cards)) => {
                let counts = rank_counts(&cards);
                get_straight(&counts, Ghost(cards@))
            },
            None => None,
        }
    }

    /// The top value of the highest straight: five consecutive ranks, or
    /// Ace, Two, Three, Four and Five, whose top is Five.
    pub fn straight(&self) -> (r: Option<Value>)
        ensures
            r == straight_of(self@),
    {
        proof {
            use_type_invariant(self);
        }
        get_straight(&self.value_counts, Ghost(self@))
    }

    /// The best category of the hand; none for an empty hand.
    pub fn find_best_category(&self) -> (r: Option<Category>)
        ensures
            r == best_category(self@),
    {
        if let Some(v) = self.straight_flush() {
            Some(Category::StraightFlush(v))
        } else if let Some(v) = self.four_of_a_kind() {
            Some(Category::FourOfAKind(v))
        } else if let Some((t, p)) = self.full_house() {
            Some(Category::FullHouse(t, p))
        } else if self.flush().is_some() {
            Some(Category::Flush)
        } else if let Some(v) = self.straight() {
            Some(Category::Straight(v))
        } else if let Some(v) = self.three_of_a_kind() {
            Some(Category::ThreeOfAKind(v))
        } else if let Some((h, l)) = self.two_pair() {
            Some(Category::TwoPair(h, l))
        } else if let Some(v) = self.one_pair() {
            Some(Category::OnePair(v))
        } else if let Some(v) = self.highest_value() {
            Some(Category::HighCard(v))
        } else {
            None
        }
    }

    /// The cards of the hand, in ascending rank order.
    pub fn cards(&self) -> (r: &Vec<Card>)
        ensures
            r@ == self@,
    {
        &self.cards
    }

    /// Compares two hands in the poker order (see `hand_cmp`).
    pub fn cmp(&self, other: &Hand) -> (r: core::cmp::Ordering)
        ensures
            r == hand_cmp(self@, other@),
    {
        if self.is_empty() {
            return if other.is_empty() {
                core::cmp::Ordering::Equal
            } else {
                core::cmp::Ordering::Less
            };
        }
        if other.is_empty() {
            return core::cmp::Ordering::Greater;
        }
        proof {
            lemma_best_category_exists(self@);
            lemma_best_category_exists(other@);
        }
        let best = self.find_best_category().unwrap();
        let other_best = other.find_best_category().unwrap();
        match best.compare(&other_best) {
            core::cmp::Ordering::Less => {
                return core::cmp::Ordering::Less;
            },
            core::cmp::Ordering::Greater => {
                return core::cmp::Ordering::Greater;
            },
            core::cmp::Ordering::Equal => {},
        }
        let a = &self.cards;
        let b = &other.cards;
        let mut i: usize = a.len();
        let mut j: usize = b.len();
        assert(a@.take(i as int) =~= a@);
        assert(b@.take(j as int) =~= b@);
        while i > 0 && j > 0
            invariant
                i <= a@.len(),
                j <= b@.len(),
                a@ == self@,
                b@ == other@,
                kicker_cmp(self@, other@) == kicker_cmp(a@.take(i as int), b@.take(j as int)),
                hand_cmp(self@, other@) == kicker_cmp(self@, other@),
            decreases i,
        {
            let ghost (ta, tb) = (a@.take(i as int), b@.take(j as int));
            assert(ta.drop_last() =~= a@.take(i - 1));
            assert(tb.drop_last() =~= b@.take(j - 1));
            let x = a[i - 1].value.rank();
            let y = b[j - 1].value.rank();
            if x != y {
                return cmp_u8(x, y);
            }
            i = i - 1;
            j = j - 1;
        }
        core::cmp::Ordering::Equal
    }

    /// The cards outside the rank groups that make up `category`, highest
    /// first; for a flush, the cards outside the flush suit.
    pub fn kickers(&self, category: &Category) -> (r: Vec<Card>)
        ensures
            r@ == kickers_of(self@, *category),
    {
        proof {
            use_type_invariant(self);
        }
        let suit = match self.flush() {
            Some((u, _)) => u,
            None => {
                let c = &self.suit_counts;
                assert(c@[0] == count_suit(self@, Suit::Clubs));
                assert(c@[1] == count_suit(self@, Suit::Diamonds));
                assert(c@[2] == count_suit(self@, Suit::Hearts));
                assert(c@[3] == count_suit(self@, Suit::Spades));
                let (a, na) = if c[1] > c[0] {
                    (Suit::Diamonds, c[1])
                } else {
                    (Suit::Clubs, c[0])
                };
                let (b, nb) = if c[2] > na {
                    (Suit::Hearts, c[2])
                } else {
                    (a, na)
                };
                if c[3] > nb {
                    Suit::Spades
                } else {
                    b
                }
            },
        };
        assert(suit == largest_suit(self@));
        let mut result: Vec<Card> = Vec::new();
        let mut j: usize = self.cards.len();
        assert(self.cards@.take(j as int) =~= self.cards@);
        assert(result@ + kickers_from(self@, *category, suit) =~= kickers_from(self@, *category, suit));
        while j > 0
            invariant
                j <= self.cards@.len(),
                kickers_of(self@, *category) == result@ + kickers_from(
                    self.cards@.take(j as int),
                    *category,
                    suit,
                ),
                suit == largest_suit(self@),
            decreases j,
        {
            let ghost t = self.cards@.take(j as int);
            assert(t.drop_last() =~= self.cards@.take(j - 1));
            let c = self.cards[j - 1];
            if !Hand::belongs(category, suit, &c) {
                assert(result@ + (seq![c] + kickers_from(t.drop_last(), *category, suit))
                    =~= result@.push(c) + kickers_from(t.drop_last(), *category, suit));
                result.push(c);
            }
            j = j - 1;
        }
        assert(self.cards@.take(0) =~= Seq::<Card>::empty());
        assert(result@ + Seq::<Card>::empty() =~= result@);
        result
    }

    fn belongs(cat: &Category, u: Suit, c: &Card) -> (r: bool)
        ensures
            r == defines(*cat, u, *c),
    {
        let r = c.value.rank();
        match cat {
            Category::HighCard(v) => r == v.rank(),
            Category::OnePair(v) => r == v.rank(),
            Category::TwoPair(a, b) => r == a.rank() || r == b.rank(),
            Category::ThreeOfAKind(v) => r == v.rank(),
            Category::Straight(h) => Hand::in_run(h.rank(), r),
            Category::Flush => c.suit == u,
            Category::FullHouse(a, b) => r == a.rank() || r == b.rank(),
            Category::FourOfAKind(v) => r == v.rank(),
            Category::StraightFlush(h) => Hand::in_run(h.rank(), r),
        }
    }

    fn in_run(h: u8, r: u8) -> (b: bool)
        ensures
            b == in_run(h as int, r as int),
    {
        (h as u16 <= r as u16 + 4 && r <= h) || (h == 5 && r == 14)
    }

    /// Whether the hand holds no cards.
    pub fn is_empty(&self) -> (r: bool)
        ensures
            r == (self@.len() == 0),
    {
        self.cards.len() == 0
    }
}

impl PartialEq for Hand {
    fn eq(&self, other: &Hand) -> (r: bool)
        ensures
            r == (self@ == other@),
    {
        let a = &self.cards;
        let b = &other.cards;
        if a.len() != b.len() {
            return false;
        }
        let mut i: usize = 0;
        while i < a.len()
            invariant
                a@ == self@,
                b@ == other@,
                a@.len() == b@.len(),
                i <= a@.len(),
                forall|k: int| 0 <= k < i ==> a@[k] == b@[k],
            decreases a.len() - i,
        {
            if a[i] != b[i] {
                return false;
            }
            i = i + 1;
        }
        assert(a@ =~= b@);
        true
    }
}

impl vstd::std_specs::cmp::PartialEqSpecImpl for Hand {
    open spec fn obeys_eq_spec() -> bool {
        true
    }

    open spec fn eq_spec(&self, other: &Hand) -> bool {
        self@ == other@
    }
}

impl PartialOrd for Hand {
    fn partial_cmp(&self, other: &Hand) -> (r: Option<core::cmp::Ordering>)
        ensures
            r == Some(hand_cmp(self@, other@)),
    {
        Some(self.cmp(other))
    }
}

impl vstd::std_specs::cmp::PartialOrdSpecImpl for Hand {
    open spec fn obeys_partial_cmp_spec() -> bool {
        true
    }

    open spec fn partial_cmp_spec(&self, other: &Hand) -> Option<core::cmp::Ordering> {
        Some(hand_cmp(self@, other@))
    }
}

impl core::str::FromStr for Hand {
    type Err = ParseError;

    fn from_str(s: &str) -> Result<Hand, ParseError> {
        match Card::try_vec_from(s) {
            Ok(cards) => Ok(Hand::new(cards)),
            Err(e) => Err(e),
        }
    }
}

} // verus!
