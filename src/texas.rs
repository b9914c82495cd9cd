//! Tallies of labels, and the Monte Carlo simulation of one-opponent play.

use vstd::prelude::*;

use crate::card::{collect_chars, full_deck, suit_at, value_at, Card};
use crate::hand::{best_category, hand_cmp, lemma_sort_nonempty, sort_by_rank, Category, Hand};
use crate::random::{lemma_shuffle_len, shuffle_passes, Random};
use vstd::set_lib::lemma_len_subset;

verus! {

/// Whether the text `a` comes before `b` in lexicographic order of code
/// points.
pub open spec fn text_less(a: Seq<char>, b: Seq<char>) -> bool
    decreases a.len(),
{
    if a.len() == 0 {
        b.len() > 0
    } else if b.len() == 0 {
        false
    } else if a[0] != b[0] {
        a[0] < b[0]
    } else {
        text_less(a.drop_first(), b.drop_first())
    }
}

proof fn lemma_text_trichotomy(a: Seq<char>, b: Seq<char>)
    ensures
        a == b || text_less(a, b) || text_less(b, a),
        !(text_less(a, b) && text_less(b, a)),
        !text_less(a, a),
    decreases a.len(),
{
    if a.len() > 0 && b.len() > 0 {
        lemma_text_trichotomy(a.drop_first(), b.drop_first());
        if a[0] == b[0] && a.drop_first() == b.drop_first() {
            assert(a =~= seq![a[0]] + a.drop_first());
            assert(b =~= seq![b[0]] + b.drop_first());
        }
    } else if a.len() == 0 && b.len() == 0 {
        assert(a =~= b);
    }
    if a.len() > 0 {
        lemma_text_trichotomy(a.drop_first(), a.drop_first());
    }
}

proof fn lemma_text_transitive(a: Seq<char>, b: Seq<char>, c: Seq<char>)
    requires
        text_less(a, b),
        text_less(b, c),
    ensures
        text_less(a, c),
    decreases a.len(),
{
    if a.len() > 0 && b.len() > 0 && c.len() > 0 {
        if a[0] == b[0] && b[0] == c[0] {
            lemma_text_transitive(a.drop_first(), b.drop_first(), c.drop_first());
        }
    }
}

/// Compares two texts in lexicographic order of code points.
fn text_cmp(a: &Vec<char>, b: &Vec<char>) -> (r: core::cmp::Ordering)
    ensures
        r == core::cmp::Ordering::Less <==> text_less(a@, b@),
        r == core::cmp::Ordering::Greater <==> text_less(b@, a@),
        r == core::cmp::Ordering::Equal <==> a@ == b@,
{
    proof {
        lemma_text_trichotomy(a@, b@);
    }
    let mut i: usize = 0;
    assert(a@.skip(0) =~= a@ && b@.skip(0) =~= b@);
    assert(a@.take(0) =~= b@.take(0));
    while i < a.len() && i < b.len()
        invariant
            i <= a@.len(),
            i <= b@.len(),
            a@.take(i as int) == b@.take(i as int),
            text_less(a@, b@) == text_less(a@.skip(i as int), b@.skip(i as int)),
            text_less(b@, a@) == text_less(b@.skip(i as int), a@.skip(i as int)),
        decreases a.len() - i,
    {
        let ghost (sa, sb) = (a@.skip(i as int), b@.skip(i as int));
        assert(sa[0] == a@[i as int] && sb[0] == b@[i as int]);
        if a[i] != b[i] {
            if a[i] < b[i] {
                return core::cmp::Ordering::Less;
            } else {
                return core::cmp::Ordering::Greater;
            }
        }
        assert(sa.drop_first() =~= a@.skip(i + 1));
        assert(sb.drop_first() =~= b@.skip(i + 1));
        assert(a@.take(i + 1) =~= a@.take(i as int).push(a@[i as int]));
        assert(b@.take(i + 1) =~= b@.take(i as int).push(b@[i as int]));
        i = i + 1;
    }
    if a.len() < b.len() {
        assert(a@.skip(i as int).len() == 0);
        core::cmp::Ordering::Less
    } else if b.len() < a.len() {
        assert(b@.skip(i as int).len() == 0);
        core::cmp::Ordering::Greater
    } else {
        assert(a@ =~= a@.take(i as int));
        assert(b@ =~= b@.take(i as int));
        core::cmp::Ordering::Equal
    }
}

/// The labels of a table, with their counts.
pub open spec fn table_of(entries: Seq<(&'static str, usize)>) -> Seq<(Seq<char>, nat)> {
    entries.map_values(|e: (&'static str, usize)| (e.0@, e.1 as nat))
}

/// Whether the labels of `t` strictly ascend and every count is positive.
pub open spec fn well_ordered(t: Seq<(Seq<char>, nat)>) -> bool {
    &&& forall|i: int, j: int| 0 <= i < j < t.len() ==> text_less(#[trigger] t[i].0, #[trigger] t[j].0)
    &&& forall|i: int| 0 <= i < t.len() ==> #[trigger] t[i].1 > 0
}

/// How many times `key` was counted in the table `t`: the count beside it,
/// or zero where it is absent.
pub open spec fn count_of(t: Seq<(Seq<char>, nat)>, key: Seq<char>) -> nat {
    if exists|i: int| 0 <= i < t.len() && t[i].0 == key {
        t[choose|i: int| 0 <= i < t.len() && t[i].0 == key].1
    } else {
        0
    }
}

proof fn lemma_count_at(t: Seq<(Seq<char>, nat)>, i: int)
    requires
        well_ordered(t),
        0 <= i < t.len(),
    ensures
        count_of(t, t[i].0) == t[i].1,
{
    let k = choose|j: int| 0 <= j < t.len() && t[j].0 == t[i].0;
    if k != i {
        if k < i {
            assert(text_less(t[k].0, t[i].0));
        } else {
            assert(text_less(t[i].0, t[k].0));
        }
        lemma_text_trichotomy(t[i].0, t[i].0);
    }
}

/// Tables in label order with the same counts are the same table.
pub proof fn lemma_table_determined(a: Seq<(Seq<char>, nat)>, b: Seq<(Seq<char>, nat)>)
    requires
        well_ordered(a),
        well_ordered(b),
        forall|k: Seq<char>| count_of(a, k) == count_of(b, k),
    ensures
        a == b,
    decreases a.len() + b.len(),
{
    if a.len() == 0 || b.len() == 0 {
        if a.len() > 0 {
            lemma_count_at(a, 0);
            assert(count_of(b, a[0].0) == 0);
        }
        if b.len() > 0 {
            lemma_count_at(b, 0);
            assert(count_of(a, b[0].0) == 0);
        }
        assert(a =~= b);
    } else {
        // The first labels agree: each is the least label counted in both.
        lemma_count_at(a, 0);
        lemma_count_at(b, 0);
        let (x, y) = (a[0].0, b[0].0);
        assert(count_of(b, x) > 0);
        let j = choose|j: int| 0 <= j < b.len() && b[j].0 == x;
        assert(count_of(a, y) > 0);
        let i = choose|i: int| 0 <= i < a.len() && a[i].0 == y;
        if x != y {
            assert(j > 0 && i > 0);
            assert(text_less(y, x));
            assert(text_less(x, y));
            lemma_text_trichotomy(x, y);
        }
        let (ra, rb) = (a.drop_first(), b.drop_first());
        assert forall|k: Seq<char>| count_of(ra, k) == count_of(rb, k) by {
            lemma_count_rest(a, k);
            lemma_count_rest(b, k);
        }
        lemma_table_determined(ra, rb);
        assert(a =~= seq![a[0]] + ra);
        assert(b =~= seq![b[0]] + rb);
    }
}

proof fn lemma_count_rest(t: Seq<(Seq<char>, nat)>, k: Seq<char>)
    requires
        well_ordered(t),
        t.len() > 0,
    ensures
        well_ordered(t.drop_first()),
        count_of(t.drop_first(), k) == if k == t[0].0 {
            0
        } else {
            count_of(t, k)
        },
{
    let r = t.drop_first();
    assert forall|i: int, j: int| 0 <= i < j < r.len() implies text_less(#[trigger] r[i].0, #[trigger] r[j].0) by {
        assert(r[i] == t[i + 1] && r[j] == t[j + 1]);
    }
    assert forall|i: int| 0 <= i < r.len() implies #[trigger] r[i].1 > 0 by {
        assert(r[i] == t[i + 1]);
    }
    if k == t[0].0 {
        if exists|i: int| 0 <= i < r.len() && r[i].0 == k {
            let i = choose|i: int| 0 <= i < r.len() && r[i].0 == k;
            assert(t[i + 1] == r[i]);
            assert(text_less(t[0].0, t[i + 1].0));
            lemma_text_trichotomy(k, k);
        }
    } else {
        if exists|i: int| 0 <= i < t.len() && t[i].0 == k {
            let i = choose|i: int| 0 <= i < t.len() && t[i].0 == k;
            lemma_count_at(t, i);
            assert(r[i - 1] == t[i]);
            lemma_count_at(r, i - 1);
        } else {
            assert forall|i: int| 0 <= i < r.len() implies r[i].0 != k by {
                assert(r[i] == t[i + 1]);
            }
        }
    }
}

proof fn lemma_count_absent(t: Seq<(Seq<char>, nat)>, key: Seq<char>)
    requires
        forall|i: int| 0 <= i < t.len() ==> #[trigger] t[i].0 != key,
    ensures
        count_of(t, key) == 0,
{
}

/// Counts of labels, kept in ascending label order.
pub struct Counters {
    entries: Vec<(&'static str, usize)>,
}

impl View for Counters {
    type V = Seq<(Seq<char>, nat)>;

    /// The labels and their counts, in ascending label order.
    closed spec fn view(&self) -> Seq<(Seq<char>, nat)> {
        table_of(self.entries@)
    }
}

impl Counters {
    /// No label counted yet.
    pub fn new() -> (r: Counters)
        ensures
            r@ == Seq::<(Seq<char>, nat)>::empty(),
    {
        let r = Counters { entries: Vec::new() };
        assert(table_of(r.entries@) =~= Seq::<(Seq<char>, nat)>::empty());
        r
    }

    /// Counts `key` once more.
    pub fn increment(&mut self, key: &'static str)
        requires
            well_ordered(old(self)@),
            count_of(old(self)@, key@) < usize::MAX,
        ensures
            well_ordered(final(self)@),
            count_of(final(self)@, key@) == count_of(old(self)@, key@) + 1,
            forall|k: Seq<char>| k != key@ ==> count_of(final(self)@, k) == count_of(old(self)@, k),
    {
        let ghost t = self@;
        let key_chars = collect_chars(key);
        let mut p: usize = 0;
        let mut found = false;
        while p < self.entries.len()
            invariant_except_break
                t == table_of(self.entries@),
                !found,
            invariant
                t == table_of(self.entries@),
                well_ordered(t),
                key_chars@ == key@,
                p <= self.entries@.len(),
                forall|i: int| 0 <= i < p ==> text_less(#[trigger] t[i].0, key@),
            ensures
                found ==> p < t.len() && t[p as int].0 == key@,
                !found ==> p == t.len() || text_less(key@, t[p as int].0),
            decreases self.entries.len() - p,
        {
            let label = collect_chars(self.entries[p].0);
            match text_cmp(&label, &key_chars) {
                core::cmp::Ordering::Less => {
                    p = p + 1;
                },
                core::cmp::Ordering::Equal => {
                    found = true;
                    break;
                },
                core::cmp::Ordering::Greater => {
                    break;
                },
            }
        }
        if found {
            let c = self.entries[p].1;
            proof {
                lemma_count_at(t, p as int);
            }
            self.entries.set(p, (key, c + 1));
            proof {
                let u = table_of(self.entries@);
                assert(u =~= t.update(p as int, (key@, (c + 1) as nat)));
                assert(well_ordered(u)) by {
                    assert forall|i: int, j: int| 0 <= i < j < u.len() implies text_less(
                        #[trigger] u[i].0,
                        #[trigger] u[j].0,
                    ) by {
                        assert(u[i].0 == t[i].0 && u[j].0 == t[j].0);
                    }
                }
                lemma_count_at(u, p as int);
                assert forall|k: Seq<char>| k != key@ implies count_of(u, k) == count_of(t, k) by {
                    if exists|i: int| 0 <= i < t.len() && t[i].0 == k {
                        let i = choose|i: int| 0 <= i < t.len() && t[i].0 == k;
                        lemma_count_at(t, i);
                        lemma_count_at(u, i);
                    } else {
                        assert forall|i: int| 0 <= i < u.len() implies #[trigger] u[i].0 != k by {
                            assert(u[i].0 == t[i].0);
                        }
                        lemma_count_absent(u, k);
                    }
                }
            }
        } else {
            proof {
                assert forall|i: int| 0 <= i < t.len() implies #[trigger] t[i].0 != key@ by {
                    if i < p {
                        lemma_text_trichotomy(key@, key@);
                    } else {
                        if i > p {
                            lemma_text_transitive(key@, t[p as int].0, t[i].0);
                        }
                        lemma_text_trichotomy(key@, key@);
                    }
                }
                lemma_count_absent(t, key@);
            }
            self.entries.insert(p, (key, 1));
            proof {
                let u = table_of(self.entries@);
                assert(u =~= t.insert(p as int, (key@, 1nat)));
                assert(well_ordered(u)) by {
                    assert forall|i: int, j: int| 0 <= i < j < u.len() implies text_less(
                        #[trigger] u[i].0,
                        #[trigger] u[j].0,
                    ) by {
                        if j < p {
                            assert(u[i] == t[i] && u[j] == t[j]);
                        } else if j == p {
                            assert(u[i] == t[i]);
                        } else if i < p {
                            assert(u[i] == t[i] && u[j] == t[j - 1]);
                        } else if i == p {
                            assert(u[j] == t[j - 1]);
                            if j - 1 > p {
                                lemma_text_transitive(key@, t[p as int].0, t[j - 1].0);
                            }
                        } else {
                            assert(u[i] == t[i - 1] && u[j] == t[j - 1]);
                        }
                    }
                    assert forall|i: int| 0 <= i < u.len() implies #[trigger] u[i].1 > 0 by {
                        if i < p {
                            assert(u[i] == t[i]);
                        } else if i > p {
                            assert(u[i] == t[i - 1]);
                        }
                    }
                }
                lemma_count_at(u, p as int);
                assert forall|k: Seq<char>| k != key@ implies count_of(u, k) == count_of(t, k) by {
                    if exists|i: int| 0 <= i < t.len() && t[i].0 == k {
                        let i = choose|i: int| 0 <= i < t.len() && t[i].0 == k;
                        lemma_count_at(t, i);
                        if i < p {
                            assert(u[i] == t[i]);
                            lemma_count_at(u, i);
                        } else {
                            assert(u[i + 1] == t[i]);
                            lemma_count_at(u, i + 1);
                        }
                    } else {
                        assert forall|i: int| 0 <= i < u.len() implies #[trigger] u[i].0 != k by {
                            if i < p {
                                assert(u[i] == t[i]);
                            } else if i > p {
                                assert(u[i] == t[i - 1]);
                            }
                        }
                        lemma_count_absent(u, k);
                    }
                }
            }
        }
    }

    /// The labels and their counts, in ascending label order.
    pub fn entries(&self) -> (r: Vec<(&'static str, usize)>)
        ensures
            table_of(r@) == self@,
    {
        let mut r: Vec<(&'static str, usize)> = Vec::new();
        let mut i: usize = 0;
        while i < self.entries.len()
            invariant
                i <= self.entries@.len(),
                r@ == self.entries@.take(i as int),
            decreases self.entries.len() - i,
        {
            r.push(self.entries[i]);
            assert(self.entries@.take(i + 1) =~= self.entries@.take(i as int).push(self.entries@[i as int]));
            i = i + 1;
        }
        assert(self.entries@.take(i as int) =~= self.entries@);
        r
    }
}

/// The label under which a category is counted, such as "Full house".
pub open spec fn category_label(c: Category) -> Seq<char> {
    match c {
        Category::HighCard(_) => "High card"@,
        Category::OnePair(_) => "One pair"@,
        Category::TwoPair(_, _) => "Two pair"@,
        Category::ThreeOfAKind(_) => "Three of a kind"@,
        Category::Straight(_) => "Straight"@,
        Category::Flush => "Flush"@,
        Category::FullHouse(_, _) => "Full house"@,
        Category::FourOfAKind(_) => "Four of a kind"@,
        Category::StraightFlush(_) => "Straight flush"@,
    }
}

/// The label of a comparison of one's hand with the opponent's.
pub open spec fn outcome_label(o: core::cmp::Ordering) -> Seq<char> {
    match o {
        core::cmp::Ordering::Greater => "Win"@,
        core::cmp::Ordering::Less => "Loss"@,
        core::cmp::Ordering::Equal => "Tie"@,
    }
}

/// The label under which a category is counted.
pub fn category_to_str(cat: &Category) -> (r: &'static str)
    ensures
        r@ == category_label(*cat),
{
    match cat {
        Category::HighCard(_) => "High card",
        Category::OnePair(_) => "One pair",
        Category::TwoPair(_, _) => "Two pair",
        Category::ThreeOfAKind(_) => "Three of a kind",
        Category::Straight(_) => "Straight",
        Category::Flush => "Flush",
        Category::FullHouse(_, _) => "Full house",
        Category::FourOfAKind(_) => "Four of a kind",
        Category::StraightFlush(_) => "Straight flush",
    }
}

/// The label of a comparison of one's hand with the opponent's: a win, a
/// loss or a tie.
pub fn outcome_to_str(o: core::cmp::Ordering) -> (r: &'static str)
    ensures
        r@ == outcome_label(o),
{
    match o {
        core::cmp::Ordering::Greater => "Win",
        core::cmp::Ordering::Less => "Loss",
        core::cmp::Ordering::Equal => "Tie",
    }
}

/// The cards of `deck` that `known` does not hold, in their order.
pub open spec fn without(deck: Seq<Card>, known: Seq<Card>) -> Seq<Card>
    decreases deck.len(),
{
    if deck.len() == 0 {
        seq![]
    } else if known.contains(deck.last()) {
        without(deck.drop_last(), known)
    } else {
        without(deck.drop_last(), known).push(deck.last())
    }
}

/// The cards of `deck` that `known` holds, in their order.
pub open spec fn held(deck: Seq<Card>, known: Seq<Card>) -> Seq<Card>
    decreases deck.len(),
{
    if deck.len() == 0 {
        seq![]
    } else if known.contains(deck.last()) {
        held(deck.drop_last(), known).push(deck.last())
    } else {
        held(deck.drop_last(), known)
    }
}

proof fn lemma_held_parts(deck: Seq<Card>, known: Seq<Card>)
    ensures
        without(deck, known).len() + held(deck, known).len() == deck.len(),
        forall|i: int| 0 <= i < held(deck, known).len() ==> known.contains(#[trigger] held(deck, known)[i]),
        forall|i: int|
            0 <= i < held(deck, known).len() ==> deck.contains(#[trigger] held(deck, known)[i]),
        deck.no_duplicates() ==> held(deck, known).no_duplicates(),
    decreases deck.len(),
{
    if deck.len() > 0 {
        let d = deck.drop_last();
        lemma_held_parts(d, known);
        let h = held(deck, known);
        assert forall|i: int| 0 <= i < h.len() implies deck.contains(#[trigger] h[i]) by {
            if i < held(d, known).len() {
                let j = choose|j: int| 0 <= j < d.len() && d[j] == held(d, known)[i];
                assert(deck[j] == d[j]);
            } else {
                assert(deck[deck.len() - 1] == h[i]);
            }
        }
        if deck.no_duplicates() && known.contains(deck.last()) {
            assert forall|i: int, j: int| 0 <= i < j < h.len() implies h[i] != h[j] by {
                if j == h.len() - 1 && i < j {
                    let k = choose|k: int| 0 <= k < d.len() && d[k] == held(d, known)[i];
                    assert(deck[k] == d[k]);
                    assert(deck[deck.len() - 1] == h[j]);
                }
            }
        }
    }
}

/// A deck of distinct cards keeps all but at most `known.len()` of them.
proof fn lemma_without_len(deck: Seq<Card>, known: Seq<Card>)
    requires
        deck.no_duplicates(),
    ensures
        without(deck, known).len() + known.len() >= deck.len(),
{
    lemma_held_parts(deck, known);
    let h = held(deck, known);
    h.unique_seq_to_set();
    known.lemma_cardinality_of_set();
    assert(h.to_set().subset_of(known.to_set()));
    lemma_len_subset(h.to_set(), known.to_set());
}

/// The cards of a fresh deck are distinct.
pub proof fn lemma_full_deck_distinct()
    ensures
        full_deck().no_duplicates(),
{
    let d = full_deck();
    assert forall|i: int, j: int| 0 <= i < d.len() && 0 <= j < d.len() && i != j implies d[i] != d[j] by {
        if d[i] == d[j] {
            lemma_value_at_injective(i % 13, j % 13);
            lemma_suit_at_injective(i / 13, j / 13);
        }
    }
}

proof fn lemma_value_at_injective(a: int, b: int)
    requires
        0 <= a < 13,
        0 <= b < 13,
        value_at(a) == value_at(b),
    ensures
        a == b,
{
}

proof fn lemma_suit_at_injective(a: int, b: int)
    requires
        0 <= a < 4,
        0 <= b < 4,
        suit_at(a) == suit_at(b),
    ensures
        a == b,
{
}

fn holds(cards: &Vec<Card>, c: Card) -> (r: bool)
    ensures
        r == cards@.contains(c),
{
    let mut i: usize = 0;
    while i < cards.len()
        invariant
            i <= cards@.len(),
            forall|k: int| 0 <= k < i ==> cards@[k] != c,
        decreases cards.len() - i,
    {
        if cards[i] == c {
            return true;
        }
        i = i + 1;
    }
    false
}

/// The cards of `deck` that `cards` does not hold, in their order.
pub fn remove_from_deck(deck: Vec<Card>, cards: &Vec<Card>) -> (r: Vec<Card>)
    ensures
        r@ == without(deck@, cards@),
{
    let mut result: Vec<Card> = Vec::new();
    let mut i: usize = 0;
    while i < deck.len()
        invariant
            i <= deck@.len(),
            result@ == without(deck@.take(i as int), cards@),
        decreases deck.len() - i,
    {
        assert(deck@.take(i + 1).drop_last() =~= deck@.take(i as int));
        if !holds(cards, deck[i]) {
            result.push(deck[i]);
        }
        i = i + 1;
    }
    assert(deck@.take(i as int) =~= deck@);
    result
}

/// How many community cards a deal completes to.
pub const NUM_COMMUNITY_CARDS: usize = 5;

/// How many hole cards each player holds.
pub const NUM_HOLE_CARDS: usize = 2;

/// How many cards the opponent's draw takes off the deck: the first two are
/// the opponent's hole cards.
pub const NUM_OPPONENT_DRAW: usize = 5;

/// The deck of a simulation: a fresh deck without the known community and
/// hole cards.
pub open spec fn residual_deck(hole: Seq<Card>, community: Seq<Card>) -> Seq<Card> {
    without(full_deck(), community + hole)
}

/// The opponent's hole cards, drawn from the end of the shuffled deck `d`.
pub open spec fn opponent_hole(d: Seq<Card>) -> Seq<Card> {
    seq![d[d.len() - 1], d[d.len() - 2]]
}

/// The known community cards completed to five from the end of the shuffled
/// deck `d`, after the opponent's draw.
pub open spec fn dealt_community(d: Seq<Card>, community: Seq<Card>) -> Seq<Card> {
    community + Seq::new(
        (NUM_COMMUNITY_CARDS - community.len()) as nat,
        |t: int| d[d.len() - 1 - NUM_OPPONENT_DRAW - t],
    )
}

/// The labels of one deal from the shuffled deck `d`: one's own best
/// category, the opponent's, and the outcome.
pub open spec fn deal_labels(d: Seq<Card>, hole: Seq<Card>, community: Seq<Card>) -> (
    Seq<char>,
    Seq<char>,
    Seq<char>,
) {
    let board = dealt_community(d, community);
    let own = sort_by_rank(board + hole);
    let theirs = sort_by_rank(board + opponent_hole(d));
    (
        category_label(best_category(own)->Some_0),
        category_label(best_category(theirs)->Some_0),
        outcome_label(hand_cmp(own, theirs)),
    )
}

/// The generator's state after `j` rounds, each of which shuffles `deck`.
pub open spec fn seed_after(seed: int, deck: Seq<Card>, j: nat) -> int
    decreases j,
{
    if j == 0 {
        seed
    } else {
        shuffle_passes(seed_after(seed, deck, (j - 1) as nat), deck, 2 * deck.len()).0
    }
}

/// The labels of round `j` of a simulation from the state `seed`.
pub open spec fn round_labels(seed: int, hole: Seq<Card>, community: Seq<Card>, j: nat) -> (
    Seq<char>,
    Seq<char>,
    Seq<char>,
) {
    let deck = residual_deck(hole, community);
    deal_labels(
        shuffle_passes(seed_after(seed, deck, j), deck, 2 * deck.len()).1,
        hole,
        community,
    )
}

/// One of the three labels: 0 picks one's own category, 1 the opponent's,
/// and 2 the outcome.
pub open spec fn pick(labels: (Seq<char>, Seq<char>, Seq<char>), which: int) -> Seq<char> {
    if which == 0 {
        labels.0
    } else if which == 1 {
        labels.1
    } else {
        labels.2
    }
}

/// In how many of the first `j` rounds the label `which` is `key`.
pub open spec fn tally(
    seed: int,
    hole: Seq<Card>,
    community: Seq<Card>,
    j: nat,
    which: int,
    key: Seq<char>,
) -> nat
    decreases j,
{
    if j == 0 {
        0
    } else {
        tally(seed, hole, community, (j - 1) as nat, which, key) + if pick(
            round_labels(seed, hole, community, (j - 1) as nat),
            which,
        ) == key {
            1nat
        } else {
            0nat
        }
    }
}

proof fn lemma_tally_le(
    seed: int,
    hole: Seq<Card>,
    community: Seq<Card>,
    j: nat,
    which: int,
    key: Seq<char>,
)
    ensures
        tally(seed, hole, community, j, which, key) <= j,
    decreases j,
{
    if j > 0 {
        lemma_tally_le(seed, hole, community, (j - 1) as nat, which, key);
    }
}

/// Whether `t` is the table of label `which` after `j` rounds.
pub open spec fn tallied(
    t: Seq<(Seq<char>, nat)>,
    seed: int,
    hole: Seq<Card>,
    community: Seq<Card>,
    j: nat,
    which: int,
) -> bool {
    &&& well_ordered(t)
    &&& forall|k: Seq<char>| #[trigger] count_of(t, k) == tally(seed, hole, community, j, which, k)
}

/// Determinism: two simulations from the same state, with the same cards and
/// the same number of rounds, give the same tables.
pub proof fn lemma_simulation_deterministic(
    a: Seq<(Seq<char>, nat)>,
    b: Seq<(Seq<char>, nat)>,
    seed: int,
    hole: Seq<Card>,
    community: Seq<Card>,
    j: nat,
    which: int,
)
    requires
        tallied(a, seed, hole, community, j, which),
        tallied(b, seed, hole, community, j, which),
    ensures
        a == b,
{
    assert forall|k: Seq<char>| count_of(a, k) == count_of(b, k) by {
        assert(count_of(a, k) == tally(seed, hole, community, j, which, k));
        assert(count_of(b, k) == tally(seed, hole, community, j, which, k));
    }
    lemma_table_determined(a, b);
}

/// The tables of a simulation: one's own best categories, the opponent's,
/// and the outcomes.
pub struct Simulation {
    pub hands: Counters,
    pub opponent_hands: Counters,
    pub outcomes: Counters,
}

fn copy_cards(cards: &Vec<Card>) -> (r: Vec<Card>)
    ensures
        r@ == cards@,
{
    let mut r: Vec<Card> = Vec::new();
    let mut i: usize = 0;
    while i < cards.len()
        invariant
            i <= cards@.len(),
            r@ == cards@.take(i as int),
        decreases cards.len() - i,
    {
        r.push(cards[i]);
        assert(cards@.take(i + 1) =~= cards@.take(i as int).push(cards@[i as int]));
        i = i + 1;
    }
    assert(cards@.take(i as int) =~= cards@);
    r
}

fn concat_cards(a: &Vec<Card>, b: &Vec<Card>) -> (r: Vec<Card>)
    ensures
        r@ == a@ + b@,
{
    let mut r = copy_cards(a);
    let mut i: usize = 0;
    while i < b.len()
        invariant
            i <= b@.len(),
            r@ == a@ + b@.take(i as int),
        decreases b.len() - i,
    {
        r.push(b[i]);
        assert(a@ + b@.take(i + 1) =~= (a@ + b@.take(i as int)).push(b@[i as int]));
        i = i + 1;
    }
    assert(b@.take(i as int) =~= b@);
    r
}

/// Simulates `num_iterations` rounds of one-opponent play. Each round
/// shuffles the deck without the known cards, draws five cards for the
/// opponent (the first two are the opponent's hole cards), completes the
/// community cards to five, and counts both players' best categories and the
/// outcome.
pub fn simulate(
    hole_cards: &Vec<Card>,
    community_cards: &Vec<Card>,
    num_iterations: usize,
    random: &mut Random,
) -> (r: Simulation)
    requires
        hole_cards@.len() == NUM_HOLE_CARDS,
        community_cards@.len() <= NUM_COMMUNITY_CARDS,
    ensures
        tallied(r.hands@, old(random).seed as int, hole_cards@, community_cards@, num_iterations as nat, 0),
        tallied(r.opponent_hands@, old(random).seed as int, hole_cards@, community_cards@, num_iterations as nat, 1),
        tallied(r.outcomes@, old(random).seed as int, hole_cards@, community_cards@, num_iterations as nat, 2),
        final(random).seed == seed_after(
            old(random).seed as int,
            residual_deck(hole_cards@, community_cards@),
            num_iterations as nat,
        ),
{
    let ghost seed0 = random.seed as int;
    let ghost hole = hole_cards@;
    let ghost community = community_cards@;
    let known = concat_cards(community_cards, hole_cards);
    let orig_deck = remove_from_deck(Card::new_deck(), &known);
    proof {
        lemma_full_deck_distinct();
        lemma_without_len(full_deck(), known@);
    }
    let ghost deck0 = orig_deck@;
    let mut hands = Counters::new();
    let mut opponent_hands = Counters::new();
    let mut outcomes = Counters::new();
    let num_to_draw = NUM_COMMUNITY_CARDS - community_cards.len();
    let mut i: usize = 0;
    while i < num_iterations
        invariant
            i <= num_iterations,
            hole == hole_cards@,
            community == community_cards@,
            hole.len() == 2,
            community.len() <= 5,
            num_to_draw == 5 - community.len(),
            deck0 == orig_deck@,
            deck0 == residual_deck(hole, community),
            deck0.len() >= 45,
            random.seed == seed_after(seed0, deck0, i as nat),
            tallied(hands@, seed0, hole, community, i as nat, 0),
            tallied(opponent_hands@, seed0, hole, community, i as nat, 1),
            tallied(outcomes@, seed0, hole, community, i as nat, 2),
        decreases num_iterations - i,
    {
        let mut deck = copy_cards(&orig_deck);
        random.shuffle(&mut deck);
        let ghost d = deck@;
        proof {
            lemma_shuffle_len(seed_after(seed0, deck0, i as nat), deck0, 2 * deck0.len());
        }
        let opponent_first = deck.pop().unwrap();
        let opponent_second = deck.pop().unwrap();
        let mut drawn: usize = 2;
        while drawn < NUM_OPPONENT_DRAW
            invariant
                2 <= drawn <= 5,
                d.len() >= 45,
                deck@ == d.take(d.len() - drawn),
            decreases 5 - drawn,
        {
            deck.pop();
            drawn = drawn + 1;
        }
        let mut board = copy_cards(community_cards);
        let mut t: usize = 0;
        while t < num_to_draw
            invariant
                t <= num_to_draw,
                num_to_draw == 5 - community.len(),
                d.len() >= 45,
                deck@ == d.take(d.len() - 5 - t),
                board@ == community + Seq::new(t as nat, |u: int| d[d.len() - 6 - u]),
            decreases num_to_draw - t,
        {
            let c = deck.pop().unwrap();
            assert(board@.push(c) =~= community + Seq::new((t + 1) as nat, |u: int| d[d.len() - 6 - u]));
            board.push(c);
            t = t + 1;
        }
        assert(board@ =~= dealt_community(d, community));
        let own = Hand::new(concat_cards(&board, hole_cards));
        let opponent_cards = vec![opponent_first, opponent_second];
        assert(opponent_cards@ =~= opponent_hole(d));
        let theirs = Hand::new(concat_cards(&board, &opponent_cards));
        proof {
            lemma_sort_nonempty(board@ + hole);
            lemma_sort_nonempty(board@ + opponent_hole(d));
            crate::hand::lemma_best_category_exists(own@);
            crate::hand::lemma_best_category_exists(theirs@);
        }
        let own_category = own.find_best_category().unwrap();
        let their_category = theirs.find_best_category().unwrap();
        let outcome = own.cmp(&theirs);
        let ghost labels = round_labels(seed0, hole, community, i as nat);
        assert(labels == deal_labels(d, hole, community));
        let own_label = category_to_str(&own_category);
        let their_label = category_to_str(&their_category);
        let outcome_label = outcome_to_str(outcome);
        proof {
            lemma_tally_le(seed0, hole, community, i as nat, 0, own_label@);
            lemma_tally_le(seed0, hole, community, i as nat, 1, their_label@);
            lemma_tally_le(seed0, hole, community, i as nat, 2, outcome_label@);
        }
        hands.increment(own_label);
        opponent_hands.increment(their_label);
        outcomes.increment(outcome_label);
        i = i + 1;
    }
    Simulation { hands, opponent_hands, outcomes }
}

} // verus!
