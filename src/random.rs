//! A linear congruential generator and the shuffle built on it.

use vstd::prelude::*;
use vstd::arithmetic::div_mod::{lemma_add_mod_noop, lemma_mul_mod_noop_right};

verus! {

/// The generator's state is kept modulo 2^32.
pub const MODULUS: u64 = 4294967296;

pub const MULTIPLIER: u64 = 1664525;

pub const INCREMENT: u64 = 1013904223;

/// The state that follows `seed`.
pub open spec fn lcg_next(seed: int) -> int {
    (MULTIPLIER * seed + INCREMENT) % (MODULUS as int)
}

/// `s` with the elements at `i` and `j` exchanged.
pub open spec fn swap_at<T>(s: Seq<T>, i: int, j: int) -> Seq<T> {
    s.update(i, s[j]).update(j, s[i])
}

/// The state and the sequence after the first `k` passes of the shuffle of
/// `s` from the state `seed`. Pass `p` draws the next state `x` and
/// exchanges the elements at `p mod n` and `x mod n`, where `n` is the length
/// of `s`.
#[verifier::opaque]
pub open spec fn shuffle_passes<T>(seed: int, s: Seq<T>, k: nat) -> (int, Seq<T>)
    decreases k,
{
    if k == 0 {
        (seed, s)
    } else {
        let (prev, t) = shuffle_passes(seed, s, (k - 1) as nat);
        let x = lcg_next(prev);
        (x, swap_at(t, (k - 1) % (s.len() as int), x % (s.len() as int)))
    }
}

/// A linear congruential generator: each step maps the state `x` to
/// `(1664525 * x + 1013904223) mod 2^32`.
pub struct Random {
    pub seed: u64,
}

/// Relies on `<[T]>::swap`, which exchanges the elements at the two indices
/// (and panics where one is out of bounds).
#[verifier::external_body]
fn swap_items<T>(v: &mut Vec<T>, i: usize, j: usize)
    requires
        i < old(v)@.len(),
        j < old(v)@.len(),
    ensures
        final(v)@ == swap_at(old(v)@, i as int, j as int),
{
    v.swap(i, j)
}

impl Random {
    /// Advances the state and returns the new one.
    pub fn next(&mut self) -> (r: u64)
        ensures
            final(self).seed == lcg_next(old(self).seed as int),
            r == final(self).seed,
    {
        let s = self.seed;
        proof {
            let m = MODULUS as int;
            lemma_mul_mod_noop_right(MULTIPLIER as int, s as int, m);
            lemma_add_mod_noop(MULTIPLIER * (s % MODULUS), INCREMENT as int, m);
            lemma_add_mod_noop(MULTIPLIER * s, INCREMENT as int, m);
        }
        self.seed = (MULTIPLIER * (s % MODULUS) + INCREMENT) % MODULUS;
        self.seed
    }

    /// One pass of the shuffle: exchanges the element at `i` with the one at
    /// `next() mod n`.
    fn pass<T>(&mut self, v: &mut Vec<T>, i: usize)
        requires
            i < old(v)@.len(),
        ensures
            final(self).seed == lcg_next(old(self).seed as int),
            final(v)@ == swap_at(old(v)@, i as int, (final(self).seed as int) % (old(v)@.len() as int)),
    {
        let n = v.len();
        let x = self.next();
        let target = (x % (n as u64)) as usize;
        if i != target {
            swap_items(v, i, target);
        } else {
            assert(swap_at(v@, i as int, i as int) =~= v@);
        }
    }

    /// Shuffles `v` in `2n` passes, `n` being its length: pass `p` exchanges
    /// the element at `p mod n` with the one at `next() mod n`.
    pub fn shuffle<T>(&mut self, v: &mut Vec<T>)
        ensures
            (final(self).seed as int, final(v)@) == shuffle_passes(
                old(self).seed as int,
                old(v)@,
                (2 * old(v)@.len()) as nat,
            ),
    {
        let n = v.len();
        let ghost start = old(v)@;
        let ghost seed0 = old(self).seed as int;
        if n == 0 {
            proof {
                reveal_with_fuel(shuffle_passes, 1);
            }
            return;
        }
        proof {
            reveal_with_fuel(shuffle_passes, 1);
        }
        let mut round: usize = 0;
        let ghost mut k: int = 0;
        while round < 2
            invariant
                n == start.len(),
                n > 0,
                round <= 2,
                v@.len() == n,
                k == round * n,
                (self.seed as int, v@) == shuffle_passes(seed0, start, k as nat),
            decreases 2 - round,
        {
            let mut i: usize = 0;
            while i < n
                invariant
                    n == start.len(),
                    n > 0,
                    round < 2,
                    i <= n,
                    v@.len() == n,
                    k == round * n + i,
                    (self.seed as int, v@) == shuffle_passes(seed0, start, k as nat),
                decreases n - i,
            {
                proof {
                    lemma_pass_cursor(round as int, n as int, i as int);
                    lemma_shuffle_step(seed0, start, k as nat, i as int);
                }
                self.pass(v, i);
                i = i + 1;
                proof {
                    k = k + 1;
                }
            }
            proof {
                lemma_next_round(round as int, n as int);
            }
            round = round + 1;
        }
        assert(k == 2 * n);
    }
}

/// The shuffle keeps the length of the sequence.
pub proof fn lemma_shuffle_len<T>(seed: int, s: Seq<T>, k: nat)
    requires
        s.len() > 0,
    ensures
        shuffle_passes(seed, s, k).1.len() == s.len(),
    decreases k,
{
    if k > 0 {
        lemma_shuffle_len(seed, s, (k - 1) as nat);
        let n = s.len() as int;
        let (prev, t) = shuffle_passes(seed, s, (k - 1) as nat);
        let x = lcg_next(prev);
        lemma_index_mod((k - 1) as int, n);
        lemma_index_mod(x, n);
        lemma_shuffle_step(seed, s, (k - 1) as nat, (k - 1) % n);
    } else {
        reveal_with_fuel(shuffle_passes, 1);
    }
}

proof fn lemma_index_mod(a: int, n: int)
    requires
        n > 0,
    ensures
        0 <= a % n < n,
{
}

proof fn lemma_shuffle_step<T>(seed: int, s: Seq<T>, k: nat, i: int)
    requires
        s.len() > 0,
        (k as int) % (s.len() as int) == i,
    ensures
        shuffle_passes(seed, s, k + 1) == (
            lcg_next(shuffle_passes(seed, s, k).0),
            swap_at(
                shuffle_passes(seed, s, k).1,
                i,
                lcg_next(shuffle_passes(seed, s, k).0) % (s.len() as int),
            ),
        ),
{
    reveal_with_fuel(shuffle_passes, 2);
}

proof fn lemma_pass_cursor(round: int, n: int, i: int)
    requires
        0 <= round,
        0 <= i < n,
    ensures
        (round * n + i) % n == i,
{
    assert((round * n + i) % n == i) by (nonlinear_arith)
        requires
            0 <= round,
            0 <= i < n,
    ;
}

proof fn lemma_next_round(round: int, n: int)
    ensures
        round * n + n == (round + 1) * n,
{
    assert(round * n + n == (round + 1) * n) by (nonlinear_arith);
}

} // verus!
