//! Word-level primitives: the bits of a 64-bit word, their counts, and the
//! counts of set bits over a sequence of words.

use vstd::prelude::*;

verus! {

/// Whether bit `j` (counting from the least significant) of `w` is set.
pub open spec fn bit_of(w: u64, j: int) -> bool {
    (w >> (j as u64)) & 1 == 1
}

/// Number of set bits among the lowest `k` bits of `w`.
pub open spec fn pop_prefix(w: u64, k: nat) -> nat
    decreases k,
{
    if k == 0 {
        0
    } else {
        pop_prefix(w, (k - 1) as nat) + if bit_of(w, k - 1) {
            1nat
        } else {
            0nat
        }
    }
}

/// Number of set bits of `w`.
pub open spec fn popcount(w: u64) -> nat {
    pop_prefix(w, 64)
}

/// Bit `i` of the bit string stored in `words`, word by word from the least
/// significant bit.
pub open spec fn word_bit(words: Seq<u64>, i: int) -> bool {
    bit_of(words[i / 64], i % 64)
}

/// Number of set bits among the first `p` bits stored in `words`.
pub open spec fn ones_before(words: Seq<u64>, p: nat) -> nat
    decreases p,
{
    if p == 0 {
        0
    } else {
        ones_before(words, (p - 1) as nat) + if word_bit(words, p - 1) {
            1nat
        } else {
            0nat
        }
    }
}

/// Number of set bits in the first `k` words.
pub open spec fn words_ones(words: Seq<u64>, k: nat) -> nat
    decreases k,
{
    if k == 0 {
        0
    } else {
        words_ones(words, (k - 1) as nat) + popcount(words[k - 1])
    }
}

/// Number of `true` values in `s`.
pub open spec fn count_true(s: Seq<bool>) -> nat
    decreases s.len(),
{
    if s.len() == 0 {
        0
    } else {
        count_true(s.drop_last()) + if s.last() {
            1nat
        } else {
            0nat
        }
    }
}

/// Division rounded up, for a divisor known to be positive.
pub trait DivCeilUnchecked: Sized {
    /// The divisor is positive and the rounding fits.
    spec fn div_ceil_ok(self, rhs: Self) -> bool;

    /// `self / rhs` rounded up.
    spec fn div_ceil_spec(self, rhs: Self) -> Self;

    /// Divides `self` by `rhs` and returns the result rounded up to the
    /// nearest integer.
    fn div_ceil_unchecked(self, rhs: Self) -> (r: Self)
        requires
            self.div_ceil_ok(rhs),
        ensures
            r == self.div_ceil_spec(rhs),
    ;
}

impl DivCeilUnchecked for usize {
    open spec fn div_ceil_ok(self, rhs: usize) -> bool {
        rhs > 0 && self + rhs - 1 <= usize::MAX
    }

    open spec fn div_ceil_spec(self, rhs: usize) -> usize {
        ((self + rhs - 1) / (rhs as int)) as usize
    }

    fn div_ceil_unchecked(self, rhs: usize) -> (r: usize) {
        (self + (rhs - 1)) / rhs
    }
}

impl DivCeilUnchecked for u64 {
    open spec fn div_ceil_ok(self, rhs: u64) -> bool {
        rhs > 0 && self + rhs - 1 <= u64::MAX
    }

    open spec fn div_ceil_spec(self, rhs: u64) -> u64 {
        ((self + rhs - 1) / (rhs as int)) as u64
    }

    fn div_ceil_unchecked(self, rhs: u64) -> (r: u64) {
        (self + (rhs - 1)) / rhs
    }
}

/// Number of `false` values in `s`.
pub open spec fn count_false(s: Seq<bool>) -> nat {
    (s.len() - count_true(s)) as nat
}

/// `p` is the position of the one of rank `rank` in `s`: the `rank + 1`-th
/// `true`, counting from zero.
pub open spec fn is_select(s: Seq<bool>, rank: nat, p: int) -> bool {
    &&& 0 <= p < s.len()
    &&& s[p]
    &&& count_true(s.subrange(0, p)) == rank
}

/// `p` is the position of the zero of rank `rank` in `s`.
pub open spec fn is_select_zero(s: Seq<bool>, rank: nat, p: int) -> bool {
    &&& 0 <= p < s.len()
    &&& !s[p]
    &&& p - count_true(s.subrange(0, p)) == rank
}

pub proof fn lemma_count_true_bound(s: Seq<bool>)
    ensures
        count_true(s) <= s.len(),
    decreases s.len(),
{
    if s.len() > 0 {
        lemma_count_true_bound(s.drop_last());
    }
}

/// `count_true` of a prefix, one bit further.
pub proof fn lemma_count_step(s: Seq<bool>, p: int)
    requires
        0 <= p < s.len(),
    ensures
        count_true(s.subrange(0, p + 1)) == count_true(s.subrange(0, p)) + if s[p] { 1nat } else { 0nat },
{
    assert(s.subrange(0, p + 1).drop_last() =~= s.subrange(0, p));
}

/// No ones between `a` and `b`: the counts of the two prefixes agree.
pub proof fn lemma_count_flat(s: Seq<bool>, a: int, b: int)
    requires
        0 <= a <= b <= s.len(),
        forall|p: int| a <= p < b ==> !#[trigger] s[p],
    ensures
        count_true(s.subrange(0, b)) == count_true(s.subrange(0, a)),
    decreases b - a,
{
    if a < b {
        lemma_count_flat(s, a, b - 1);
        lemma_count_step(s, b - 1);
    }
}

/// Two positions of the one of one rank are the same position.
pub proof fn lemma_select_unique(s: Seq<bool>, rank: nat, p: int, q: int)
    requires
        is_select(s, rank, p),
        is_select(s, rank, q),
    ensures
        p == q,
{
    if p < q {
        lemma_count_step(s, p);
        lemma_count_prefix_mono(s, p + 1, q);
    } else if q < p {
        lemma_count_step(s, q);
        lemma_count_prefix_mono(s, q + 1, p);
    }
}

/// Longer prefixes count at least as many ones.
pub proof fn lemma_count_prefix_mono(s: Seq<bool>, a: int, b: int)
    requires
        0 <= a <= b <= s.len(),
    ensures
        count_true(s.subrange(0, a)) <= count_true(s.subrange(0, b)),
    decreases b - a,
{
    if a < b {
        lemma_count_prefix_mono(s, a, b - 1);
        lemma_count_step(s, b - 1);
    }
}

/// Changing one bit changes the count by the difference of the bits.
pub proof fn lemma_count_true_update(s: Seq<bool>, i: int, b: bool)
    requires
        0 <= i < s.len(),
    ensures
        count_true(s.update(i, b)) + (if s[i] { 1int } else { 0int }) == count_true(s) + (if b {
            1int
        } else {
            0int
        }),
    decreases s.len(),
{
    let t = s.update(i, b);
    if i == s.len() - 1 {
        assert(t.drop_last() =~= s.drop_last());
    } else {
        lemma_count_true_update(s.drop_last(), i, b);
        assert(t.drop_last() =~= s.drop_last().update(i, b));
    }
}

/// Rank and select are inverse to each other: before the one of rank `i`
/// there are `i` ones, and a set bit `p` is the one whose rank is the number
/// of ones before it, so that selecting the rank of a set bit gives back a
/// position no smaller than it (the bit itself).
pub proof fn lemma_rank_select_inverse(s: Seq<bool>, i: nat, p: int, q: int)
    ensures
        is_select(s, i, p) ==> count_true(s.subrange(0, p)) == i,
        0 <= q < s.len() && s[q] ==> is_select(s, count_true(s.subrange(0, q)), q),
        0 <= q < s.len() && s[q] && is_select(s, count_true(s.subrange(0, q)), p) ==> p == q && p >= q,
{
    if 0 <= q < s.len() && s[q] && is_select(s, count_true(s.subrange(0, q)), p) {
        lemma_select_unique(s, count_true(s.subrange(0, q)), p, q);
    }
}

/// Relies on `u64::count_ones`: the number of set bits of the word.
#[verifier::external_body]
pub(crate) fn word_count_ones(w: u64) -> (r: u64)
    ensures
        r as nat == popcount(w),
{
    w.count_ones() as u64
}

/// Relies on `common_traits::SelectInWord::select_in_word` on `u64`: the
/// position of the `rank`-th set bit of the word.
#[verifier::external_body]
pub(crate) fn select_in_word(w: u64, rank: u64) -> (r: u64)
    requires
        (rank as nat) < popcount(w),
    ensures
        r < 64,
        bit_of(w, r as int),
        pop_prefix(w, r as nat) == rank as nat,
{
    common_traits::SelectInWord::select_in_word(&w, rank as usize) as u64
}

pub proof fn lemma_pop_prefix_bound(w: u64, k: nat)
    ensures
        pop_prefix(w, k) <= k,
    decreases k,
{
    if k > 0 {
        lemma_pop_prefix_bound(w, (k - 1) as nat);
    }
}

/// Counting the bits of a word string splits at word boundaries.
pub proof fn lemma_ones_before_split(words: Seq<u64>, k: nat, j: nat)
    requires
        j <= 64,
        k < words.len() || (k == words.len() && j == 0),
    ensures
        ones_before(words, 64 * k + j) == words_ones(words, k) + if j == 0 {
            0
        } else {
            pop_prefix(words[k as int], j)
        },
    decreases k, j,
{
    if j == 0 {
        if k > 0 {
            lemma_ones_before_split(words, (k - 1) as nat, 64);
            assert(64 * (k - 1) + 64 == 64 * k);
            assert(words_ones(words, k) == words_ones(words, (k - 1) as nat) + popcount(words[k - 1]));
        } else {
            assert(ones_before(words, 0) == 0);
            assert(words_ones(words, 0) == 0);
        }
    } else {
        lemma_ones_before_split(words, k, (j - 1) as nat);
        let p = 64 * k + j;
        assert((p - 1) / 64 == k && (p - 1) % 64 == j - 1) by (nonlinear_arith)
            requires
                p == 64 * k + j,
                1 <= j <= 64,
        ;
        let b: nat = if bit_of(words[k as int], j - 1) { 1 } else { 0 };
        assert(word_bit(words, p - 1) == bit_of(words[k as int], j - 1));
        assert(ones_before(words, p as nat) == ones_before(words, (p - 1) as nat) + b);
        assert(pop_prefix(words[k as int], j) == pop_prefix(words[k as int], (j - 1) as nat) + b);
        if j == 1 {
            assert(pop_prefix(words[k as int], 0) == 0);
        }
    }
}

pub proof fn lemma_ones_before_bound(words: Seq<u64>, p: nat)
    ensures
        ones_before(words, p) <= p,
    decreases p,
{
    if p > 0 {
        lemma_ones_before_bound(words, (p - 1) as nat);
    }
}

pub proof fn lemma_ones_before_mono(words: Seq<u64>, p: nat, q: nat)
    requires
        p <= q,
    ensures
        ones_before(words, p) <= ones_before(words, q),
        ones_before(words, q) <= ones_before(words, p) + (q - p),
    decreases q - p,
{
    if p < q {
        lemma_ones_before_mono(words, p, (q - 1) as nat);
    }
}

} // verus!
