//! Hinted select over a word array: from a position whose rank is known,
//! scan forward word by word to the bit of a given rank.

use vstd::prelude::*;
use crate::bits::{
    bit_of, lemma_ones_before_split, ones_before, pop_prefix, popcount, select_in_word, word_bit,
    word_count_ones, words_ones,
};

verus! {

/// The words, complemented when looking for zeros.
pub open spec fn oriented(words: Seq<u64>, zeros: bool) -> Seq<u64> {
    if zeros {
        Seq::new(words.len(), |i: int| !words[i])
    } else {
        words
    }
}

pub proof fn lemma_not_bits(w: u64)
    ensures
        forall|k: u64| k < 64 ==> #[trigger] bit_of(!w, k as int) == !bit_of(w, k as int),
{
    assert(forall|k: u64| k < 64 ==> (#[trigger] (((!w) >> k) & 1) == 1) == !((w >> k) & 1 == 1))
        by (bit_vector);
}

/// Over the complemented words, the ones before `p` are the zeros before `p`.
pub proof fn lemma_oriented_zeros(words: Seq<u64>, p: nat)
    requires
        p <= 64 * words.len(),
    ensures
        ones_before(oriented(words, true), p) + ones_before(words, p) == p,
    decreases p,
{
    if p > 0 {
        lemma_oriented_zeros(words, (p - 1) as nat);
        let i = p - 1;
        assert(0 <= i / 64 < words.len()) by (nonlinear_arith)
            requires
                0 <= i < 64 * words.len(),
        ;
        lemma_not_bits(words[i / 64]);
        assert(bit_of(!words[i / 64], ((i % 64) as u64) as int) == !bit_of(
            words[i / 64],
            ((i % 64) as u64) as int,
        ));
    }
}

/// `w` with its bits below `lo` cleared.
pub proof fn lemma_high_part(w: u64, lo: u64)
    requires
        lo < 64,
    ensures
        forall|k: u64| k < 64 ==> #[trigger] bit_of((w >> lo) << lo, k as int) == (k >= lo && bit_of(w, k as int)),
{
    assert(forall|k: u64| k < 64 ==> (#[trigger] ((((w >> lo) << lo) >> k) & 1) == 1) == (k >= lo && (w >> k) & 1 == 1))
        by (bit_vector)
        requires
            lo < 64,
    ;
}

/// A word that keeps the bits of `w` from `lo` on, and no others, counts
/// the difference of the prefix counts of `w`.
pub proof fn lemma_high_prefix(w: u64, m: u64, lo: nat, j: nat)
    requires
        lo < 64,
        j <= 64,
        forall|k: u64| k < 64 ==> #[trigger] bit_of(m, k as int) == (k >= lo && bit_of(w, k as int)),
    ensures
        pop_prefix(m, j) + pop_prefix(w, if j < lo { j } else { lo }) == pop_prefix(w, j),
    decreases j,
{
    if j > 0 {
        lemma_high_prefix(w, m, lo, (j - 1) as nat);
        assert(bit_of(m, ((j - 1) as u64) as int) == ((j - 1) as u64 >= lo && bit_of(w, ((j - 1) as u64) as int)));
    }
}

/// The position of the one of rank `rank` in `words` (of the zero, when
/// `zeros` holds), found by scanning forward from `pos`, before which there
/// are `rank_at_pos` of them.
pub fn select_hinted(words: &Vec<u64>, zeros: bool, rank: usize, pos: usize, rank_at_pos: usize) -> (r: usize)
    requires
        64 * words@.len() <= usize::MAX,
        pos < 64 * words@.len(),
        ones_before(oriented(words@, zeros), pos as nat) == rank_at_pos,
        rank_at_pos <= rank,
        rank < ones_before(oriented(words@, zeros), 64 * words@.len()),
    ensures
        pos <= r < 64 * words@.len(),
        word_bit(oriented(words@, zeros), r as int),
        ones_before(oriented(words@, zeros), r as nat) == rank,
{
    let ghost ws = oriented(words@, zeros);
    let n = words.len();
    let mut word_index = pos / 64;
    let bit_index = (pos % 64) as u64;
    let mut residual = rank - rank_at_pos;
    let w0 = if zeros { !words[word_index] } else { words[word_index] };
    let mut word = (w0 >> bit_index) << bit_index;
    let ghost mut lo: nat = bit_index as nat;
    proof {
        lemma_high_part(w0, bit_index);
        lemma_ones_before_split(ws, word_index as nat, bit_index as nat);
        lemma_ones_before_split(ws, word_index as nat, 0);
        assert(64 * word_index + bit_index == pos);
    }
    loop
        invariant
            ws == oriented(words@, zeros),
            n == words@.len(),
            64 * n <= usize::MAX,
            word_index < n,
            lo < 64,
            64 * word_index + lo >= pos,
            forall|k: u64| k < 64 ==> #[trigger] bit_of(word, k as int) == (k >= lo && bit_of(ws[word_index as int], k as int)),
            ones_before(ws, (64 * word_index + lo) as nat) + residual == rank,
            ones_before(ws, (64 * word_index) as nat) == words_ones(ws, word_index as nat),
            rank < ones_before(ws, (64 * n) as nat),
        ensures
            (residual as nat) < popcount(word),
            word_index < n,
            lo < 64,
            64 * word_index + lo >= pos,
            forall|k: u64| k < 64 ==> #[trigger] bit_of(word, k as int) == (k >= lo && bit_of(ws[word_index as int], k as int)),
            ones_before(ws, (64 * word_index + lo) as nat) + residual == rank,
        decreases n - word_index,
    {
        let bit_count = word_count_ones(word);
        proof {
            lemma_high_prefix(ws[word_index as int], word, lo, 64);
            lemma_ones_before_split(ws, word_index as nat, lo);
            lemma_ones_before_split(ws, (word_index + 1) as nat, 0);
        }
        if (residual as u64) < bit_count {
            break;
        }
        proof {
            if word_index + 1 == n {
                lemma_ones_before_split(ws, n as nat, 0);
                assert(false);
            }
        }
        word_index += 1;
        word = if zeros { !words[word_index] } else { words[word_index] };
        residual = residual - bit_count as usize;
        proof {
            lo = 0;
            assert forall|k: u64| k < 64 implies #[trigger] bit_of(word, k as int) == (k >= lo && bit_of(ws[word_index as int], k as int)) by {}
        }
    }
    let t = select_in_word(word, residual as u64);
    proof {
        lemma_high_prefix(ws[word_index as int], word, lo, t as nat);
        lemma_ones_before_split(ws, word_index as nat, lo);
        lemma_ones_before_split(ws, word_index as nat, t as nat);
        assert(t >= lo);
        assert(bit_of(ws[word_index as int], t as int));
        assert((64 * word_index + t) / 64 == word_index && (64 * word_index + t) % 64 == t);
    }
    word_index * 64 + t as usize
}

} // verus!
