//! A select-zero index that samples the position of every `2^q`-th zero and
//! finishes each query with a hinted scan of the bit vector.

use vstd::prelude::*;
use vstd::arithmetic::power2::pow2;
use crate::bits::{
    count_false, count_true, is_select, is_select_zero, lemma_ones_before_mono,
    lemma_ones_before_split, ones_before, popcount, select_in_word, word_count_ones,
};
use crate::bitmap::{lemma_not_bits_view, CountingBitmap, MAX_BITS};
use crate::hinted::oriented;

verus! {

/// `2^k` fits in a quarter of the address range: the largest step or group
/// size that the counts around it can be added to without overflow.
pub open spec fn step_fits(k: nat) -> bool {
    k + 2 <= usize::BITS
}

/// `2^k`.
pub open spec fn pow2_of(k: nat) -> nat
    decreases k,
{
    if k == 0 {
        1
    } else {
        2 * pow2_of((k - 1) as nat)
    }
}

pub proof fn lemma_pow2_of_mono(a: nat, b: nat)
    requires
        a <= b,
    ensures
        1 <= pow2_of(a) <= pow2_of(b),
    decreases b,
{
    if b > 0 {
        if a == b {
            lemma_pow2_of_mono((a - 1) as nat, (b - 1) as nat);
        } else {
            lemma_pow2_of_mono(a, (b - 1) as nat);
        }
    }
}

proof fn lemma_pow2_of_is_pow2(k: nat)
    ensures
        pow2_of(k) == vstd::arithmetic::power2::pow2(k),
    decreases k,
{
    if k == 0 {
        vstd::arithmetic::power2::lemma2_to64();
    } else {
        lemma_pow2_of_is_pow2((k - 1) as nat);
        vstd::arithmetic::power2::lemma_pow2_unfold(k);
    }
}

/// A step that fits is at most `MAX_BITS`, and adding it to a count of at
/// most `MAX_BITS` does not overflow.
pub proof fn lemma_pow2_of_bound(k: nat)
    requires
        step_fits(k),
    ensures
        1 <= pow2_of(k) <= MAX_BITS,
        MAX_BITS + pow2_of(k) <= usize::MAX,
        pow2_of(k) == vstd::arithmetic::power2::pow2(k),
{
    lemma_pow2_of_is_pow2(k);
    let top = (usize::BITS - 2) as nat;
    lemma_pow2_of_mono(k, top);
    lemma_pow2_of_is_pow2(top);
    vstd::arithmetic::power2::lemma2_to64();
    crate::bitmap::lemma_max_bits();
    if usize::BITS == 32 {
        assert(usize::MAX == 0xFFFF_FFFF);
        assert(pow2(30) == 0x4000_0000);
    } else {
        assert(usize::BITS == 64);
        assert(usize::MAX == 0xFFFF_FFFF_FFFF_FFFF);
        vstd::arithmetic::power2::lemma2_to64_rest();
        assert(pow2(62) == 0x4000_0000_0000_0000);
    }
}

/// `2^k`.
pub(crate) fn quantum_of(k: usize) -> (r: usize)
    requires
        step_fits(k as nat),
    ensures
        r == pow2_of(k as nat),
        1 <= r <= MAX_BITS,
        MAX_BITS + r <= usize::MAX,
{
    proof {
        lemma_pow2_of_bound(k as nat);
        vstd::bits::lemma_usize_pow2_no_overflow(k as nat);
        vstd::bits::lemma_usize_shl_is_mul(1, k);
    }
    1usize << k
}

/// Number of samples for `z` zeros taken every `q`: one for each multiple
/// of `q` below `z`.
pub open spec fn num_samples(z: nat, q: nat) -> nat {
    if q == 0 {
        0
    } else {
        ((z + q - 1) as nat / q) as nat
    }
}

/// The same index under its other name: a coarse sampling of the zeros.
pub type QuantumZeroIndex = SparseZeroIndex;

/// `count` samples taken every `q`, the last below `z` and the next one not,
/// are one for each multiple of `q` below `z`.
pub proof fn lemma_num_samples(count: nat, q: nat, z: nat)
    requires
        q >= 1,
        count * q >= z,
        count > 0 ==> (count - 1) * q < z,
        count == 0 ==> z == 0,
    ensures
        count == num_samples(z, q),
{
    let c = count as int;
    let qq = q as int;
    let x = z + q - 1;
    assert(c * qq - qq == (c - 1) * qq) by (nonlinear_arith);
    if c == 0 {
        assert(c * qq == 0) by (nonlinear_arith)
            requires
                c == 0,
        ;
    }
    let r = x - c * qq;
    vstd::arithmetic::div_mod::lemma_fundamental_div_mod_converse(x, qq, c, r);
}

/// A bit vector with the position of every `2^quantum_log2`-th zero.
pub struct SparseZeroIndex {
    bits: CountingBitmap,
    zeros: Vec<usize>,
    quantum_log2: usize,
}

impl View for SparseZeroIndex {
    type V = Seq<bool>;

    open spec fn view(&self) -> Seq<bool> {
        self.bits()@
    }
}

impl SparseZeroIndex {
    pub closed spec fn bits(&self) -> CountingBitmap {
        self.bits
    }

    pub closed spec fn samples(&self) -> Seq<usize> {
        self.zeros@
    }

    pub closed spec fn quantum_log2(&self) -> nat {
        self.quantum_log2 as nat
    }

    pub open spec fn quantum(&self) -> nat {
        pow2_of(self.quantum_log2())
    }

    /// Sample `k` is the position of the zero of rank `k` times the quantum.
    pub open spec fn wf(&self) -> bool {
        &&& self.bits().wf()
        &&& step_fits(self.quantum_log2())
        &&& self.samples().len() == num_samples(count_false(self@), self.quantum())
        &&& forall|k: int|
            0 <= k < self.samples().len() ==> is_select_zero(
                self@,
                (k * self.quantum()) as nat,
                #[trigger] self.samples()[k] as int,
            )
    }

    /// Builds the index of the zeros of `bits`, sampling every
    /// `2^quantum_log2`-th zero.
    pub fn new(bits: CountingBitmap, quantum_log2: usize) -> (r: Self)
        requires
            bits.wf(),
            step_fits(quantum_log2 as nat),
        ensures
            r.wf(),
            r.bits() == bits,
            r.quantum_log2() == quantum_log2,
    {
        let quantum = quantum_of(quantum_log2);
        proof {
            crate::bits::lemma_count_true_bound(bits@);
            crate::bitmap::lemma_max_bits();
            bits.lemma_words(0);
        }
        let zs = bits.len() - bits.count_ones();
        let n = zs / quantum + if zs % quantum != 0 { 1 } else { 0 };
        proof {
            assert(n == num_samples(zs as nat, quantum as nat)) by (nonlinear_arith)
                requires
                    n == zs / quantum + if zs % quantum != 0 { 1int } else { 0int },
                    quantum >= 1,
            ;
        }
        let mut res = SparseZeroIndex { bits, zeros: vec![0usize; n], quantum_log2 };
        res.build_zeros();
        res
    }

    /// Records the sampled zeros.
    pub fn build_zeros(&mut self)
        requires
            old(self).bits().wf(),
            step_fits(old(self).quantum_log2()),
            old(self).samples().len() == num_samples(count_false(old(self)@), old(self).quantum()),
        ensures
            final(self).wf(),
            final(self).bits() == old(self).bits(),
            final(self).quantum_log2() == old(self).quantum_log2(),
    {
        let quantum = quantum_of(self.quantum_log2);
        let len = self.bits.len();
        let words = self.bits.as_ref();
        let nw = words.len();
        let ghost ws = words@;
        let ghost os = oriented(ws, true);
        let ghost z = count_false(self@);
        let ghost v = self@;
        let mut number_of_ones: usize = 0;
        let mut next_quantum: usize = 0;
        let mut ones_index: usize = 0;
        let mut i: usize = 0;
        proof {
            self.bits.lemma_words(len as nat);
            crate::bitmap::lemma_max_bits();
            crate::bits::lemma_count_true_bound(v);
        }
        while i < nw
            invariant
                self.bits() == old(self).bits(),
                self.quantum_log2 == old(self).quantum_log2,
                step_fits(self.quantum_log2 as nat),
                z <= len <= MAX_BITS,
                MAX_BITS + quantum <= usize::MAX,
                self.zeros@.len() == num_samples(z, quantum as nat),
                self.bits().wf(),
                v == self@,
                z == count_false(v),
                len == v.len(),
                ws == self.bits().bits().words(),
                ws == words@,
                os == oriented(ws, true),
                nw == ws.len(),
                64 * nw <= MAX_BITS + 63,
                MAX_BITS + 64 <= usize::MAX,
                len <= 64 * nw,
                1 <= quantum <= MAX_BITS,
                quantum == pow2_of(self.quantum_log2 as nat),
                ones_before(os, len as nat) == z,
                i <= nw,
                number_of_ones == ones_before(os, (64 * i) as nat),
                next_quantum == ones_index * quantum,
                number_of_ones <= next_quantum,
                ones_index > 0 ==> (ones_index - 1) * quantum < z,
                forall|k: int| 0 <= k < ones_index ==> is_select_zero(v, (k * quantum) as nat, #[trigger] self.zeros@[k] as int),
            decreases nw - i,
        {
            let word = !words[i];
            let ones_in_word = word_count_ones(word) as usize;
            proof {
                lemma_ones_before_split(os, i as nat, 0);
                lemma_ones_before_split(os, (i + 1) as nat, 0);
                crate::bits::lemma_ones_before_bound(os, (64 * (i + 1)) as nat);
                assert(os[i as int] == word);
                assert(64 * (i + 1) <= 64 * nw);
            }
            while number_of_ones + ones_in_word > next_quantum
                invariant
                    self.bits() == old(self).bits(),
                    self.quantum_log2 == old(self).quantum_log2,
                    step_fits(self.quantum_log2 as nat),
                    z <= len <= MAX_BITS,
                    MAX_BITS + quantum <= usize::MAX,
                    self.zeros@.len() == num_samples(z, quantum as nat),
                    self.bits().wf(),
                    v == self@,
                    z == count_false(v),
                    len == v.len(),
                    ws == self.bits().bits().words(),
                    os == oriented(ws, true),
                    nw == ws.len(),
                    64 * nw <= MAX_BITS + 63,
                    MAX_BITS + 64 <= usize::MAX,
                    len <= 64 * nw,
                    1 <= quantum <= MAX_BITS,
                    quantum == pow2_of(self.quantum_log2 as nat),
                    ones_before(os, len as nat) == z,
                    i < nw,
                    os[i as int] == word,
                    popcount(word) == ones_in_word,
                    number_of_ones == ones_before(os, (64 * i) as nat),
                    number_of_ones + ones_in_word == ones_before(os, (64 * (i + 1)) as nat),
                    number_of_ones + ones_in_word <= MAX_BITS + 63,
                    number_of_ones == crate::bits::words_ones(os, i as nat),
                    next_quantum == ones_index * quantum,
                    number_of_ones <= next_quantum,
                    ones_index > 0 ==> (ones_index - 1) * quantum < z,
                    forall|k: int| 0 <= k < ones_index ==> is_select_zero(v, (k * quantum) as nat, #[trigger] self.zeros@[k] as int),
                decreases number_of_ones + ones_in_word + quantum - next_quantum,
            {
                let t = select_in_word(word, (next_quantum - number_of_ones) as u64);
                let index = i * 64 + t as usize;
                proof {
                    lemma_ones_before_split(os, i as nat, t as nat);
                    assert(index / 64 == i && index % 64 == t);
                }
                if index >= len {
                    proof {
                        lemma_ones_before_mono(os, len as nat, index as nat);
                        assert(next_quantum >= z);
                        lemma_num_samples(ones_index as nat, quantum as nat, z);
                        self.lemma_samples_done(ones_index as nat);
                    }
                    return;
                }
                proof {
                    self.bits.lemma_words(index as nat);
                    lemma_not_bits_view(&self.bits(), index as int);
                    assert(ones_before(os, (index + 1) as nat) == next_quantum + 1);
                    lemma_ones_before_mono(os, (index + 1) as nat, len as nat);
                    assert(next_quantum < z);
                    assert(ones_index < num_samples(z, quantum as nat)) by (nonlinear_arith)
                        requires
                            next_quantum == ones_index * quantum,
                            next_quantum < z,
                            quantum >= 1,
                    ;
                    assert(is_select_zero(v, (ones_index * quantum) as nat, index as int));
                }
                self.zeros.set(ones_index, index);
                next_quantum = next_quantum + quantum;
                ones_index = ones_index + 1;
                proof {
                    assert(next_quantum == ones_index * quantum) by (nonlinear_arith)
                        requires
                            next_quantum == (ones_index - 1) * quantum + quantum,
                    ;
                }
            }
            number_of_ones = number_of_ones + ones_in_word;
            i += 1;
        }
        proof {
            lemma_ones_before_mono(os, len as nat, (64 * nw) as nat);
            lemma_num_samples(ones_index as nat, quantum as nat, z);
            self.lemma_samples_done(ones_index as nat);
        }
    }

    /// The position of the zero of rank `rank`: from the sample below it, a
    /// hinted scan.
    pub fn select_zero_unchecked(&self, rank: usize) -> (r: usize)
        requires
            self.wf(),
            rank < count_false(self@),
        ensures
            is_select_zero(self@, rank as nat, r as int),
    {
        let quantum = quantum_of(self.quantum_log2);
        let index = rank / quantum;
        proof {
            assert(index < num_samples(count_false(self@), quantum as nat)) by (nonlinear_arith)
                requires
                    index == rank / quantum,
                    rank < count_false(self@),
                    quantum >= 1,
            ;
            assert(index * quantum <= rank) by (nonlinear_arith)
                requires
                    index == rank / quantum,
                    quantum >= 1,
            ;
            assert(is_select_zero(self@, (index * quantum) as nat, self.zeros@[index as int] as int));
        }
        let pos = self.zeros[index];
        self.bits.select_zero_unchecked_hinted(rank, pos, index * quantum)
    }

    /// The position of the zero of rank `rank`, scanning forward from the
    /// closer of two hints: `pos`, before which there are `rank_at_pos`
    /// zeros, and the sample below `rank`.
    pub fn select_zero_unchecked_hinted(&self, rank: usize, pos: usize, rank_at_pos: usize) -> (r: usize)
        requires
            self.wf(),
            pos <= self@.len(),
            pos - count_true(self@.subrange(0, pos as int)) == rank_at_pos,
            rank_at_pos <= rank < count_false(self@),
        ensures
            is_select_zero(self@, rank as nat, r as int),
    {
        let quantum = quantum_of(self.quantum_log2);
        let index = rank / quantum;
        proof {
            assert(index < num_samples(count_false(self@), quantum as nat)) by (nonlinear_arith)
                requires
                    index == rank / quantum,
                    rank < count_false(self@),
                    quantum >= 1,
            ;
            assert(index * quantum <= rank) by (nonlinear_arith)
                requires
                    index == rank / quantum,
                    quantum >= 1,
            ;
            assert(is_select_zero(self@, (index * quantum) as nat, self.zeros@[index as int] as int));
        }
        let this_pos = self.zeros[index];
        let this_rank_at_pos = index * quantum;
        if rank_at_pos > this_rank_at_pos {
            self.bits.select_zero_unchecked_hinted(rank, pos, rank_at_pos)
        } else {
            self.bits.select_zero_unchecked_hinted(rank, this_pos, this_rank_at_pos)
        }
    }

    /// The position of the zero of rank `rank`, if there are more zeros.
    pub fn select_zero(&self, rank: usize) -> (r: Option<usize>)
        requires
            self.wf(),
        ensures
            r.is_none() <==> rank >= count_false(self@),
            r matches Some(p) ==> is_select_zero(self@, rank as nat, p as int),
    {
        proof {
            crate::bits::lemma_count_true_bound(self@);
        }
        if rank >= self.bits.len() - self.bits.count_ones() {
            None
        } else {
            Some(self.select_zero_unchecked(rank))
        }
    }

    /// The position of the one of rank `rank`, if there are more ones; the
    /// underlying bit vector answers.
    pub fn select(&self, rank: usize) -> (r: Option<usize>)
        requires
            self.wf(),
        ensures
            r.is_none() <==> rank >= count_true(self@),
            r matches Some(p) ==> is_select(self@, rank as nat, p as int),
    {
        self.bits.select(rank)
    }

    /// The position of the one of rank `rank`.
    pub fn select_unchecked(&self, rank: usize) -> (r: usize)
        requires
            self.wf(),
            rank < count_true(self@),
        ensures
            is_select(self@, rank as nat, r as int),
    {
        self.bits.select_unchecked(rank)
    }

    /// The position of the one of rank `rank`, scanning forward from `pos`,
    /// before which there are `rank_at_pos` ones.
    pub fn select_unchecked_hinted(&self, rank: usize, pos: usize, rank_at_pos: usize) -> (r: usize)
        requires
            self.wf(),
            pos <= self@.len(),
            count_true(self@.subrange(0, pos as int)) == rank_at_pos,
            rank_at_pos <= rank < count_true(self@),
        ensures
            pos <= r,
            is_select(self@, rank as nat, r as int),
    {
        self.bits.select_unchecked_hinted(rank, pos, rank_at_pos)
    }

    /// The number of bits.
    pub fn len(&self) -> (r: usize)
        ensures
            r == self@.len(),
    {
        self.bits.len()
    }

    /// The number of ones.
    pub fn count(&self) -> (r: usize)
        requires
            self.wf(),
        ensures
            r == count_true(self@),
    {
        self.bits.count_ones()
    }

    /// The words of the underlying bit vector.
    pub fn as_ref(&self) -> (r: &Vec<u64>)
        ensures
            r@ == self.bits().bits().words(),
    {
        self.bits.as_ref()
    }

    /// An index made of its parts: the samples must be the positions of
    /// every `2^quantum_log2`-th zero of `bits`.
    pub fn from_raw_parts(bits: CountingBitmap, zeros: Vec<usize>, quantum_log2: usize) -> (r: Self)
        requires
            bits.wf(),
            step_fits(quantum_log2 as nat),
            zeros@.len() == num_samples(count_false(bits@), pow2_of(quantum_log2 as nat)),
            forall|k: int|
                0 <= k < zeros@.len() ==> is_select_zero(
                    bits@,
                    (k * pow2_of(quantum_log2 as nat)) as nat,
                    #[trigger] zeros@[k] as int,
                ),
        ensures
            r.wf(),
            r.bits() == bits,
            r.samples() == zeros@,
    {
        SparseZeroIndex { bits, zeros, quantum_log2 }
    }

    /// The bit vector, the samples and the logarithm of the sampling step.
    pub fn into_raw_parts(self) -> (r: (CountingBitmap, Vec<usize>, usize))
        ensures
            r.0 == self.bits(),
            r.1@ == self.samples(),
            r.2 == self.quantum_log2(),
    {
        (self.bits, self.zeros, self.quantum_log2)
    }

    /// The underlying bit vector, without the index.
    pub fn into_inner(self) -> (r: CountingBitmap)
        ensures
            r == self.bits(),
    {
        self.bits
    }

    proof fn lemma_samples_done(&self, count: nat)
        requires
            count == self.zeros@.len(),
            forall|k: int| 0 <= k < count ==> is_select_zero(self@, (k * self.quantum()) as nat, #[trigger] self.zeros@[k] as int),
        ensures
            forall|k: int|
                0 <= k < self.samples().len() ==> is_select_zero(
                    self@,
                    (k * self.quantum()) as nat,
                    #[trigger] self.samples()[k] as int,
                ),
    {
    }
}

} // verus!
