//! Fixed-length bit vectors packed into 64-bit words.

use vstd::prelude::*;
use crate::hinted::{lemma_oriented_zeros, oriented, select_hinted};
use crate::bits::{
    bit_of, count_true, count_false, is_select, is_select_zero, lemma_count_true_bound,
    lemma_ones_before_mono, lemma_ones_before_split, lemma_pop_prefix_bound, ones_before, word_bit,
    word_count_ones, words_ones,
};

verus! {

/// Largest number of bits a bit vector may hold: every bit position, and
/// every position one word past the end, fits in 63 bits.
pub const MAX_BITS: usize = usize::MAX / 2;

pub proof fn lemma_max_bits()
    ensures
        MAX_BITS + 64 <= usize::MAX,
        MAX_BITS + 65536 <= usize::MAX,
        MAX_BITS < 0x8000_0000_0000_0000,
{

}

/// Number of words needed to hold `n` bits.
pub open spec fn words_for(n: nat) -> nat {
    (n + 63) / 64
}

/// Bit `j` of a single word cleared and then set to `value` (0 or 1).
pub open spec fn word_with_bit(w: u64, j: u64, value: u64) -> u64 {
    (w & !(1u64 << j)) | (value << j)
}

pub proof fn lemma_word_with_bit(w: u64, j: u64, value: u64, k: u64)
    requires
        j < 64,
        k < 64,
        value <= 1,
    ensures
        bit_of(word_with_bit(w, j, value), k as int) == if k == j {
            value == 1
        } else {
            bit_of(w, k as int)
        },
{
    assert((((w & !(1u64 << j)) | (value << j)) >> k) & 1 == if k == j {
        value
    } else {
        (w >> k) & 1
    }) by (bit_vector)
        requires
            j < 64,
            k < 64,
            value <= 1,
    ;
}

pub proof fn lemma_word_const_bits(k: u64)
    requires
        k < 64,
    ensures
        !bit_of(0u64, k as int),
        bit_of(0xFFFF_FFFF_FFFF_FFFFu64, k as int),
{
    assert((0u64 >> k) & 1 == 0 && (0xFFFF_FFFF_FFFF_FFFFu64 >> k) & 1 == 1) by (bit_vector)
        requires
            k < 64,
    ;
}

pub proof fn lemma_low_mask_bits(r: u64, k: u64)
    requires
        0 < r < 64,
        k < 64,
    ensures
        bit_of(((1u64 << r) - 1) as u64, k as int) == (k < r),
{
    assert(((((1u64 << r) - 1) as u64 >> k) & 1 == 1) == (k < r)) by (bit_vector)
        requires
            0 < r < 64,
            k < 64,
    ;
}

/// Word `w` with bit `j` set to `value`; the value a compare-and-swap loop
/// on a shared word writes.
pub fn with_bit(w: u64, j: u64, value: bool) -> (r: u64)
    requires
        j < 64,
    ensures
        r == word_with_bit(w, j, if value { 1 } else { 0 }),
        forall|k: u64| k < 64 ==> #[trigger] bit_of(r, k as int) == if k == j {
            value
        } else {
            bit_of(w, k as int)
        },
{
    let v: u64 = if value { 1 } else { 0 };
    proof {
        assert forall|k: u64| k < 64 implies #[trigger] bit_of(word_with_bit(w, j, v), k as int)
            == if k == j {
            value
        } else {
            bit_of(w, k as int)
        } by {
            lemma_word_with_bit(w, j, v, k);
        }
    }
    (w & !(1u64 << j)) | (v << j)
}

/// The change in the number of ones when bit `j` of `w` is set to `value`:
/// one more, one fewer, or none.
pub fn ones_delta(w: u64, j: u64, value: bool) -> (r: i8)
    requires
        j < 64,
    ensures
        r == (if value { 1int } else { 0int }) - (if bit_of(w, j as int) { 1int } else { 0int }),
{
    let was = (w >> j) & 1 == 1;
    if value && !was {
        1
    } else if !value && was {
        -1
    } else {
        0
    }
}

/// A fixed-length sequence of bits, stored in 64-bit words from the least
/// significant bit. Bits past the end of the last word are kept at zero.
pub struct BitMap {
    data: Vec<u64>,
    len: usize,
}

impl View for BitMap {
    type V = Seq<bool>;

    open spec fn view(&self) -> Seq<bool> {
        Seq::new(self.nbits(), |i: int| word_bit(self.words(), i))
    }
}

impl BitMap {
    /// The backing words.
    pub closed spec fn words(&self) -> Seq<u64> {
        self.data@
    }

    /// The number of bits.
    pub closed spec fn nbits(&self) -> nat {
        self.len as nat
    }

    /// The words are as many as the length needs, and the bits past the
    /// length are zero.
    pub open spec fn wf(&self) -> bool {
        &&& self.nbits() <= MAX_BITS
        &&& self.words().len() == words_for(self.nbits())
        &&& forall|i: int|
            self.nbits() <= i < 64 * self.words().len() ==> !#[trigger] word_bit(self.words(), i)
    }

    /// A bit vector of `len` zeros.
    pub fn new(len: usize) -> (r: Self)
        requires
            len <= MAX_BITS,
        ensures
            r.wf(),
            r@ == Seq::new(len as nat, |i: int| false),
    {
        let n: usize = len / 64 + if len % 64 != 0 { 1 } else { 0 };
        let data: Vec<u64> = vec![0u64; n];
        let r = BitMap { data, len };
        proof {
            assert forall|i: int| 0 <= i < 64 * n implies !#[trigger] word_bit(r.words(), i) by {
                assert(0 <= i / 64 < n) by (nonlinear_arith)
                    requires
                        0 <= i < 64 * n,
                ;
                assert(r.words()[i / 64] == 0u64);
                lemma_word_const_bits((i % 64) as u64);
            }
            assert(r@ =~= Seq::new(len as nat, |i: int| false));
        }
        r
    }

    /// Wraps words holding `len` bits.
    pub fn from_raw_parts(data: Vec<u64>, len: usize) -> (r: Self)
        requires
            len <= MAX_BITS,
            data@.len() == words_for(len as nat),
            forall|i: int| len <= i < 64 * data@.len() ==> !#[trigger] word_bit(data@, i),
        ensures
            r.wf(),
            r.words() == data@,
            r.nbits() == len,
    {
        BitMap { data, len }
    }

    /// The backing words and the length.
    pub fn into_raw_parts(self) -> (r: (Vec<u64>, usize))
        ensures
            r.0@ == self.words(),
            r.1 == self.nbits(),
    {
        (self.data, self.len)
    }

    /// The backing words.
    pub fn as_ref(&self) -> (r: &Vec<u64>)
        ensures
            r@ == self.words(),
    {
        &self.data
    }

    /// The number of bits.
    pub fn len(&self) -> (r: usize)
        ensures
            r == self@.len(),
    {
        self.len
    }

    /// Bit `index`.
    pub fn get(&self, index: usize) -> (r: bool)
        requires
            self.wf(),
            index < self@.len(),
        ensures
            r == self@[index as int],
    {
        proof {
            assert(index / 64 < self.data@.len()) by (nonlinear_arith)
                requires
                    index < self.len,
                    self.data@.len() == (self.len + 63) / 64,
            ;
        }
        (self.data[index / 64] >> ((index % 64) as u64)) & 1 == 1
    }

    /// Sets bit `index` to `value`.
    pub fn set(&mut self, index: usize, value: bool)
        requires
            old(self).wf(),
            index < old(self)@.len(),
        ensures
            final(self).wf(),
            final(self)@ == old(self)@.update(index as int, value),
    {
        let wi = index / 64;
        let bi = (index % 64) as u64;
        proof {
            assert(wi < self.data@.len()) by (nonlinear_arith)
                requires
                    index < self.len,
                    wi == index / 64,
                    self.data@.len() == (self.len + 63) / 64,
            ;
        }
        let old_word = self.data[wi];
        let new_word = with_bit(old_word, bi, value);
        self.data.set(wi, new_word);
        proof {
            let ow = old(self).words();
            let nw = self.words();
            assert forall|i: int| 0 <= i < 64 * nw.len() implies #[trigger] word_bit(nw, i) == if i
                == index {
                value
            } else {
                word_bit(ow, i)
            } by {
                if i / 64 == wi as int {
                    assert(bit_of(new_word, ((i % 64) as u64) as int) == if (i % 64) as u64
                        == bi {
                        value
                    } else {
                        bit_of(old_word, ((i % 64) as u64) as int)
                    });
                    assert((i % 64 == bi as int) == (i == index as int));
                }
            }
            assert(self@ =~= old(self)@.update(index as int, value));
        }
    }

    /// Sets every bit to `value`; the bits past the length stay zero.
    pub fn fill(&mut self, value: bool)
        requires
            old(self).wf(),
        ensures
            final(self).wf(),
            final(self)@ == Seq::new(old(self)@.len(), |i: int| value),
            final(self).words().len() == old(self).words().len(),
    {
        let full: u64 = if value { 0xFFFF_FFFF_FFFF_FFFFu64 } else { 0u64 };
        let n = self.data.len();
        let mut i: usize = 0;
        while i < n
            invariant
                n == self.data@.len(),
                n == old(self).data@.len(),
                self.len == old(self).len,
                i <= n,
                forall|k: int| 0 <= k < i ==> self.data@[k] == full,
            decreases n - i,
        {
            self.data.set(i, full);
            i += 1;
        }
        let r = (self.len % 64) as u64;
        if value && r != 0 {
            assert(1u64 << r >= 1) by (bit_vector)
                requires
                    r < 64,
            ;
            self.data.set(n - 1, (1u64 << r) - 1);
        }
        proof {
            let w = self.words();
            assert forall|p: int| 0 <= p < 64 * n implies #[trigger] word_bit(w, p) == (p
                < self.len && value) by {
                let k = (p % 64) as u64;
                assert(0 <= p / 64 < n) by (nonlinear_arith)
                    requires
                        0 <= p < 64 * n,
                ;
                lemma_word_const_bits(k);
                if value && r != 0 && p / 64 == n - 1 {
                    lemma_low_mask_bits(r, k);
                    assert((k < r) == (p < self.len)) by (nonlinear_arith)
                        requires
                            n == (self.len + 63) / 64,
                            r == self.len % 64,
                            r != 0,
                            p / 64 == n - 1,
                            k == p % 64,
                            0 <= p,
                    ;
                } else if value {
                    assert(p < self.len) by (nonlinear_arith)
                        requires
                            n == (self.len + 63) / 64,
                            r == self.len % 64,
                            r == 0 || p / 64 < n - 1,
                            0 <= p < 64 * n,
                    ;
                }
            }
            assert(self@ =~= Seq::new(old(self)@.len(), |i: int| value));
        }
    }

    /// The number of ones.
    pub fn count_ones(&self) -> (r: usize)
        requires
            self.wf(),
        ensures
            r == count_true(self@),
    {
        let n = self.data.len();
        let mut sum: usize = 0;
        let mut i: usize = 0;
        while i < n
            invariant
                self.wf(),
                n == self.data@.len(),
                i <= n,
                sum == words_ones(self.data@, i as nat),
                sum <= 64 * i,
            decreases n - i,
        {
            let c = word_count_ones(self.data[i]);
            proof {
                lemma_pop_prefix_bound(self.data@[i as int], 64);
                assert(64 * i + 64 <= 64 * n);
                lemma_max_bits();
                assert(64 * n <= self.len + 63) by (nonlinear_arith)
                    requires
                        n == (self.len + 63) / 64,
                ;
            }
            sum = sum + c as usize;
            i += 1;
        }
        proof {
            lemma_ones_before_split(self.data@, n as nat, 0);
            lemma_ones_before_padding(self.data@, self.len as nat, (64 * n) as nat);
            lemma_count_true_view(self, self.len as nat);
        }
        sum
    }

    /// Pairs the bit vector with its number of ones.
    pub fn with_count(self, number_of_ones: usize) -> (r: CountingBitmap)
        requires
            self.wf(),
            number_of_ones == count_true(self@),
        ensures
            r.wf(),
            r.bits() == self,
            r.count() == number_of_ones,
    {
        CountingBitmap { bitmap: self, number_of_ones }
    }
}

/// Past the length of a well-formed bit vector, the counts stop growing.
pub proof fn lemma_ones_before_padding(words: Seq<u64>, len: nat, p: nat)
    requires
        len <= p <= 64 * words.len(),
        forall|i: int| len <= i < 64 * words.len() ==> !#[trigger] word_bit(words, i),
    ensures
        ones_before(words, p) == ones_before(words, len),
    decreases p - len,
{
    if p > len {
        lemma_ones_before_padding(words, len, (p - 1) as nat);
    }
}

/// The number of ones in the first `p` bits of a bit vector is the count of
/// its backing words.
pub proof fn lemma_count_true_view(b: &BitMap, p: nat)
    requires
        p <= b@.len(),
    ensures
        count_true(b@.subrange(0, p as int)) == ones_before(b.words(), p),
        p == b@.len() ==> b@.subrange(0, p as int) == b@,
    decreases p,
{
    if p > 0 {
        lemma_count_true_view(b, (p - 1) as nat);
        assert(b@.subrange(0, p as int).drop_last() =~= b@.subrange(0, p - 1));
    }
    if p == b@.len() {
        assert(b@.subrange(0, p as int) =~= b@);
    }
}

/// A bit vector together with its number of ones.
pub struct CountingBitmap {
    bitmap: BitMap,
    number_of_ones: usize,
}

impl View for CountingBitmap {
    type V = Seq<bool>;

    open spec fn view(&self) -> Seq<bool> {
        self.bits()@
    }
}

impl CountingBitmap {
    /// The underlying bit vector.
    pub closed spec fn bits(&self) -> BitMap {
        self.bitmap
    }

    /// The cached number of ones.
    pub closed spec fn count(&self) -> nat {
        self.number_of_ones as nat
    }

    pub open spec fn wf(&self) -> bool {
        &&& self.bits().wf()
        &&& self.count() == count_true(self@)
    }

    /// Counts the ones of `bitmap`.
    pub fn from_bitmap(bitmap: BitMap) -> (r: Self)
        requires
            bitmap.wf(),
        ensures
            r.wf(),
            r.bits() == bitmap,
    {
        let number_of_ones = bitmap.count_ones();
        CountingBitmap { bitmap, number_of_ones }
    }

    /// The bit vector, without its count.
    pub fn into_bitmap(self) -> (r: BitMap)
        ensures
            r == self.bits(),
    {
        self.bitmap
    }

    /// A bit vector of `len` zeros.
    pub fn new(len: usize) -> (r: Self)
        requires
            len <= MAX_BITS,
        ensures
            r.wf(),
            r@ == Seq::new(len as nat, |i: int| false),
    {
        let bitmap = BitMap::new(len);
        proof {
            lemma_count_true_view(&bitmap, len as nat);
            assert forall|i: int| 0 <= i < len implies !#[trigger] word_bit(bitmap.words(), i) by {
                assert(bitmap@[i] == false);
            }
            lemma_ones_before_zero(bitmap.words(), len as nat);
        }
        CountingBitmap { bitmap, number_of_ones: 0 }
    }

    /// Wraps words holding `len` bits, of which `number_of_ones` are set.
    pub fn from_raw_parts(data: Vec<u64>, len: usize, number_of_ones: usize) -> (r: Self)
        requires
            len <= MAX_BITS,
            data@.len() == words_for(len as nat),
            forall|i: int| len <= i < 64 * data@.len() ==> !#[trigger] word_bit(data@, i),
            number_of_ones == count_true(Seq::new(len as nat, |i: int| word_bit(data@, i))),
        ensures
            r.wf(),
            r.bits().words() == data@,
            r@.len() == len,
    {
        let bitmap = BitMap::from_raw_parts(data, len);
        CountingBitmap { bitmap, number_of_ones }
    }

    /// The backing words, the length and the number of ones.
    pub fn into_raw_parts(self) -> (r: (Vec<u64>, usize, usize))
        ensures
            r.0@ == self.bits().words(),
            r.1 == self@.len(),
            r.2 == self.count(),
    {
        let n = self.number_of_ones;
        let (d, l) = self.bitmap.into_raw_parts();
        (d, l, n)
    }

    /// The backing words.
    pub fn as_ref(&self) -> (r: &Vec<u64>)
        ensures
            r@ == self.bits().words(),
    {
        self.bitmap.as_ref()
    }

    /// The number of bits.
    pub fn len(&self) -> (r: usize)
        ensures
            r == self@.len(),
    {
        self.bitmap.len()
    }

    /// The number of ones.
    pub fn count_ones(&self) -> (r: usize)
        requires
            self.wf(),
        ensures
            r == count_true(self@),
    {
        self.number_of_ones
    }

    /// Bit `index`.
    pub fn get(&self, index: usize) -> (r: bool)
        requires
            self.wf(),
            index < self@.len(),
        ensures
            r == self@[index as int],
    {
        self.bitmap.get(index)
    }

    /// Sets bit `index` to `value`, keeping the count of ones.
    pub fn set(&mut self, index: usize, value: bool)
        requires
            old(self).wf(),
            index < old(self)@.len(),
        ensures
            final(self).wf(),
            final(self)@ == old(self)@.update(index as int, value),
    {
        let was = self.bitmap.get(index);
        self.bitmap.set(index, value);
        proof {
            crate::bits::lemma_count_true_update(old(self)@, index as int, value);
            lemma_count_true_bound(self@);
        }
        if value && !was {
            self.number_of_ones = self.number_of_ones + 1;
        } else if !value && was {
            self.number_of_ones = self.number_of_ones - 1;
        }
    }

    /// The bit vector's words, their bits, and the counts of ones and of
    /// zeros over them.
    pub proof fn lemma_words(&self, p: nat)
        requires
            self.wf(),
            p <= self@.len(),
        ensures
            64 * self.bits().words().len() <= MAX_BITS + 63,
            MAX_BITS + 64 <= usize::MAX,
            self@.len() <= 64 * self.bits().words().len(),
            ones_before(self.bits().words(), p) == count_true(self@.subrange(0, p as int)),
            ones_before(oriented(self.bits().words(), true), p) == p - count_true(
                self@.subrange(0, p as int),
            ),
            ones_before(self.bits().words(), (64 * self.bits().words().len()) as nat)
                == count_true(self@),
            ones_before(oriented(self.bits().words(), true), self@.len()) == count_false(self@),
    {
        let b = self.bits();
        let ws = b.words();
        let n = ws.len();
        lemma_max_bits();
        assert(64 * n <= b.nbits() + 63 && b.nbits() <= 64 * n) by (nonlinear_arith)
            requires
                n == (b.nbits() + 63) / 64,
        ;
        lemma_count_true_view(&b, p);
        lemma_count_true_view(&b, self@.len());
        lemma_ones_before_padding(ws, self@.len(), 64 * n);
        lemma_oriented_zeros(ws, p);
        lemma_oriented_zeros(ws, self@.len());
    }

    /// The position of the one of rank `rank`, scanning forward from `pos`,
    /// before which there are `rank_at_pos` ones.
    pub fn select_unchecked_hinted(&self, rank: usize, pos: usize, rank_at_pos: usize) -> (r: usize)
        requires
            self.wf(),
            pos <= self@.len(),
            count_true(self@.subrange(0, pos as int)) == rank_at_pos,
            rank_at_pos <= rank < count_true(self@),
        ensures
            pos <= r,
            is_select(self@, rank as nat, r as int),
    {
        self.select_hinted_oriented(false, rank, pos, rank_at_pos)
    }

    /// The position of the zero of rank `rank`, scanning forward from `pos`,
    /// before which there are `rank_at_pos` zeros.
    pub fn select_zero_unchecked_hinted(&self, rank: usize, pos: usize, rank_at_pos: usize) -> (r: usize)
        requires
            self.wf(),
            pos <= self@.len(),
            pos - count_true(self@.subrange(0, pos as int)) == rank_at_pos,
            rank_at_pos <= rank < count_false(self@),
        ensures
            pos <= r,
            is_select_zero(self@, rank as nat, r as int),
    {
        self.select_hinted_oriented(true, rank, pos, rank_at_pos)
    }

    fn select_hinted_oriented(&self, zeros: bool, rank: usize, pos: usize, rank_at_pos: usize) -> (r: usize)
        requires
            self.wf(),
            pos <= self@.len(),
            zeros ==> pos - count_true(self@.subrange(0, pos as int)) == rank_at_pos,
            zeros ==> rank < count_false(self@),
            !zeros ==> count_true(self@.subrange(0, pos as int)) == rank_at_pos,
            !zeros ==> rank < count_true(self@),
            rank_at_pos <= rank,
        ensures
            pos <= r,
            zeros ==> is_select_zero(self@, rank as nat, r as int),
            !zeros ==> is_select(self@, rank as nat, r as int),
    {
        let ghost ws = self.bits().words();
        let ghost os = oriented(ws, zeros);
        let ghost len = self@.len();
        proof {
            self.lemma_words(pos as nat);
            self.lemma_words(len);
            lemma_ones_before_mono(os, len, (64 * ws.len()) as nat);
            if pos == len {
                assert(self@.subrange(0, len as int) =~= self@);
                assert(false);
            }
        }
        let r = select_hinted(self.bitmap.as_ref(), zeros, rank, pos, rank_at_pos);
        proof {
            if r >= len {
                lemma_ones_before_mono(os, len, r as nat);
                assert(false);
            }
            self.lemma_words(r as nat);
            lemma_not_bits_view(self, r as int);
        }
        r
    }

    /// The position of the one of rank `rank`.
    pub fn select_unchecked(&self, rank: usize) -> (r: usize)
        requires
            self.wf(),
            rank < count_true(self@),
        ensures
            is_select(self@, rank as nat, r as int),
    {
        proof {
            assert(self@.subrange(0, 0) =~= Seq::<bool>::empty());
        }
        self.select_unchecked_hinted(rank, 0, 0)
    }

    /// The position of the zero of rank `rank`.
    pub fn select_zero_unchecked(&self, rank: usize) -> (r: usize)
        requires
            self.wf(),
            rank < count_false(self@),
        ensures
            is_select_zero(self@, rank as nat, r as int),
    {
        proof {
            assert(self@.subrange(0, 0) =~= Seq::<bool>::empty());
        }
        self.select_zero_unchecked_hinted(rank, 0, 0)
    }

    /// The position of the one of rank `rank`, if there are more ones.
    pub fn select(&self, rank: usize) -> (r: Option<usize>)
        requires
            self.wf(),
        ensures
            r.is_none() <==> rank >= count_true(self@),
            r matches Some(p) ==> is_select(self@, rank as nat, p as int),
    {
        if rank >= self.number_of_ones {
            None
        } else {
            Some(self.select_unchecked(rank))
        }
    }

    /// The position of the zero of rank `rank`, if there are more zeros.
    pub fn select_zero(&self, rank: usize) -> (r: Option<usize>)
        requires
            self.wf(),
        ensures
            r.is_none() <==> rank >= count_false(self@),
            r matches Some(p) ==> is_select_zero(self@, rank as nat, p as int),
    {
        proof {
            lemma_count_true_bound(self@);
        }
        if rank >= self.bitmap.len() - self.number_of_ones {
            None
        } else {
            Some(self.select_zero_unchecked(rank))
        }
    }
}

/// A bit of the view, read through the words or their complements.
pub proof fn lemma_not_bits_view(c: &CountingBitmap, p: int)
    requires
        c.wf(),
        0 <= p < c@.len(),
    ensures
        word_bit(c.bits().words(), p) == c@[p],
        word_bit(oriented(c.bits().words(), true), p) == !c@[p],
{
    let ws = c.bits().words();
    assert(0 <= p / 64 < ws.len()) by (nonlinear_arith)
        requires
            0 <= p < c@.len(),
            c@.len() == c.bits().nbits(),
            ws.len() == (c.bits().nbits() + 63) / 64,
    ;
    crate::hinted::lemma_not_bits(ws[p / 64]);
    assert(bit_of(!ws[p / 64], ((p % 64) as u64) as int) == !bit_of(ws[p / 64], ((p % 64) as u64) as int));
}

pub proof fn lemma_ones_before_zero(words: Seq<u64>, p: nat)
    requires
        forall|i: int| 0 <= i < p ==> !#[trigger] word_bit(words, i),
    ensures
        ones_before(words, p) == 0,
    decreases p,
{
    if p > 0 {
        lemma_ones_before_zero(words, (p - 1) as nat);
    }
}

} // verus!
