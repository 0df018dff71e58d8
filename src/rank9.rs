//! Rank9: constant-time rank with 64-bit absolute counters for each block of
//! eight words and seven 9-bit relative counters packed into one more word.

use vstd::prelude::*;
use crate::bits::{
    count_true, lemma_ones_before_bound, lemma_ones_before_mono, lemma_ones_before_split,
    ones_before, pop_prefix, popcount, word_count_ones,
};
use crate::bitmap::{
    lemma_count_true_view, lemma_max_bits, lemma_ones_before_padding, BitMap, MAX_BITS,
};

verus! {

/// The relative counter of word `word` in a packed word of relative
/// counters; word 0 reads the always-clear top bit.
pub open spec fn rel_field(relative: u64, word: u64) -> u64 {
    (relative >> ((9 * (word ^ 7)) as u64)) & 0x1FF
}

/// The counters of one block of eight words.
#[derive(Clone, Copy)]
pub struct BlockCounters {
    /// Ones before the block.
    pub absolute: usize,
    /// Ones before each word of the block, from the start of the block, nine
    /// bits per word from word 1 in the highest bits to word 7 in the lowest.
    pub relative: u64,
}

impl BlockCounters {
    /// Ones before word `word` of the block, from the start of the block.
    pub fn rel(&self, word: usize) -> (r: usize)
        requires
            word < 8,
        ensures
            r == rel_field(self.relative, word as u64),
    {
        let w = word as u64;
        let rel = self.relative;
        proof {
            assert(w ^ 7 <= 7) by (bit_vector)
                requires
                    w < 8,
            ;
        }
        let r = (rel >> (9 * (w ^ 7))) & 0x1FF;
        proof {
            assert(r <= 0x1FF) by (bit_vector)
                requires
                    r == (rel >> (9 * (w ^ 7))) & 0x1FF,
            ;
        }
        r as usize
    }

    /// Writes `counter` into the field of word `word`, which must be clear.
    pub fn set_rel(&mut self, word: usize, counter: usize)
        requires
            1 <= word < 8,
            counter < 512,
            old(self).relative & (((1u64 << ((9 * (8 - word)) as u64)) - 1) as u64) == 0,
            old(self).relative >> 63 == 0,
        ensures
            final(self).absolute == old(self).absolute,
            final(self).relative >> 63 == 0,
            final(self).relative & (((1u64 << ((9 * (7 - word)) as u64)) - 1) as u64) == 0,
            rel_field(final(self).relative, word as u64) == counter,
            forall|k: u64|
                k < word ==> #[trigger] rel_field(final(self).relative, k) == rel_field(
                    old(self).relative,
                    k,
                ),
    {
        let w = word as u64;
        let c = counter as u64;
        let r = self.relative;
        proof {
            lemma_set_rel(r, w, c);
            assert(w ^ 7 <= 7) by (bit_vector)
                requires
                    w < 8,
            ;
        }
        self.relative = r | (c << (9 * (w ^ 7)));
    }
}

proof fn lemma_set_rel(r: u64, j: u64, c: u64)
    requires
        1 <= j <= 7,
        c < 512,
        r & (((1u64 << ((9 * (8 - j)) as u64)) - 1) as u64) == 0,
        r >> 63 == 0,
    ensures
        (r | (c << ((9 * (j ^ 7)) as u64))) >> 63 == 0,
        (r | (c << ((9 * (j ^ 7)) as u64))) & (((1u64 << ((9 * (7 - j)) as u64)) - 1) as u64) == 0,
        rel_field(r | (c << ((9 * (j ^ 7)) as u64)), j) == c,
        forall|k: u64| k < j ==> #[trigger] rel_field(r | (c << ((9 * (j ^ 7)) as u64)), k) == rel_field(r, k),
{
    assert(forall|k: u64|
        k < j ==> ((r | (c << ((9 * (j ^ 7)) as u64))) >> ((9 * (k ^ 7)) as u64)) & 0x1FF == (r >> ((9 * (k ^ 7)) as u64))
            & 0x1FF) by (bit_vector)
        requires
            1 <= j <= 7,
            c < 512,
            r & (((1u64 << ((9 * (8 - j)) as u64)) - 1) as u64) == 0,
    ;
    assert((r | (c << ((9 * (j ^ 7)) as u64))) >> 63 == 0 && (r | (c << ((9 * (j ^ 7)) as u64))) & (((1u64 << ((9 * (7 - j)) as u64)) - 1) as u64) == 0 && ((r | (c << ((9 * (j ^ 7)) as u64))) >> ((9 * (j ^ 7)) as u64)) & 0x1FF
        == c) by (bit_vector)
        requires
            1 <= j <= 7,
            c < 512,
            r & (((1u64 << ((9 * (8 - j)) as u64)) - 1) as u64) == 0,
            r >> 63 == 0,
    ;
}

proof fn lemma_rel_base()
    ensures
        forall|r: u64| r >> 63 == 0 ==> #[trigger] rel_field(r, 0) == 0,
        forall|x: u64| #[trigger] (0u64 & x) == 0,
        0u64 >> 63 == 0,
{
    assert(forall|r: u64| r >> 63 == 0 ==> #[trigger] ((r >> ((9 * (0u64 ^ 7)) as u64)) & 0x1FF) == 0)
        by (bit_vector);
    assert(forall|x: u64| #[trigger] (0u64 & x) == 0) by (bit_vector);
    assert(0u64 >> 63 == 0) by (bit_vector);
}

/// The set bits of `w` below `r`, counted through a mask.
proof fn lemma_masked_popcount(w: u64, r: u64)
    requires
        r < 64,
    ensures
        popcount(w & (((1u64 << r) - 1) as u64)) == pop_prefix(w, r as nat),
{
    let m = w & (((1u64 << r) - 1) as u64);
    assert(forall|k: u64| k < 64 ==> #[trigger] ((m >> k) & 1) == if k < r {
        (w >> k) & 1
    } else {
        0
    }) by (bit_vector)
        requires
            r < 64,
            m == w & (((1u64 << r) - 1) as u64),
    ;
    lemma_masked_prefix(w, m, r as nat, 64);
}

proof fn lemma_masked_prefix(w: u64, m: u64, r: nat, j: nat)
    requires
        r < 64,
        j <= 64,
        forall|k: u64| k < 64 ==> #[trigger] ((m >> k) & 1) == if k < r {
            (w >> k) & 1
        } else {
            0
        },
    ensures
        pop_prefix(m, j) == pop_prefix(w, if j < r { j } else { r }),
    decreases j,
{
    if j > 0 {
        lemma_masked_prefix(w, m, r, (j - 1) as nat);
        let k = (j - 1) as u64;
        assert(((m >> k) & 1) == if k < r {
            (w >> k) & 1
        } else {
            0
        });
    }
}

/// The capped word index `8 b + j`: no further than the number of words.
pub open spec fn capped(b: nat, j: nat, n: nat) -> nat {
    if 8 * b + j <= n {
        8 * b + j
    } else {
        n
    }
}

/// The counters of block `b` count the ones before each of its words: the
/// absolute counter those before the block, the relative counter of word 0
/// none, and that of word `j` those in the block before word `j`.
pub open spec fn block_ok(words: Seq<u64>, c: BlockCounters, b: nat) -> bool {
    &&& c.relative >> 63 == 0
    &&& rel_field(c.relative, 0) == 0
    &&& c.absolute == ones_before(words, 64 * capped(b, 0, words.len()))
    &&& forall|j: u64|
        j < 8 ==> c.absolute + #[trigger] rel_field(c.relative, j) == ones_before(
            words,
            64 * capped(b, j as nat, words.len()),
        )
}

/// A bit vector with Rank9 counters: one `BlockCounters` for each block of
/// eight words, and a final one holding the number of ones.
pub struct Rank9 {
    bits: BitMap,
    counts: Vec<BlockCounters>,
}

impl View for Rank9 {
    type V = Seq<bool>;

    open spec fn view(&self) -> Seq<bool> {
        self.bits()@
    }
}

impl Rank9 {
    /// The underlying bit vector.
    pub closed spec fn bits(&self) -> BitMap {
        self.bits
    }

    /// The counters.
    pub closed spec fn counts(&self) -> Seq<BlockCounters> {
        self.counts@
    }

    pub open spec fn num_blocks(&self) -> nat {
        (self.bits().words().len() + 7) / 8
    }

    pub open spec fn wf(&self) -> bool {
        &&& self.bits().wf()
        &&& self.counts().len() == self.num_blocks() + 1
        &&& forall|b: int|
            0 <= b < self.num_blocks() ==> block_ok(
                self.bits().words(),
                #[trigger] self.counts()[b],
                b as nat,
            )
        &&& self.counts()[self.num_blocks() as int].relative == 0
        &&& self.counts()[self.num_blocks() as int].absolute == ones_before(
            self.bits().words(),
            64 * self.bits().words().len(),
        )
    }

    /// Builds the counters of `bits`.
    #[verifier::spinoff_prover]
    #[verifier::rlimit(60)]
    pub fn new(bits: BitMap) -> (r: Self)
        requires
            bits.wf(),
        ensures
            r.wf(),
            r.bits() == bits,
    {
        let words = bits.as_ref();
        let num_words = words.len();
        let ghost ws = words@;
        let mut counts: Vec<BlockCounters> = Vec::new();
        let mut num_ones: usize = 0;
        let mut i: usize = 0;
        proof {
            lemma_rel_base();
            lemma_max_bits();
            assert(64 * num_words <= bits.nbits() + 63) by (nonlinear_arith)
                requires
                    num_words == (bits.nbits() + 63) / 64,
            ;
        }
        while i < num_words
            invariant
                ws == words@,
                num_words == ws.len(),
                64 * num_words <= MAX_BITS + 63,
                MAX_BITS + 64 <= usize::MAX,
                i % 8 == 0,
                i < num_words + 8,
                counts@.len() == i / 8,
                num_ones == ones_before(ws, 64 * (if i <= num_words { i } else { num_words }) as nat),
                forall|b: int| 0 <= b < counts@.len() ==> block_ok(ws, #[trigger] counts@[b], b as nat),
            decreases num_words + 8 - i,
        {
            let mut count = BlockCounters { absolute: num_ones, relative: 0 };
            let c0 = word_count_ones(words[i]);
            proof {
                lemma_rel_base();
                lemma_ones_before_split(ws, i as nat, 0);
                lemma_ones_before_split(ws, (i + 1) as nat, 0);
                lemma_ones_before_bound(ws, (64 * (i + 1)) as nat);
            }
            num_ones = num_ones + c0 as usize;
            let mut j: usize = 1;
            while j < 8
                invariant
                    ws == words@,
                    num_words == ws.len(),
                    64 * num_words <= MAX_BITS + 63,
                    MAX_BITS + 64 <= usize::MAX,
                    i < num_words,
                    1 <= j <= 8,
                    count.absolute == ones_before(ws, 64 * i as nat),
                    num_ones == ones_before(ws, 64 * capped((i / 8) as nat, j as nat, num_words as nat)),
                    i % 8 == 0,
                    j < 8 ==> count.relative & (((1u64 << ((9 * (8 - j)) as u64)) - 1) as u64) == 0,
                    count.relative >> 63 == 0,
                    forall|k: u64|
                        k < j ==> count.absolute + #[trigger] rel_field(count.relative, k)
                            == ones_before(ws, 64 * capped((i / 8) as nat, k as nat, num_words as nat)),
                decreases 8 - j,
            {
                let ghost before = count;
                proof {
                    lemma_ones_before_mono(ws, (64 * i) as nat, (64 * capped((i / 8) as nat, j as nat, num_words as nat)) as nat);
                }
                let rel_count = num_ones - count.absolute;
                count.set_rel(j, rel_count);
                if i + j < num_words {
                    let c = word_count_ones(words[i + j]);
                    proof {
                        lemma_ones_before_split(ws, (i + j) as nat, 0);
                        lemma_ones_before_split(ws, (i + j + 1) as nat, 0);
                        lemma_ones_before_bound(ws, (64 * (i + j + 1)) as nat);
                    }
                    num_ones = num_ones + c as usize;
                }
                j += 1;
            }
            proof {
                assert(rel_field(count.relative, 0) == 0);
                assert(count.absolute + rel_field(count.relative, 0) == ones_before(ws, 64 * capped((i / 8) as nat, 0, num_words as nat)));
                assert(block_ok(ws, count, (i / 8) as nat));
            }
            counts.push(count);
            i += 8;
        }
        counts.push(BlockCounters { absolute: num_ones, relative: 0 });
        let r = Rank9 { bits, counts };
        proof {
            assert(r.counts()[r.num_blocks() as int].relative == 0);
            assert(r.counts()[r.num_blocks() as int].absolute == num_ones);
            assert forall|b: int| 0 <= b < r.num_blocks() implies block_ok(
                r.bits().words(),
                #[trigger] r.counts()[b],
                b as nat,
            ) by {
                assert(r.counts()[b] == counts@[b]);
            }
        }
        r
    }

    /// The number of bits.
    pub fn len(&self) -> (r: usize)
        ensures
            r == self@.len(),
    {
        self.bits.len()
    }

    pub fn is_empty(&self) -> (r: bool)
        ensures
            r == (self@.len() == 0),
    {
        self.bits.len() == 0
    }

    /// The underlying bit vector.
    pub fn into_inner(self) -> (r: BitMap)
        ensures
            r == self.bits(),
    {
        self.bits
    }

    /// The number of ones.
    pub fn num_ones(&self) -> (r: usize)
        requires
            self.wf(),
        ensures
            r == count_true(self@),
    {
        proof {
            self.lemma_total();
        }
        self.counts[self.counts.len() - 1].absolute
    }

    /// The number of ones; the same as `num_ones`.
    pub fn count_ones(&self) -> (r: usize)
        requires
            self.wf(),
        ensures
            r == count_true(self@),
    {
        self.num_ones()
    }

    proof fn lemma_total(&self)
        requires
            self.wf(),
        ensures
            self.counts()[self.num_blocks() as int].absolute == count_true(self@),
    {
        let ws = self.bits().words();
        lemma_ones_before_padding(ws, self@.len(), 64 * ws.len());
        lemma_count_true_view(&self.bits(), self@.len());
    }

    /// The number of ones before position `pos`, which must be inside the
    /// bit vector.
    pub fn rank_unchecked(&self, pos: usize) -> (r: usize)
        requires
            self.wf(),
            pos < self@.len(),
        ensures
            r == count_true(self@.subrange(0, pos as int)),
    {
        let word_pos = pos / 64;
        let block = word_pos / 8;
        let offset = word_pos % 8;
        let words = self.bits.as_ref();
        let ghost ws = words@;
        proof {
            assert(word_pos < ws.len()) by (nonlinear_arith)
                requires
                    word_pos == pos / 64,
                    pos < self.bits().nbits(),
                    ws.len() == (self.bits().nbits() + 63) / 64,
            ;
            assert(block < self.num_blocks());
        }
        let word = words[word_pos];
        let counts = self.counts[block];
        let shift = (pos % 64) as u64;
        proof {
            assert(1u64 << shift >= 1) by (bit_vector)
                requires
                    shift < 64,
            ;
        }
        let mask = (1u64 << shift) - 1;
        let c = word_count_ones(word & mask);
        proof {
            assert(block_ok(ws, counts, block as nat));
            assert(counts.absolute + rel_field(counts.relative, offset as u64) == ones_before(
                ws,
                64 * capped(block as nat, offset as nat, ws.len()),
            ));
            assert(capped(block as nat, offset as nat, ws.len()) == word_pos);
            lemma_masked_popcount(word, shift);
            lemma_ones_before_split(ws, word_pos as nat, 0);
            lemma_ones_before_split(ws, word_pos as nat, shift as nat);
            assert(64 * word_pos + shift == pos);
            lemma_ones_before_bound(ws, pos as nat);
            lemma_count_true_view(&self.bits(), pos as nat);
        }
        counts.absolute + counts.rel(offset) + c as usize
    }

    /// The number of ones before position `pos`; all of them when `pos` is
    /// past the end.
    pub fn rank(&self, pos: usize) -> (r: usize)
        requires
            self.wf(),
        ensures
            pos <= self@.len() ==> r == count_true(self@.subrange(0, pos as int)),
            pos >= self@.len() ==> r == count_true(self@),
    {
        if pos >= self.bits.len() {
            proof {
                if pos == self@.len() {
                    assert(self@.subrange(0, pos as int) =~= self@);
                }
            }
            self.num_ones()
        } else {
            self.rank_unchecked(pos)
        }
    }
}

} // verus!
