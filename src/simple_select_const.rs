//! SimpleSelectConst: constant-time select through a two-level inventory of
//! sampled positions of ones.
//!
//! For each group of `2^a` consecutive ones the inventory holds the position
//! of the first one of the group, followed by `2^b` words of subinventory.
//! When the group spans at most 65535 bits the subinventory holds 16-bit
//! offsets of every `2^(a - b - 2)`-th one of the group from the first;
//! otherwise the top bit of the first word is set and the subinventory holds
//! 64-bit offsets of every `2^(a - b)`-th one. A final word holds the length
//! of the bit vector.

use vstd::prelude::*;
use crate::bits::{
    bit_of, count_true, is_select, lemma_count_true_bound, lemma_ones_before_mono,
    lemma_ones_before_split, ones_before, popcount, select_in_word, word_count_ones, words_ones,
};
use crate::bitmap::{lemma_max_bits, lemma_not_bits_view, CountingBitmap, MAX_BITS};
use crate::sparse_zero_index::{
    lemma_pow2_of_bound, lemma_pow2_of_mono, num_samples, pow2_of, quantum_of, step_fits,
};

verus! {

/// Clears the top bit, which tells the kind of subinventory.
pub const INVENTORY_MASK: u64 = 0x7FFF_FFFF_FFFF_FFFF;

/// The 16-bit slot `s` of the subinventory that follows `inv[base]`.
pub open spec fn slot16(inv: Seq<u64>, base: int, s: int) -> u64 {
    (inv[base + 1 + s / 4] >> ((16 * (s % 4)) as u64)) & 0xFFFF
}

/// The inventory entries of group `g` lead to the ones they sample.
pub open spec fn group_ok(
    v: Seq<bool>,
    inv: Seq<u64>,
    g: int,
    ups: int,
    opi: int,
    q16: int,
) -> bool {
    let base = g * (ups + 1);
    let e = inv[base];
    let p = e & INVENTORY_MASK;
    let ones = count_true(v);
    &&& is_select(v, (g * opi) as nat, p as int)
    &&& e >> 63 == 0 ==> forall|s: int|
        0 <= s < 4 * ups && g * opi + s * q16 < ones ==> is_select(
            v,
            (g * opi + s * q16) as nat,
            p + #[trigger] slot16(inv, base, s),
        )
    &&& e >> 63 != 0 ==> forall|s: int|
        0 <= s < ups && g * opi + s * (4 * q16) < ones ==> is_select(
            v,
            (g * opi + s * (4 * q16)) as nat,
            p + #[trigger] inv[base + 1 + s],
        )
}

/// The top bit of the entry of group `g` is set exactly when the group spans
/// more than 65535 bits, from its first one to the first one of the next
/// group, or to the end.
pub open spec fn tag_ok(inv: Seq<u64>, g: int, ups: int) -> bool {
    let base = g * (ups + 1);
    (inv[base] >> 63 != 0) == ((inv[base + ups + 1] & INVENTORY_MASK) - (inv[base] & INVENTORY_MASK)
        > 65535)
}

/// A bit vector with a two-level inventory for select.
pub struct SimpleSelectConst {
    bits: CountingBitmap,
    inventory: Vec<u64>,
    num_ones: usize,
    log2_ones_per_inventory: usize,
    log2_u64_per_subinventory: usize,
}

impl View for SimpleSelectConst {
    type V = Seq<bool>;

    open spec fn view(&self) -> Seq<bool> {
        self.bits()@
    }
}

/// The parameters are usable: a 16-bit slot samples at least one one
/// (`b + 2 <= a`), and `2^a` ones per group fit the counts.
pub open spec fn params_ok(a: nat, b: nat) -> bool {
    &&& b + 2 <= a
    &&& step_fits(a)
}

pub proof fn lemma_pow2_of_add(x: nat, y: nat)
    ensures
        pow2_of(x + y) == pow2_of(x) * pow2_of(y),
    decreases x,
{
    if x == 0 {
        assert(pow2_of(x) == 1);
    } else {
        lemma_pow2_of_add((x - 1) as nat, y);
        assert(pow2_of(x + y) == 2 * pow2_of((x - 1 + y) as nat));
        assert(pow2_of(x) == 2 * pow2_of((x - 1) as nat));
        assert(2 * (pow2_of((x - 1) as nat) * pow2_of(y)) == (2 * pow2_of((x - 1) as nat)) * pow2_of(y)) by (nonlinear_arith);
    }
}

impl SimpleSelectConst {
    pub closed spec fn bits(&self) -> CountingBitmap {
        self.bits
    }

    pub closed spec fn inventory(&self) -> Seq<u64> {
        self.inventory@
    }

    pub closed spec fn log2_ones_per_inventory(&self) -> nat {
        self.log2_ones_per_inventory as nat
    }

    pub closed spec fn log2_u64_per_subinventory(&self) -> nat {
        self.log2_u64_per_subinventory as nat
    }

    pub closed spec fn ones(&self) -> nat {
        self.num_ones as nat
    }

    pub open spec fn opi(&self) -> nat {
        pow2_of(self.log2_ones_per_inventory())
    }

    pub open spec fn ups(&self) -> nat {
        pow2_of(self.log2_u64_per_subinventory())
    }

    pub open spec fn q16(&self) -> nat {
        pow2_of(
            (self.log2_ones_per_inventory() - self.log2_u64_per_subinventory() - 2) as nat,
        )
    }

    pub open spec fn wf(&self) -> bool {
        &&& self.bits().wf()
        &&& params_ok(self.log2_ones_per_inventory(), self.log2_u64_per_subinventory())
        &&& self.ones() == count_true(self@)
        &&& self.inventory().len() == num_samples(self.ones(), self.opi()) * (self.ups() + 1) + 1
        &&& self.inventory()[(num_samples(self.ones(), self.opi()) * (self.ups() + 1)) as int] == self@.len()
        &&& forall|g: int|
            0 <= g < num_samples(self.ones(), self.opi()) ==> #[trigger] tag_ok(
                self.inventory(),
                g,
                self.ups() as int,
            )
        &&& forall|g: int|
            0 <= g < num_samples(self.ones(), self.opi()) ==> #[trigger] group_ok(
                self@,
                self.inventory(),
                g,
                self.ups() as int,
                self.opi() as int,
                self.q16() as int,
            )
    }

    /// Builds the inventory of `bits`, with `2^log2_ones_per_inventory` ones
    /// per group and `2^log2_u64_per_subinventory` words per subinventory.
    pub fn new(bits: CountingBitmap, log2_ones_per_inventory: usize, log2_u64_per_subinventory: usize) -> (r: Self)
        requires
            bits.wf(),
            params_ok(log2_ones_per_inventory as nat, log2_u64_per_subinventory as nat),
        ensures
            r.wf(),
            r.bits() == bits,
            r.log2_ones_per_inventory() == log2_ones_per_inventory,
            r.log2_u64_per_subinventory() == log2_u64_per_subinventory,
    {
        let (opi, ups, q16) = params_of(log2_ones_per_inventory, log2_u64_per_subinventory);
        let num_ones = bits.count_ones();
        proof {
            lemma_count_true_bound(bits@);
            lemma_max_bits();
            assert(num_ones / opi <= num_ones) by (nonlinear_arith)
                requires
                    opi >= 1,
            ;
        }
        let n = num_ones / opi + if num_ones % opi != 0 { 1 } else { 0 };
        proof {
            assert(n == num_samples(num_ones as nat, opi as nat)) by (nonlinear_arith)
                requires
                    n == num_ones / opi + if num_ones % opi != 0 { 1int } else { 0int },
                    opi >= 1,
            ;
        }
        let mut inventory = primary_pass(&bits, opi, ups);
        let ghost inv1 = inventory@;
        let ghost v = bits@;
        let mut g: usize = 0;
        proof {
            assert forall|h: int|
                0 <= h <= n implies inventory@[h * (ups + 1)] & INVENTORY_MASK == #[trigger] inv1[h * (ups + 1)] by {
                lemma_entry_untagged(v, inv1, n as int, opi as int, ups as int, h);
            }
        }
        while g < n
            invariant
                bits.wf(),
                v == bits@,
                opi == 4 * ups * q16,
                1 <= q16,
                1 <= ups,
                4 * ups <= opi <= MAX_BITS,
                4 * q16 <= opi,
                n == num_samples(count_true(v), opi as nat),
                first_pass_ok(v, inv1, n as int, opi as int, ups as int),
                g <= n,
                inventory@.len() == inv1.len(),
                forall|idx: int| g * (ups + 1) <= idx < inv1.len() ==> inventory@[idx] == inv1[idx],
                forall|h: int|
                    0 <= h < g ==> #[trigger] group_ok(v, inventory@, h, ups as int, opi as int, q16 as int),
                forall|h: int| 0 <= h < g ==> #[trigger] tag_ok(inventory@, h, ups as int),
                forall|h: int|
                    0 <= h <= n ==> inventory@[h * (ups + 1)] & INVENTORY_MASK == #[trigger] inv1[h * (ups + 1)],
            decreases n - g,
        {
            let ghost before = inventory@;
            fill_group(&bits, &mut inventory, g, n, opi, ups, q16, Ghost(inv1));
            proof {
                assert forall|h: int|
                    0 <= h < g + 1 implies #[trigger] group_ok(v, inventory@, h, ups as int, opi as int, q16 as int) by {
                    if h < g {
                        assert((h + 1) * (ups + 1) <= g * (ups + 1)) by (nonlinear_arith)
                            requires
                                h + 1 <= g,
                        ;
                        assert(g * (ups + 1) <= n * (ups + 1)) by (nonlinear_arith)
                            requires
                                g <= n,
                        ;
                        lemma_group_frame(v, before, inventory@, h, ups as int, opi as int, q16 as int);
                    }
                }
                assert((g + 1) * (ups + 1) == g * (ups + 1) + ups + 1) by (nonlinear_arith);
                assert forall|h: int|
                    0 <= h <= n implies inventory@[h * (ups + 1)] & INVENTORY_MASK == #[trigger] inv1[h * (ups + 1)] by {
                    if h != g {
                        lemma_entry_untagged(v, inv1, n as int, opi as int, ups as int, h);
                        lemma_group_order(h, g as int, ups as int);
                        assert(h * (ups + 1) <= n * (ups + 1)) by (nonlinear_arith)
                            requires
                                h <= n,
                                ups >= 0,
                        ;
                        assert(h * (ups + 1) + 1 <= (h + 1) * (ups + 1)) by (nonlinear_arith)
                            requires
                                ups >= 0,
                        ;
                        assert(inventory@[h * (ups + 1)] == before[h * (ups + 1)]);
                    }
                }
                assert forall|h: int| 0 <= h < g + 1 implies #[trigger] tag_ok(inventory@, h, ups as int) by {
                    lemma_group_order(h, g as int, ups as int);
                    assert(h * (ups + 1) + ups + 1 == (h + 1) * (ups + 1)) by (nonlinear_arith);
                    assert(inventory@[(h + 1) * (ups + 1)] & INVENTORY_MASK == inv1[(h + 1) * (ups + 1)]);
                    if h < g {
                        assert(h * (ups + 1) + 1 <= (h + 1) * (ups + 1)) by (nonlinear_arith)
                            requires
                                ups >= 0,
                        ;
                        assert(g * (ups + 1) <= n * (ups + 1)) by (nonlinear_arith)
                            requires
                                g <= n,
                                ups >= 0,
                        ;
                        assert(inventory@[h * (ups + 1)] == before[h * (ups + 1)]);
                        assert(tag_ok(before, h, ups as int));
                        assert(before[(h + 1) * (ups + 1)] & INVENTORY_MASK == inv1[(h + 1) * (ups + 1)]);
                    } else {
                        lemma_entry_untagged(v, inv1, n as int, opi as int, ups as int, h + 1);
                        lemma_entry_untagged(v, inv1, n as int, opi as int, ups as int, h);
                    }
                }
            }
            g += 1;
        }
        let r = SimpleSelectConst {
            bits,
            inventory,
            num_ones,
            log2_ones_per_inventory,
            log2_u64_per_subinventory,
        };
        proof {
            assert forall|h: int|
                0 <= h < num_samples(r.ones(), r.opi()) implies #[trigger] group_ok(
                r@,
                r.inventory(),
                h,
                r.ups() as int,
                r.opi() as int,
                r.q16() as int,
            ) by {
                assert(group_ok(v, inventory@, h, ups as int, opi as int, q16 as int));
            }
        }
        r
    }

    /// The parameters as numbers: ones per inventory entry, words per
    /// subinventory, ones per 16-bit slot; they satisfy
    /// `opi == 4 * ups * q16`.
    fn params(&self) -> (r: (usize, usize, usize))
        requires
            params_ok(self.log2_ones_per_inventory(), self.log2_u64_per_subinventory()),
        ensures
            r.0 == self.opi(),
            r.1 == self.ups(),
            r.2 == self.q16(),
            r.0 == 4 * r.1 * r.2,
            1 <= r.2,
            1 <= r.1,
            4 * r.1 <= r.0 <= MAX_BITS,
            MAX_BITS + r.0 <= usize::MAX,
            4 * r.2 <= r.0,
    {
        params_of(self.log2_ones_per_inventory, self.log2_u64_per_subinventory)
    }

    /// The position of the one of rank `rank`.
    pub fn select_unchecked(&self, rank: usize) -> (r: usize)
        requires
            self.wf(),
            rank < count_true(self@),
        ensures
            is_select(self@, rank as nat, r as int),
    {
        let (opi, ups, q16) = self.params();
        let ghost v = self@;
        let ghost inv = self.inventory();
        let ghost ones = self.ones();
        let inventory_index = rank / opi;
        let subrank = rank % opi;
        proof {
            lemma_group_index(rank as nat, opi as nat, ups as nat, ones);
        }
        let inv_len = self.inventory.len();
        let start_idx = inventory_index * (1 + ups);
        let e = self.inventory[start_idx];
        proof {
            assert(group_ok(v, inv, inventory_index as int, ups as int, opi as int, q16 as int));
        }
        let pos: u64;
        let residual: usize;
        if e >> 63 == 0 {
            let s = subrank / q16;
            proof {
                assert(rank < (rank + 1) * opi) by (nonlinear_arith)
                    requires
                        opi >= 1,
                ;
                lemma_div_parts(rank as int, opi as int, (rank + 1) as int);
                assert(subrank < (4 * ups) * q16) by (nonlinear_arith)
                    requires
                        subrank < opi,
                        opi == 4 * ups * q16,
                ;
                lemma_div_parts(subrank as int, q16 as int, (4 * ups) as int);
                assert(inventory_index * opi + s * q16 + subrank % q16 == rank) by (nonlinear_arith)
                    requires
                        s == subrank / q16,
                        subrank == q16 * (subrank / q16) + subrank % q16,
                        rank == opi * (rank / opi) + rank % opi,
                        subrank == rank % opi,
                        inventory_index == rank / opi,
                ;
                assert(e & INVENTORY_MASK == e) by (bit_vector)
                    requires
                        e >> 63 == 0,
                ;
                assert(is_select(v, (inventory_index * opi + s * q16) as nat, e + slot16(inv, start_idx as int, s as int)));
            }
            let w = self.inventory[start_idx + 1 + s / 4];
            let off = (w >> ((16 * (s % 4)) as u64)) & 0xFFFF;
            pos = e + off;
            residual = subrank % q16;
        } else {
            let q64 = 4 * q16;
            let s = subrank / q64;
            proof {
                assert(opi == ups * q64) by (nonlinear_arith)
                    requires
                        opi == 4 * ups * q16,
                        q64 == 4 * q16,
                ;
                assert(rank < (rank + 1) * opi) by (nonlinear_arith)
                    requires
                        opi >= 1,
                ;
                lemma_div_parts(rank as int, opi as int, (rank + 1) as int);
                lemma_div_parts(subrank as int, q64 as int, ups as int);
                assert(inventory_index * opi + s * q64 + subrank % q64 == rank) by (nonlinear_arith)
                    requires
                        s == subrank / q64,
                        subrank == q64 * (subrank / q64) + subrank % q64,
                        rank == opi * (rank / opi) + rank % opi,
                        subrank == rank % opi,
                        inventory_index == rank / opi,
                ;
                assert(is_select(v, (inventory_index * opi + s * (4 * q16)) as nat, (e & INVENTORY_MASK) + inv[start_idx + 1 + s]));
            }
            pos = (e & INVENTORY_MASK) + self.inventory[start_idx + 1 + s];
            residual = subrank % q64;
        }
        proof {
            lemma_count_true_bound(v);
            crate::bitmap::lemma_max_bits();
        }
        self.bits.select_unchecked_hinted(rank, pos as usize, rank - residual)
    }

    /// The position of the one of rank `rank`, if there are more ones.
    pub fn select(&self, rank: usize) -> (r: Option<usize>)
        requires
            self.wf(),
        ensures
            r.is_none() <==> rank >= count_true(self@),
            r matches Some(p) ==> is_select(self@, rank as nat, p as int),
    {
        if rank >= self.num_ones {
            None
        } else {
            Some(self.select_unchecked(rank))
        }
    }

    /// The number of ones.
    pub fn count_ones(&self) -> (r: usize)
        requires
            self.wf(),
        ensures
            r == count_true(self@),
    {
        self.num_ones
    }

    /// The number of bits.
    pub fn len(&self) -> (r: usize)
        ensures
            r == self@.len(),
    {
        self.bits.len()
    }

    /// Bit `index`.
    pub fn get(&self, index: usize) -> (r: bool)
        requires
            self.wf(),
            index < self@.len(),
        ensures
            r == self@[index as int],
    {
        self.bits.get(index)
    }

    /// The underlying bit vector, without the inventory.
    pub fn into_inner(self) -> (r: CountingBitmap)
        ensures
            r == self.bits(),
    {
        self.bits
    }
}

/// The inventory after the first pass: the position of the first one of
/// each group, zeroed subinventories, and the length at the end.
pub open spec fn first_pass_ok(v: Seq<bool>, inv: Seq<u64>, n: int, opi: int, ups: int) -> bool {
    &&& inv.len() == n * (ups + 1) + 1
    &&& inv[n * (ups + 1)] == v.len()
    &&& forall|idx: int|
        0 <= idx < n * (ups + 1) ==> if idx % (ups + 1) == 0 {
            is_select(v, ((idx / (ups + 1)) * opi) as nat, #[trigger] inv[idx] as int)
        } else {
            inv[idx] == 0
        }
}

proof fn lemma_index_parts(g: int, k: int, d: int)
    requires
        0 <= g,
        0 <= k < d,
    ensures
        (g * d + k) / d == g,
        (g * d + k) % d == k,
{
    vstd::arithmetic::div_mod::lemma_fundamental_div_mod_converse(g * d + k, d, g, k);
}

/// The first pass: the position of the first one of each group.
fn primary_pass(bits: &CountingBitmap, opi: usize, ups: usize) -> (inv: Vec<u64>)
    requires
        bits.wf(),
        1 <= opi <= MAX_BITS,
        1 <= ups,
        4 * ups <= opi,
    ensures
        first_pass_ok(bits@, inv@, num_samples(count_true(bits@), opi as nat) as int, opi as int, ups as int),
{
    let ghost v = bits@;
    let words = bits.as_ref();
    let nw = words.len();
    let len = bits.len();
    let ghost ws = words@;
    let mut inventory: Vec<u64> = Vec::new();
    let mut past_ones: usize = 0;
    let mut next_quantum: usize = 0;
    let mut cnt: usize = 0;
    let ghost ones = count_true(v);
    proof {
        bits.lemma_words(len as nat);
        lemma_max_bits();
        lemma_count_true_bound(v);
    }
    let mut i: usize = 0;
    while i < nw
        invariant
            bits.wf(),
            v == bits@,
            ws == words@,
            ws == bits.bits().words(),
            nw == ws.len(),
            len == v.len(),
            len <= 64 * nw,
            64 * nw <= MAX_BITS + 63,
            MAX_BITS + opi <= usize::MAX,
            MAX_BITS < 0x8000_0000_0000_0000,
            ones == count_true(v),
            ones <= len,
            ones_before(ws, (64 * nw) as nat) == ones,
            1 <= opi <= MAX_BITS,
            1 <= ups,
            i <= nw,
            past_ones == ones_before(ws, (64 * i) as nat),
            next_quantum == cnt * opi,
            past_ones <= next_quantum,
            cnt > 0 ==> (cnt - 1) * opi < ones,
            inventory@.len() == cnt * (ups + 1),
            forall|idx: int|
                0 <= idx < inventory@.len() ==> if idx % (ups + 1) == 0 {
                    is_select(v, ((idx / (ups + 1)) * opi) as nat, #[trigger] inventory@[idx] as int)
                } else {
                    inventory@[idx] == 0
                },
        decreases nw - i,
    {
        let word = words[i];
        let ones_in_word = word_count_ones(word) as usize;
        proof {
            lemma_ones_before_split(ws, i as nat, 0);
            lemma_ones_before_split(ws, (i + 1) as nat, 0);
            crate::bits::lemma_ones_before_bound(ws, (64 * (i + 1)) as nat);
            lemma_ones_before_mono(ws, (64 * (i + 1)) as nat, (64 * nw) as nat);
        }
        while past_ones + ones_in_word > next_quantum
            invariant
                bits.wf(),
                v == bits@,
                ws == words@,
                ws == bits.bits().words(),
                nw == ws.len(),
                len == v.len(),
                len <= 64 * nw,
                64 * nw <= MAX_BITS + 63,
                MAX_BITS + opi <= usize::MAX,
                MAX_BITS < 0x8000_0000_0000_0000,
                ones == count_true(v),
                ones <= len,
                ones_before(ws, (64 * nw) as nat) == ones,
                1 <= opi <= MAX_BITS,
                1 <= ups,
                i < nw,
                ws[i as int] == word,
                popcount(word) == ones_in_word,
                past_ones == ones_before(ws, (64 * i) as nat),
                past_ones == words_ones(ws, i as nat),
                past_ones + ones_in_word == ones_before(ws, (64 * (i + 1)) as nat),
                past_ones + ones_in_word <= ones,
                next_quantum == cnt * opi,
                past_ones <= next_quantum,
                cnt > 0 ==> (cnt - 1) * opi < ones,
                inventory@.len() == cnt * (ups + 1),
                forall|idx: int|
                    0 <= idx < inventory@.len() ==> if idx % (ups + 1) == 0 {
                        is_select(v, ((idx / (ups + 1)) * opi) as nat, #[trigger] inventory@[idx] as int)
                    } else {
                        inventory@[idx] == 0
                    },
            decreases past_ones + ones_in_word + opi - next_quantum,
        {
            let t = select_in_word(word, (next_quantum - past_ones) as u64);
            let index = i * 64 + t as usize;
            proof {
                lemma_ones_before_split(ws, i as nat, t as nat);
                assert(index / 64 == i && index % 64 == t);
                assert(ones_before(ws, (index + 1) as nat) == next_quantum + 1);
                if index >= len {
                    crate::bitmap::lemma_ones_before_padding(ws, len as nat, (index + 1) as nat);
                    assert(false);
                }
                bits.lemma_words(index as nat);
                lemma_not_bits_view(bits, index as int);
                lemma_index_parts(cnt as int, 0, (ups + 1) as int);
            }
            let ghost before = inventory@;
            inventory.push(index as u64);
            let mut k: usize = 0;
            while k < ups
                invariant
                    0 <= k <= ups,
                    1 <= ups,
                    inventory@.len() == cnt * (ups + 1) + 1 + k,
                    forall|idx: int| 0 <= idx < cnt * (ups + 1) + 1 ==> inventory@[idx] == #[trigger] before.push(index as u64)[idx],
                    forall|idx: int| cnt * (ups + 1) + 1 <= idx < inventory@.len() ==> #[trigger] inventory@[idx] == 0,
                decreases ups - k,
            {
                inventory.push(0);
                k += 1;
            }
            proof {
                assert forall|idx: int|
                    0 <= idx < inventory@.len() implies if idx % (ups + 1) == 0 {
                        is_select(v, ((idx / (ups + 1)) * opi) as nat, #[trigger] inventory@[idx] as int)
                    } else {
                        inventory@[idx] == 0
                    } by {
                    if idx >= cnt * (ups + 1) {
                        lemma_index_parts(cnt as int, idx - cnt * (ups + 1), (ups + 1) as int);
                        assert(inventory@[idx] == before.push(index as u64)[idx] || idx > cnt * (ups + 1));
                    } else {
                        assert(inventory@[idx] == before.push(index as u64)[idx]);
                        assert(inventory@[idx] == before[idx]);
                    }
                }
                assert(next_quantum < ones);
                assert((cnt + 1) * (ups + 1) == cnt * (ups + 1) + 1 + ups) by (nonlinear_arith);
                assert((cnt + 1) * opi == cnt * opi + opi) by (nonlinear_arith);
                assert(cnt <= next_quantum) by (nonlinear_arith)
                    requires
                        next_quantum == cnt * opi,
                        opi >= 1,
                ;
            }
            next_quantum = next_quantum + opi;
            cnt = cnt + 1;
        }
        past_ones = past_ones + ones_in_word;
        i += 1;
    }
    proof {
        crate::sparse_zero_index::lemma_num_samples(cnt as nat, opi as nat, ones);
    }
    inventory.push(len as u64);
    proof {
        assert forall|idx: int|
            0 <= idx < cnt * (ups + 1) implies if idx % (ups + 1) == 0 {
                is_select(v, ((idx / (ups + 1)) * opi) as nat, #[trigger] inventory@[idx] as int)
            } else {
                inventory@[idx] == 0
            } by {
            assert(inventory@[idx] == inventory@.drop_last()[idx]);
        }
    }
    inventory
}

/// The slot `s` of group `base` in either layout.
pub open spec fn slot(inv: Seq<u64>, base: int, s: int, narrow: bool) -> u64 {
    if narrow {
        slot16(inv, base, s)
    } else {
        inv[base + 1 + s]
    }
}

proof fn lemma_slot_write(w: u64, sh: u64, off: u64, sh2: u64)
    requires
        sh % 16 == 0,
        sh < 64,
        sh2 % 16 == 0,
        sh2 < 64,
        off < 65536,
    ensures
        ((((w & !(0xFFFFu64 << sh)) | (off << sh)) >> sh2) & 0xFFFF) == if sh2 == sh {
            off
        } else {
            (w >> sh2) & 0xFFFF
        },
{
    assert(((((w & !(0xFFFFu64 << sh)) | (off << sh)) >> sh2) & 0xFFFF) == if sh2 == sh {
        off
    } else {
        (w >> sh2) & 0xFFFF
    }) by (bit_vector)
        requires
            sh % 16 == 0,
            sh < 64,
            sh2 % 16 == 0,
            sh2 < 64,
            off < 65536,
    ;
}

proof fn lemma_tag(p: u64)
    requires
        p < 0x8000_0000_0000_0000,
    ensures
        (p | 0x8000_0000_0000_0000u64) & INVENTORY_MASK == p,
        (p | 0x8000_0000_0000_0000u64) >> 63 != 0,
        p & INVENTORY_MASK == p,
        p >> 63 == 0,
        forall|s: u64| #[trigger] ((0u64 >> s) & 0xFFFF) == 0,
{
    assert((p | 0x8000_0000_0000_0000u64) & 0x7FFF_FFFF_FFFF_FFFFu64 == p && (p
        | 0x8000_0000_0000_0000u64) >> 63 != 0 && p & 0x7FFF_FFFF_FFFF_FFFFu64 == p && p >> 63
        == 0) by (bit_vector)
        requires
            p < 0x8000_0000_0000_0000,
    ;
    assert(forall|s: u64| #[trigger] ((0u64 >> s) & 0xFFFF) == 0) by (bit_vector);
}

/// The second pass over group `g`: the subinventory, and the top bit of
/// the entry when the group is too wide for 16-bit offsets.
#[verifier::spinoff_prover]
#[verifier::rlimit(100)]
fn fill_group(
    bits: &CountingBitmap,
    inventory: &mut Vec<u64>,
    g: usize,
    n: usize,
    opi: usize,
    ups: usize,
    q16: usize,
    Ghost(inv1): Ghost<Seq<u64>>,
)
    requires
        bits.wf(),
        opi == 4 * ups * q16,
        1 <= q16,
        1 <= ups,
        4 * ups <= opi <= MAX_BITS,
        4 * q16 <= opi,
        n == num_samples(count_true(bits@), opi as nat),
        first_pass_ok(bits@, inv1, n as int, opi as int, ups as int),
        g < n,
        old(inventory)@.len() == inv1.len(),
        forall|idx: int| g * (ups + 1) <= idx < inv1.len() ==> old(inventory)@[idx] == inv1[idx],
    ensures
        final(inventory)@.len() == old(inventory)@.len(),
        forall|idx: int|
            0 <= idx < final(inventory)@.len() && (idx < g * (ups + 1) || idx >= (g + 1) * (ups + 1))
                ==> final(inventory)@[idx] == old(inventory)@[idx],
        group_ok(bits@, final(inventory)@, g as int, ups as int, opi as int, q16 as int),
        final(inventory)@[g * (ups + 1)] & INVENTORY_MASK == inv1[g * (ups + 1)],
        (final(inventory)@[g * (ups + 1)] >> 63 != 0) == (inv1[(g + 1) * (ups + 1)] - inv1[g * (ups + 1)] > 65535),
{
    let ghost v = bits@;
    let ghost ones = count_true(v);
    let words = bits.as_ref();
    let nw = words.len();
    let len = bits.len();
    let ghost ws = words@;
    let upi = ups + 1;
    let inv_len = inventory.len();
    proof {
        bits.lemma_words(len as nat);
        lemma_max_bits();
        lemma_count_true_bound(v);
        assert(g * upi + upi <= n * upi) by (nonlinear_arith)
            requires
                g < n,
        ;
        lemma_index_parts(g as int, 0, upi as int);
    }
    let start_idx = g * upi;
    let end_idx = start_idx + upi;
    let start_bit = inventory[start_idx];
    let end_bit = inventory[end_idx];
    proof {
        assert(end_idx == (g + 1) * upi) by (nonlinear_arith)
            requires
                end_idx == g * upi + upi,
        ;
        assert(inv1[start_idx as int] == start_bit);
        assert((start_idx as int) % (upi as int) == 0 && (start_idx as int) / (upi as int) == g);
        assert(is_select(v, (g * opi) as nat, start_bit as int));
        bits.lemma_words(start_bit as nat);
        if g + 1 < n {
            lemma_index_parts((g + 1) as int, 0, upi as int);
            assert((g + 1) * upi < n * upi) by (nonlinear_arith)
                requires
                    g + 1 < n,
                    upi >= 1,
            ;
            assert(inv1[end_idx as int] == end_bit);
            assert((end_idx as int) % (upi as int) == 0 && (end_idx as int) / (upi as int) == g + 1);
            assert(is_select(v, ((g + 1) * opi) as nat, inv1[end_idx as int] as int));
        } else {
            assert(end_idx == n * upi);
        }
        bits.lemma_words(end_bit as nat);
        assert(g * opi < ones) by (nonlinear_arith)
            requires
                g < n,
                n == num_samples(ones, opi as nat),
                opi >= 1,
        ;
        assert((g + 1) * opi == g * opi + opi) by (nonlinear_arith);
        if end_bit <= start_bit {
            lemma_ones_before_mono(ws, end_bit as nat, start_bit as nat);
            assert(false);
        }
        if g + 1 < n {
            lemma_ones_before_mono(ws, end_bit as nat, len as nat);
        }
    }
    let ghost end_rank: nat = if g + 1 < n { ((g + 1) * opi) as nat } else { ones };
    let span = end_bit - start_bit;
    let narrow = span <= 65535;
    let quantum = if narrow { q16 } else { 4 * q16 };
    let slots = if narrow { 4 * ups } else { ups };
    proof {
        lemma_tag(start_bit);
        assert(slots * quantum == opi) by (nonlinear_arith)
            requires
                opi == 4 * ups * q16,
                narrow ==> quantum == q16 && slots == 4 * ups,
                !narrow ==> quantum == 4 * q16 && slots == ups,
        ;
    }
    if !narrow {
        inventory.set(start_idx, start_bit | 0x8000_0000_0000_0000);
    }
    let ghost e0 = inventory@[start_idx as int];
    let mut word_idx = (start_bit / 64) as usize;
    let bit_idx = start_bit % 64;
    proof {
        assert(word_idx < nw) by (nonlinear_arith)
            requires
                word_idx == start_bit / 64,
                start_bit < len,
                len <= 64 * nw,
        ;
        crate::hinted::lemma_high_part(ws[word_idx as int], bit_idx);
    }
    let mut word = (words[word_idx] >> bit_idx) << bit_idx;
    let ghost mut lo: nat = bit_idx as nat;
    let mut past_ones = g * opi;
    let end_word_idx = (end_bit / 64 + if end_bit % 64 != 0 { 1 } else { 0 }) as usize;
    let mut sub_idx: usize = 1;
    let mut next_quantum = past_ones + quantum;
    let mut done = sub_idx == slots;
    proof {
        lemma_ones_before_split(ws, word_idx as nat, bit_idx as nat);
        lemma_ones_before_split(ws, word_idx as nat, 0);
        assert(64 * word_idx + bit_idx == start_bit);
        assert(end_word_idx <= nw && 64 * end_word_idx >= end_bit && word_idx < end_word_idx) by (nonlinear_arith)
            requires
                end_word_idx == end_bit / 64 + if end_bit % 64 != 0 { 1int } else { 0int },
                end_bit <= len,
                len <= 64 * nw,
                word_idx == start_bit / 64,
                start_bit < end_bit,
        ;
        lemma_ones_before_mono(ws, end_bit as nat, (64 * end_word_idx) as nat);
        lemma_zero_slots(inventory@, inv1, old(inventory)@, g as int, n as int, ups as int, narrow, slots as int, start_idx as int);
        assert(slot(inventory@, start_idx as int, 0, narrow) == 0);
        assert(is_select(v, (g * opi) as nat, start_bit as int));
    }
    proof {
        crate::bitmap::lemma_ones_before_padding(ws, len as nat, (64 * nw) as nat);
    }
    loop
        invariant_except_break
            word_idx < end_word_idx,
            lo < 64,
            64 * word_idx + lo >= start_bit,
            forall|k: u64| k < 64 ==> #[trigger] bit_of(word, k as int) == (k >= lo && bit_of(ws[word_idx as int], k as int)),
            past_ones == ones_before(ws, (64 * word_idx + lo) as nat),
            ones_before(ws, (64 * word_idx) as nat) == words_ones(ws, word_idx as nat),
        invariant
            bits.wf(),
            ones_before(ws, len as nat) == ones,
            v == bits@,
            ws == words@,
            ws == bits.bits().words(),
            nw == ws.len(),
            len == v.len(),
            len <= 64 * nw,
            64 * nw <= MAX_BITS + 63,
            MAX_BITS + opi <= usize::MAX,
            ones == count_true(v),
            ones <= len,
            upi == ups + 1,
            start_idx == g * upi,
            end_idx == start_idx + upi,
            end_idx < inventory@.len(),
            inventory@.len() == old(inventory)@.len(),
            forall|idx: int|
                0 <= idx < inventory@.len() && (idx < start_idx || idx >= end_idx) ==> inventory@[idx] == old(inventory)@[idx],
            inventory@[start_idx as int] == e0,
            e0 & INVENTORY_MASK == start_bit,
            (e0 >> 63 == 0) == narrow,
            narrow ==> quantum == q16 && slots == 4 * ups,
            !narrow ==> quantum == 4 * q16 && slots == ups,
            narrow ==> span <= 65535,
            span == end_bit - start_bit,
            slots * quantum == opi,
            1 <= quantum <= opi,
            opi <= MAX_BITS,
            ones_before(ws, start_bit as nat) == g * opi,
            ones_before(ws, end_bit as nat) == end_rank,
            end_rank <= ones,
            g + 1 < n ==> end_rank == g * opi + opi,
            g + 1 >= n ==> end_rank == ones,
            start_bit < end_bit <= len,
            ones_before(ws, (64 * end_word_idx) as nat) >= end_rank,
            end_word_idx <= nw,
            1 <= sub_idx <= slots,
            done == (sub_idx == slots),
            !done ==> next_quantum == g * opi + sub_idx * quantum,
            !done ==> past_ones <= next_quantum,
            forall|s: int| 0 <= s < sub_idx ==> is_select(v, (g * opi + s * quantum) as nat, start_bit + #[trigger] slot(inventory@, start_idx as int, s, narrow)),
            forall|s: int| sub_idx <= s < slots ==> #[trigger] slot(inventory@, start_idx as int, s, narrow) == 0,
        ensures
            inventory@.len() == old(inventory)@.len(),
            forall|idx: int|
                0 <= idx < inventory@.len() && (idx < start_idx || idx >= end_idx) ==> inventory@[idx] == old(inventory)@[idx],
            inventory@[start_idx as int] == e0,
            forall|s: int| 0 <= s < sub_idx ==> is_select(v, (g * opi + s * quantum) as nat, start_bit + #[trigger] slot(inventory@, start_idx as int, s, narrow)),
            1 <= sub_idx <= slots,
            done || g * opi + sub_idx * quantum >= end_rank,
        decreases end_word_idx - word_idx,
    {
        let c = word_count_ones(word);
        proof {
            crate::bits::lemma_pop_prefix_bound(word, 64);
        }
        let ones_in_word = c as usize;
        proof {
            crate::hinted::lemma_high_prefix(ws[word_idx as int], word, lo, 64);
            lemma_ones_before_split(ws, word_idx as nat, lo);
            lemma_ones_before_split(ws, (word_idx + 1) as nat, 0);
            lemma_ones_before_mono(ws, (64 * (word_idx + 1)) as nat, (64 * nw) as nat);
            crate::bitmap::lemma_ones_before_padding(ws, len as nat, (64 * nw) as nat);
        }
        while !done && past_ones + ones_in_word > next_quantum
            invariant
                bits.wf(),
                v == bits@,
                ws == words@,
                ws == bits.bits().words(),
                nw == ws.len(),
                len == v.len(),
                len <= 64 * nw,
                64 * nw <= MAX_BITS + 63,
                MAX_BITS + opi <= usize::MAX,
                ones == count_true(v),
                ones <= len,
                ones_before(ws, len as nat) == ones,
                upi == ups + 1,
                start_idx == g * upi,
                end_idx == start_idx + upi,
                end_idx < inventory@.len(),
                inventory@.len() == old(inventory)@.len(),
                forall|idx: int|
                    0 <= idx < inventory@.len() && (idx < start_idx || idx >= end_idx) ==> inventory@[idx] == old(inventory)@[idx],
                inventory@[start_idx as int] == e0,
                narrow ==> quantum == q16 && slots == 4 * ups,
                !narrow ==> quantum == 4 * q16 && slots == ups,
                narrow ==> span <= 65535,
                span == end_bit - start_bit,
                slots * quantum == opi,
                1 <= quantum <= opi,
                opi <= MAX_BITS,
                ones_before(ws, end_bit as nat) == end_rank,
                end_rank <= ones,
                g + 1 < n ==> end_rank == g * opi + opi,
                g + 1 >= n ==> end_rank == ones,
                start_bit < end_bit <= len,
                word_idx < nw,
                lo < 64,
                64 * word_idx + lo >= start_bit,
                forall|k: u64| k < 64 ==> #[trigger] bit_of(word, k as int) == (k >= lo && bit_of(ws[word_idx as int], k as int)),
                past_ones == ones_before(ws, (64 * word_idx + lo) as nat),
                past_ones + ones_in_word == ones_before(ws, (64 * (word_idx + 1)) as nat),
                past_ones + ones_in_word <= ones,
                ones_before(ws, (64 * word_idx) as nat) == words_ones(ws, word_idx as nat),
                popcount(word) == ones_in_word,
                ones_before(ws, (64 * word_idx) as nat) + crate::bits::pop_prefix(ws[word_idx as int], lo) == past_ones,
                1 <= sub_idx <= slots,
                done == (sub_idx == slots),
                !done ==> next_quantum == g * opi + sub_idx * quantum,
                !done ==> past_ones <= next_quantum,
                forall|s: int| 0 <= s < sub_idx ==> is_select(v, (g * opi + s * quantum) as nat, start_bit + #[trigger] slot(inventory@, start_idx as int, s, narrow)),
                forall|s: int| sub_idx <= s < slots ==> #[trigger] slot(inventory@, start_idx as int, s, narrow) == 0,
            decreases slots - sub_idx,
        {
            let t = select_in_word(word, (next_quantum - past_ones) as u64);
            let bit_index = word_idx * 64 + t as usize;
            proof {
                crate::hinted::lemma_high_prefix(ws[word_idx as int], word, lo, t as nat);
                lemma_ones_before_split(ws, word_idx as nat, t as nat);
                assert(t >= lo);
                assert(bit_of(ws[word_idx as int], t as int));
                assert(bit_index / 64 == word_idx && bit_index % 64 == t);
                assert(ones_before(ws, bit_index as nat) == next_quantum);
                assert(ones_before(ws, (bit_index + 1) as nat) == next_quantum + 1);
                if bit_index >= len {
                    crate::bitmap::lemma_ones_before_padding(ws, len as nat, (bit_index + 1) as nat);
                    assert(false);
                }
                bits.lemma_words(bit_index as nat);
                assert(sub_idx * quantum < opi) by (nonlinear_arith)
                    requires
                        sub_idx < slots,
                        slots * quantum == opi,
                        quantum >= 1,
                ;
                if bit_index >= end_bit {
                    lemma_ones_before_mono(ws, (end_bit) as nat, bit_index as nat);
                    if g + 1 >= n {
                        assert(false);
                    }
                    assert(false);
                }
            }
            let sub_offset = bit_index - start_bit as usize;
            let ghost before = inventory@;
            write_slot(inventory, start_idx, sub_idx, narrow, ups, sub_offset as u64);
            proof {
                assert(is_select(v, next_quantum as nat, bit_index as int));
                assert forall|s: int| 0 <= s < sub_idx + 1 implies is_select(v, (g * opi + s * quantum) as nat, start_bit + #[trigger] slot(inventory@, start_idx as int, s, narrow)) by {
                    if s < sub_idx {
                        assert(slot(inventory@, start_idx as int, s, narrow) == slot(before, start_idx as int, s, narrow));
                    } else {
                        assert(slot(inventory@, start_idx as int, s, narrow) == sub_offset as u64);
                    }
                }
                assert forall|s: int| sub_idx + 1 <= s < slots implies #[trigger] slot(inventory@, start_idx as int, s, narrow) == 0 by {
                    assert(slot(inventory@, start_idx as int, s, narrow) == slot(before, start_idx as int, s, narrow));
                }
            }
            sub_idx += 1;
            if sub_idx == slots {
                done = true;
            } else {
                proof {
                    assert((sub_idx - 1) * quantum + quantum == sub_idx * quantum) by (nonlinear_arith);
                }
                next_quantum = next_quantum + quantum;
            }
        }
        if done {
            break;
        }
        past_ones = past_ones + ones_in_word;
        word_idx += 1;
        if word_idx == end_word_idx {
            break;
        }
        word = words[word_idx];
        proof {
            lo = 0;
            assert forall|k: u64| k < 64 implies #[trigger] bit_of(word, k as int) == (k >= lo && bit_of(ws[word_idx as int], k as int)) by {}
        }
    }
    proof {
        let inv = inventory@;
        let base = start_idx as int;
        assert(start_bit as int == e0 & INVENTORY_MASK);
        if narrow {
            assert forall|s: int| 0 <= s < 4 * ups && g * opi + s * q16 < ones implies is_select(
                v,
                (g * opi + s * q16) as nat,
                (e0 & INVENTORY_MASK) + #[trigger] slot16(inv, base, s),
            ) by {
                assert(slot(inv, base, s, narrow) == slot16(inv, base, s));
                if s >= sub_idx {
                    lemma_past_slots(g as int, opi as int, s, sub_idx as int, q16 as int, slots as int, ones as int, end_rank as int, n as int, done);
                }
            }
        } else {
            assert forall|s: int| 0 <= s < ups && g * opi + s * (4 * q16) < ones implies is_select(
                v,
                (g * opi + s * (4 * q16)) as nat,
                (e0 & INVENTORY_MASK) + #[trigger] inv[base + 1 + s],
            ) by {
                assert(slot(inv, base, s, narrow) == inv[base + 1 + s]);
                if s >= sub_idx {
                    lemma_past_slots(g as int, opi as int, s, sub_idx as int, (4 * q16) as int, slots as int, ones as int, end_rank as int, n as int, done);
                }
            }
        }
        assert(is_select(v, (g * opi) as nat, (e0 & INVENTORY_MASK) as int));
        assert(inv[start_idx as int] == e0);
        assert(start_bit == inv1[start_idx as int]);
        assert(end_bit == inv1[end_idx as int]);
        assert(end_idx == (g + 1) * (ups + 1));
    }
}

/// Writes `off` into slot `s` of the subinventory that follows
/// `inventory[base]`.
fn write_slot(inventory: &mut Vec<u64>, base: usize, s: usize, narrow: bool, ups: usize, off: u64)
    requires
        narrow ==> s < 4 * ups,
        !narrow ==> s < ups,
        narrow ==> off < 65536,
        base + 1 + ups <= old(inventory)@.len(),
    ensures
        final(inventory)@.len() == old(inventory)@.len(),
        forall|idx: int|
            0 <= idx < final(inventory)@.len() && (idx <= base || idx >= base + 1 + ups) ==> final(inventory)@[idx] == old(inventory)@[idx],
        forall|t: int|
            0 <= t < (if narrow { 4 * ups } else { ups as int }) ==> #[trigger] slot(final(inventory)@, base as int, t, narrow) == if t == s {
                off
            } else {
                slot(old(inventory)@, base as int, t, narrow)
            },
{
    let l = inventory.len();
    if narrow {
        let w_idx = base + 1 + s / 4;
        let sh = (16 * (s % 4)) as u64;
        let old_w = inventory[w_idx];
        inventory.set(w_idx, (old_w & !(0xFFFFu64 << sh)) | (off << sh));
        proof {
            assert forall|t: int| 0 <= t < 4 * ups implies #[trigger] slot(inventory@, base as int, t, narrow) == if t == s {
                off
            } else {
                slot(old(inventory)@, base as int, t, narrow)
            } by {
                let sh2 = (16 * (t % 4)) as u64;
                if t / 4 == s / 4 {
                    lemma_slot_write(old_w, sh, off, sh2);
                }
            }
        }
    } else {
        inventory.set(base + 1 + s, off);
    }
}

/// After the first pass, every slot of group `g` reads zero.
proof fn lemma_zero_slots(inv: Seq<u64>, inv1: Seq<u64>, inv0: Seq<u64>, g: int, n: int, ups: int, narrow: bool, slots: int, base: int)
    requires
        base == g * (ups + 1),
        0 <= g < n,
        1 <= ups,
        narrow ==> slots == 4 * ups,
        !narrow ==> slots == ups,
        inv.len() == inv1.len(),
        inv0.len() == inv1.len(),
        inv1.len() == n * (ups + 1) + 1,
        forall|idx: int|
            0 <= idx < n * (ups + 1) && idx % (ups + 1) != 0 ==> #[trigger] inv1[idx] == 0,
        forall|idx: int| g * (ups + 1) <= idx < inv1.len() ==> inv0[idx] == inv1[idx],
        forall|idx: int|
            0 <= idx < inv.len() && idx != g * (ups + 1) ==> #[trigger] inv[idx] == inv0[idx],
    ensures
        forall|s: int| 0 <= s < slots ==> #[trigger] slot(inv, base, s, narrow) == 0,
{
    assert forall|s: int| 0 <= s < slots implies #[trigger] slot(inv, base, s, narrow) == 0 by {
        let k = if narrow { 1 + s / 4 } else { 1 + s };
        lemma_index_parts(g, k, ups + 1);
        assert((g + 1) * (ups + 1) <= n * (ups + 1)) by (nonlinear_arith)
            requires
                g + 1 <= n,
                ups >= 0,
        ;
        assert((g + 1) * (ups + 1) == g * (ups + 1) + ups + 1) by (nonlinear_arith);
        assert(inv1[g * (ups + 1) + k] == 0);
        lemma_tag(0);
    }
}

/// After the first pass, the entry of every group, and the final one, is a
/// position with a clear top bit.
proof fn lemma_entry_untagged(v: Seq<bool>, inv1: Seq<u64>, n: int, opi: int, ups: int, h: int)
    requires
        first_pass_ok(v, inv1, n, opi, ups),
        0 <= h <= n,
        0 <= ups,
        v.len() <= MAX_BITS,
    ensures
        inv1[h * (ups + 1)] & INVENTORY_MASK == inv1[h * (ups + 1)],
        inv1[h * (ups + 1)] >> 63 == 0,
        inv1[h * (ups + 1)] <= v.len(),
{
    lemma_max_bits();
    if h < n {
        lemma_index_parts(h, 0, ups + 1);
        assert(h * (ups + 1) < n * (ups + 1)) by (nonlinear_arith)
            requires
                h < n,
                ups >= 0,
        ;
    }
    lemma_tag(inv1[h * (ups + 1)]);
}

/// Group `h`'s entries lie before group `g`'s when `h < g`, after them when
/// `h > g`.
proof fn lemma_group_order(h: int, g: int, ups: int)
    requires
        0 <= h,
        0 <= g,
        0 <= ups,
    ensures
        h < g ==> (h + 1) * (ups + 1) <= g * (ups + 1),
        h > g ==> h * (ups + 1) >= (g + 1) * (ups + 1),
{
    if h < g {
        assert((h + 1) * (ups + 1) <= g * (ups + 1)) by (nonlinear_arith)
            requires
                h + 1 <= g,
                ups >= 0,
        ;
    }
    if h > g {
        assert(h * (ups + 1) >= (g + 1) * (ups + 1)) by (nonlinear_arith)
            requires
                h >= g + 1,
                ups >= 0,
        ;
    }
}

/// `group_ok` reads only the entries of its group.
proof fn lemma_group_frame(v: Seq<bool>, a: Seq<u64>, b: Seq<u64>, g: int, ups: int, opi: int, q16: int)
    requires
        0 <= g,
        1 <= ups,
        (g + 1) * (ups + 1) <= a.len(),
        a.len() == b.len(),
        forall|idx: int| 0 <= idx < (g + 1) * (ups + 1) ==> a[idx] == b[idx],
        group_ok(v, a, g, ups, opi, q16),
    ensures
        group_ok(v, b, g, ups, opi, q16),
{
    let base = g * (ups + 1);
    assert((g + 1) * (ups + 1) == base + ups + 1) by (nonlinear_arith)
        requires
            base == g * (ups + 1),
    ;
    assert(a[base] == b[base]);
    assert forall|s: int| 0 <= s < 4 * ups implies #[trigger] slot16(b, base, s) == slot16(a, base, s) by {
        assert(a[base + 1 + s / 4] == b[base + 1 + s / 4]);
    }
    assert forall|s: int| 0 <= s < ups implies #[trigger] b[base + 1 + s] == a[base + 1 + s] by {}
}

/// A slot past the last one written samples no one.
proof fn lemma_past_slots(g: int, opi: int, s: int, sub_idx: int, quantum: int, slots: int, ones: int, end_rank: int, n: int, done: bool)
    requires
        sub_idx <= s < slots,
        1 <= quantum,
        slots * quantum == opi,
        done == (sub_idx == slots),
        done || g * opi + sub_idx * quantum >= end_rank,
        g + 1 < n ==> end_rank == g * opi + opi,
        g + 1 >= n ==> end_rank == ones,
    ensures
        g * opi + s * quantum >= ones,
{
    assert(g * opi + s * quantum >= g * opi + sub_idx * quantum) by (nonlinear_arith)
        requires
            s >= sub_idx,
            quantum >= 1,
    ;
    assert(s * quantum < opi) by (nonlinear_arith)
        requires
            s < slots,
            slots * quantum == opi,
            quantum >= 1,
    ;
}

/// Quotient and remainder of `x` by `d`, when `x < m d`.
proof fn lemma_div_parts(x: int, d: int, m: int)
    requires
        d >= 1,
        0 <= x < m * d,
    ensures
        x == d * (x / d) + x % d,
        0 <= x % d < d,
        0 <= x / d < m,
{
    vstd::arithmetic::div_mod::lemma_fundamental_div_mod(x, d);
    vstd::arithmetic::div_mod::lemma_mod_pos_bound(x, d);
    vstd::arithmetic::div_mod::lemma_div_pos_is_pos(x, d);
    if x / d >= m {
        vstd::arithmetic::mul::lemma_mul_inequality(m, x / d, d);
        assert(d * (x / d) == (x / d) * d) by (nonlinear_arith);
        assert(false);
    }
}

/// The group of a rank lies inside the inventory.
proof fn lemma_group_index(rank: nat, opi: nat, ups: nat, ones: nat)
    requires
        rank < ones,
        opi >= 1,
    ensures
        rank / opi < num_samples(ones, opi),
        (rank / opi) * (1 + ups) + ups < num_samples(ones, opi) * (ups + 1) + 1,
        (rank / opi) * opi <= rank,
{
    assert(rank / opi < num_samples(ones, opi)) by (nonlinear_arith)
        requires
            rank < ones,
            opi >= 1,
    ;
    let k = rank / opi;
    let n = num_samples(ones, opi);
    assert((k + 1) * (ups + 1) <= n * (ups + 1)) by (nonlinear_arith)
        requires
            k + 1 <= n,
    ;
    assert(k * (1 + ups) + ups + 1 == (k + 1) * (ups + 1)) by (nonlinear_arith);
    assert((rank / opi) * opi <= rank) by (nonlinear_arith)
        requires
            opi >= 1,
    ;
}

/// The numbers behind the parameters `a` and `b`.
fn params_of(a: usize, b: usize) -> (r: (usize, usize, usize))
    requires
        params_ok(a as nat, b as nat),
    ensures
        r.0 == pow2_of(a as nat),
        r.1 == pow2_of(b as nat),
        r.2 == pow2_of((a - b - 2) as nat),
        r.0 == 4 * r.1 * r.2,
        1 <= r.2,
        1 <= r.1,
        4 * r.1 <= r.0 <= MAX_BITS,
            MAX_BITS + r.0 <= usize::MAX,
        4 * r.2 <= r.0,
{
    let opi = quantum_of(a);
    let ups = quantum_of(b);
    let q16 = quantum_of(a - b - 2);
    proof {
        lemma_pow2_of_add(b as nat, (a - b) as nat);
        lemma_pow2_of_add(2, (a - b - 2) as nat);
        reveal_with_fuel(pow2_of, 3);
        lemma_pow2_of_mono(0, (a - b - 2) as nat);
        lemma_pow2_of_mono(0, b as nat);
        assert(pow2_of(a as nat) == pow2_of(b as nat) * (4 * pow2_of((a - b - 2) as nat)));
        assert(opi == 4 * ups * q16) by (nonlinear_arith)
            requires
                opi == ups * (4 * q16),
        ;
        assert(4 * ups <= opi && 4 * q16 <= opi) by (nonlinear_arith)
            requires
                opi == 4 * ups * q16,
                q16 >= 1,
                ups >= 1,
        ;
        lemma_pow2_of_bound(a as nat);
    }
    (opi, ups, q16)
}

} // verus!
