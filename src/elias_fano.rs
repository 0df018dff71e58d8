//! The Elias–Fano representation of monotone sequences: the low `l` bits of
//! each value in a compact array, the high bits in unary in a bit vector in
//! which value `k` sets bit `(v_k >> l) + k`.

use vstd::prelude::*;
use vstd::arithmetic::power2::pow2;
use crate::bits::{
    count_true, is_select, lemma_count_flat, lemma_count_step, lemma_count_true_bound,
    lemma_select_unique,
};
use crate::bitmap::{lemma_max_bits, BitMap, MAX_BITS};
use crate::compact_array::CompactArray;
use crate::simple_select_const::SimpleSelectConst;

verus! {

/// Why a value was refused.
#[derive(Debug, Clone, Copy, PartialEq, Eq, Structural)]
pub enum EliasFanoError {
    /// All `n` values were already given.
    TooManyValues,
    /// The value is not below the upper bound.
    ValueTooLarge,
    /// The value is smaller than the previous one.
    NotMonotone,
}

/// The sequence never decreases.
pub open spec fn monotone(s: Seq<usize>) -> bool {
    forall|i: int, j: int| 0 <= i <= j < s.len() ==> s[i] <= s[j]
}

/// The low `l` bits of `v`.
pub open spec fn low_part(v: usize, l: nat) -> u64 {
    (v as u64) & (((1u64 << (l as u64)) - 1) as u64)
}

/// The position of the bit of value `k` in the high-bits vector.
pub open spec fn high_pos(s: Seq<usize>, l: nat, k: int) -> int {
    ((s[k] as u64) >> (l as u64)) + k
}

/// The number of low bits for `n` values below `u`: the largest `l` with
/// `n 2^l <= u`, or zero when `n` is zero or larger than `u`.
pub open spec fn is_low_width(n: nat, u: nat, l: nat) -> bool {
    if n == 0 || u < n {
        l == 0
    } else {
        n * pow2(l) <= u < n * pow2(l + 1)
    }
}

/// The number of low bits for `n` values below `u`.
fn low_width(n: usize, u: usize) -> (l: usize)
    ensures
        is_low_width(n as nat, u as nat, l as nat),
        l < 64,
{
    if n == 0 || u < n {
        return 0;
    }
    let uu = u as u64;
    let nn = n as u64;
    let mut l: u64 = 0;
    proof {
        vstd::arithmetic::power2::lemma2_to64();
    }
    while l < 63 && (uu >> (l + 1)) >= nn
        invariant
            l <= 63,
            1 <= nn <= uu,
            nn * pow2(l as nat) <= uu,
        decreases 63 - l,
    {
        proof {
            vstd::bits::lemma_u64_shr_is_div(uu, (l + 1) as u64);
            vstd::arithmetic::power2::lemma_pow2_pos((l + 1) as nat);
            vstd::arithmetic::div_mod::lemma_fundamental_div_mod(uu as int, pow2((l + 1) as nat) as int);
            vstd::arithmetic::div_mod::lemma_mod_pos_bound(uu as int, pow2((l + 1) as nat) as int);
            assert(nn * pow2((l + 1) as nat) <= uu) by (nonlinear_arith)
                requires
                    nn <= uu as nat / pow2((l + 1) as nat),
                    uu == pow2((l + 1) as nat) * (uu as nat / pow2((l + 1) as nat)) + uu as nat % pow2((l + 1) as nat),
                    uu as nat % pow2((l + 1) as nat) >= 0,
                    pow2((l + 1) as nat) > 0,
            ;
        }
        l = l + 1;
    }
    proof {
        let d = pow2((l + 1) as nat);
        vstd::arithmetic::power2::lemma_pow2_pos((l + 1) as nat);
        if l < 63 {
            assert((uu >> ((l + 1) as u64)) < nn);
            vstd::bits::lemma_u64_shr_is_div(uu, (l + 1) as u64);
            vstd::arithmetic::div_mod::lemma_fundamental_div_mod(uu as int, d as int);
            vstd::arithmetic::div_mod::lemma_mod_pos_bound(uu as int, d as int);
            let q = uu as nat / d;
            vstd::arithmetic::mul::lemma_mul_inequality((q + 1) as int, nn as int, d as int);
            assert(d * (q + 1) == d * q + d) by (nonlinear_arith);
            assert((q + 1) * d == d * (q + 1) && nn * d == d * nn) by (nonlinear_arith);
        } else {
            vstd::arithmetic::power2::lemma2_to64();
            assert(l + 1 == 64);
            assert(d == 0x1_0000_0000_0000_0000);
            assert(nn * d >= d) by (nonlinear_arith)
                requires
                    nn >= 1,
                    d >= 0,
            ;
        }
    }
    l as usize
}

proof fn lemma_split_value(v: u64, l: u64)
    requires
        l < 64,
    ensures
        ((v >> l) << l) | (v & (((1u64 << l) - 1) as u64)) == v,
        (v & (((1u64 << l) - 1) as u64)) as nat == v as nat % pow2(l as nat),
        1u64 << l >= 1,
{
    assert(((v >> l) << l) | (v & (((1u64 << l) - 1) as u64)) == v && 1u64 << l >= 1) by (bit_vector)
        requires
            l < 64,
    ;
    vstd::bits::lemma_u64_pow2_no_overflow(l as nat);
    vstd::bits::lemma_u64_shl_is_mul(1, l);
    vstd::bits::lemma_u64_low_bits_mask_is_mod(v, l as nat);
}

/// Elias–Fano decoding gives every value back: in a monotone sequence the
/// high-bit positions `(v_i >> l) + i` strictly increase with `i`, so the
/// bit of value `i` is the one of rank `i`; its position minus `i`, shifted
/// back by `l` and joined with the low part, is `v_i`.
pub proof fn lemma_elias_fano_decodes(v: Seq<usize>, l: nat, i: int, j: int)
    requires
        monotone(v),
        l < 64,
        0 <= i < v.len(),
        i < j < v.len(),
    ensures
        high_pos(v, l, i) < high_pos(v, l, j),
        ((((high_pos(v, l, i) - i) as u64) << (l as u64)) | low_part(v[i], l)) == v[i] as u64,
{
    let a = v[i] as u64;
    let b = v[j] as u64;
    let sh = l as u64;
    assert(a <= b);
    assert((a >> sh) <= (b >> sh)) by (bit_vector)
        requires
            a <= b,
    ;
    lemma_split_value(a, sh);
}

/// A builder that takes the values in order and checks each.
pub struct EliasFanoBuilder {
    u: usize,
    n: usize,
    l: usize,
    low_bits: CompactArray,
    high_bits: BitMap,
    last_value: usize,
    count: usize,
    values: Ghost<Seq<usize>>,
}

impl View for EliasFanoBuilder {
    type V = Seq<usize>;

    closed spec fn view(&self) -> Seq<usize> {
        self.values@
    }
}

impl EliasFanoBuilder {
    /// The number of low bits of each value.
    pub closed spec fn low_width(&self) -> nat {
        self.l as nat
    }

    /// The low bits written so far, one element per value.
    pub closed spec fn low(&self) -> Seq<u64> {
        self.low_bits@
    }

    /// The high bits: bit `(v_k >> l) + k` is set for each value `v_k` given.
    pub closed spec fn high(&self) -> Seq<bool> {
        self.high_bits@
    }

    /// The number of values the sequence will hold.
    pub closed spec fn n(&self) -> nat {
        self.n as nat
    }

    /// The bound the values stay below.
    pub closed spec fn u(&self) -> nat {
        self.u as nat
    }

    pub closed spec fn wf(&self) -> bool {
        let v = self.values@;
        let l = self.l as nat;
        let hb = self.high_bits@;
        &&& is_low_width(self.n as nat, self.u as nat, l)
        &&& l < 64
        &&& self.n <= MAX_BITS / 64
        &&& self.count == v.len()
        &&& self.count <= self.n
        &&& monotone(v)
        &&& forall|k: int| 0 <= k < v.len() ==> #[trigger] v[k] < self.u
        &&& self.last_value == if v.len() == 0 { 0 } else { v.last() }
        &&& self.low_bits.wf()
        &&& self.low_bits.width() == l
        &&& self.low_bits@.len() == self.n
        &&& forall|k: int| 0 <= k < v.len() ==> #[trigger] self.low_bits@[k] == low_part(v[k], l)
        &&& self.high_bits.wf()
        &&& hb.len() == self.n + ((self.u as u64) >> (l as u64)) + 1
        &&& forall|k: int| 0 <= k < v.len() ==> #[trigger] is_select(hb, k as nat, high_pos(v, l, k))
        &&& forall|p: int|
            0 <= p < hb.len() && (v.len() == 0 || p > high_pos(v, l, v.len() - 1)) ==> !#[trigger] hb[p]
    }

    /// A builder for `n` values below `u`.
    pub fn new(n: usize, u: usize) -> (r: Self)
        requires
            n <= MAX_BITS / 64,
            n >= 1 || u < MAX_BITS / 2,
        ensures
            r.wf(),
            r@ == Seq::<usize>::empty(),
            r.n() == n,
            r.u() == u,
            is_low_width(n as nat, u as nat, r.low_width()),
            r.low_width() < 64,
            r.low() == Seq::new(n as nat, |i: int| 0u64),
            r.high() == Seq::new(
                (n + ((u as u64) >> (r.low_width() as u64)) + 1) as nat,
                |i: int| false,
            ),
    {
        let l = low_width(n, u);
        proof {
            lemma_max_bits();
            assert(n * l <= MAX_BITS) by (nonlinear_arith)
                requires
                    n <= MAX_BITS / 64,
                    l < 64,
            ;
            vstd::bits::lemma_u64_shr_is_div(u as u64, l as u64);
            vstd::arithmetic::power2::lemma_pow2_pos(l as nat);
            if n >= 1 && u >= n {
                vstd::arithmetic::power2::lemma_pow2_unfold((l + 1) as nat);
                assert(u as nat / pow2(l as nat) < 2 * n) by (nonlinear_arith)
                    requires
                        u < n * pow2((l + 1) as nat),
                        pow2((l + 1) as nat) == 2 * pow2(l as nat),
                        pow2(l as nat) > 0,
                ;
            } else {
                vstd::arithmetic::power2::lemma2_to64();
            }
        }
        let low_bits = CompactArray::new(l, n);
        let high_len = n + ((u as u64) >> (l as u64)) as usize + 1;
        let high_bits = BitMap::new(high_len);
        EliasFanoBuilder {
            u,
            n,
            l,
            low_bits,
            high_bits,
            last_value: 0,
            count: 0,
            values: Ghost(Seq::empty()),
        }
    }

    /// Appends `value`: refused when `n` values were given, when it is not
    /// below `u`, or when it is smaller than the previous one, in this order.
    pub fn push(&mut self, value: usize) -> (r: Result<(), EliasFanoError>)
        requires
            old(self).wf(),
        ensures
            final(self).wf(),
            final(self).n() == old(self).n(),
            final(self).u() == old(self).u(),
            old(self)@.len() == old(self).n() ==> r == Err::<(), EliasFanoError>(EliasFanoError::TooManyValues),
            old(self)@.len() < old(self).n() && value >= old(self).u() ==> r == Err::<(), EliasFanoError>(EliasFanoError::ValueTooLarge),
            old(self)@.len() < old(self).n() && value < old(self).u() && old(self)@.len() > 0 && value < old(self)@.last()
                ==> r == Err::<(), EliasFanoError>(EliasFanoError::NotMonotone),
            r.is_ok() <==> (old(self)@.len() < old(self).n() && value < old(self).u() && (old(self)@.len() == 0 || value >= old(self)@.last())),
            r.is_ok() ==> final(self)@ == old(self)@.push(value),
            r.is_ok() ==> final(self).low() == old(self).low().update(
                old(self)@.len() as int,
                low_part(value, old(self).low_width()),
            ),
            r.is_ok() ==> final(self).high() == old(self).high().update(
                high_pos(final(self)@, old(self).low_width(), old(self)@.len() as int),
                true,
            ),
            r.is_err() ==> final(self)@ == old(self)@ && final(self).low() == old(self).low()
                && final(self).high() == old(self).high(),
            final(self).low_width() == old(self).low_width(),
    {
        if self.count == self.n {
            return Err(EliasFanoError::TooManyValues);
        }
        if value >= self.u {
            return Err(EliasFanoError::ValueTooLarge);
        }
        if value < self.last_value {
            return Err(EliasFanoError::NotMonotone);
        }
        self.push_unchecked(value);
        Ok(())
    }

    /// Appends `value`, which must fit: fewer than `n` values so far, below
    /// `u`, and no smaller than the previous one.
    pub fn push_unchecked(&mut self, value: usize)
        requires
            old(self).wf(),
            old(self)@.len() < old(self).n(),
            value < old(self).u(),
            old(self)@.len() == 0 || value >= old(self)@.last(),
        ensures
            final(self).wf(),
            final(self).n() == old(self).n(),
            final(self).u() == old(self).u(),
            final(self)@ == old(self)@.push(value),
            final(self).low_width() == old(self).low_width(),
            final(self).low() == old(self).low().update(
                old(self)@.len() as int,
                low_part(value, old(self).low_width()),
            ),
            final(self).high() == old(self).high().update(
                high_pos(final(self)@, old(self).low_width(), old(self)@.len() as int),
                true,
            ),
    {
        let ghost v0 = self.values@;
        let ghost hb0 = self.high_bits@;
        let l = self.l;
        let vv = value as u64;
        proof {
            lemma_split_value(vv, l as u64);
            vstd::arithmetic::power2::lemma_pow2_pos(l as nat);
        }
        let low = vv & ((1u64 << (l as u64)) - 1);
        self.low_bits.set(self.count, low);
        let ub = self.u as u64;
        proof {
            assert((vv >> (l as u64)) <= (ub >> (l as u64))) by (bit_vector)
                requires
                    vv < ub,
            ;
            assert(hb0.len() == self.n + (ub >> (l as u64)) + 1);
            assert(hb0.len() <= MAX_BITS);
        }
        let high = ((vv >> (l as u64)) as usize) + self.count;
        let ghost v1 = v0.push(value);
        proof {
            assert(high == high_pos(v1, l as nat, v0.len() as int));
            if v0.len() > 0 {
                let prev = v0.last();
                assert(((prev as u64) >> (l as u64)) <= (vv >> (l as u64))) by (bit_vector)
                    requires
                        prev as u64 <= vv,
                ;
                assert(high_pos(v0, l as nat, v0.len() - 1) < high);
            }
        }
        self.high_bits.set(high, true);
        self.count = self.count + 1;
        self.last_value = value;
        self.values = Ghost(v1);
        proof {
            let hb1 = self.high_bits@;
            let c = v0.len() as int;
            assert forall|k: int| 0 <= k < v1.len() implies #[trigger] is_select(hb1, k as nat, high_pos(v1, l as nat, k)) by {
                if k < c {
                    assert(v1[k] == v0[k]);
                    assert(is_select(hb0, k as nat, high_pos(v0, l as nat, k)));
                    let pk = high_pos(v0, l as nat, k);
                    if c > 0 {
                        assert(v0[k] <= v0[c - 1]);
                        let a = v0[k];
                        let b = v0[c - 1];
                        assert(((a as u64) >> (l as u64)) <= ((b as u64) >> (l as u64))) by (bit_vector)
                            requires
                                a as u64 <= b as u64,
                        ;
                    }
                    assert(pk < high);
                    assert(hb1.subrange(0, pk) =~= hb0.subrange(0, pk));
                } else {
                    if c > 0 {
                        let last = high_pos(v0, l as nat, c - 1);
                        assert(is_select(hb0, (c - 1) as nat, last));
                        lemma_count_step(hb0, last);
                        lemma_count_flat(hb0, last + 1, high as int);
                    } else {
                        lemma_count_flat(hb0, 0, high as int);
                        assert(hb0.subrange(0, 0) =~= Seq::<bool>::empty());
                    }
                    assert(hb1.subrange(0, high as int) =~= hb0.subrange(0, high as int));
                }
            }
            assert forall|k: int| 0 <= k < v1.len() implies #[trigger] v1[k] < self.u by {
                if k < c {
                    assert(v1[k] == v0[k]);
                }
            }
            assert forall|k: int| 0 <= k < v1.len() implies #[trigger] self.low_bits@[k] == low_part(v1[k], l as nat) by {
                if k < c {
                    assert(v1[k] == v0[k]);
                }
            }
            assert forall|i: int, j: int| 0 <= i <= j < v1.len() implies v1[i] <= v1[j] by {
                if j < c {
                    assert(v1[i] == v0[i] && v1[j] == v0[j]);
                } else if i < c {
                    assert(v1[i] == v0[i]);
                    assert(v0[i] <= v0[c - 1]);
                }
            }
            assert forall|p: int|
                0 <= p < hb1.len() && (v1.len() == 0 || p > high_pos(v1, l as nat, v1.len() - 1)) implies !#[trigger] hb1[p] by {
                if c > 0 {
                    assert(high_pos(v0, l as nat, c - 1) < high);
                }
            }
        }
    }

    /// The finished sequence; all `n` values must have been given.
    pub fn build(self) -> (r: EliasFano)
        requires
            self.wf(),
            self@.len() == self.n(),
        ensures
            r.wf(),
            r@ == self@,
            r.bound() == self.u(),
            r.low_width() == self.low_width(),
    {
        let ghost v = self.values@;
        let ghost l = self.l as nat;
        let ghost hb = self.high_bits@;
        proof {
            if v.len() > 0 {
                let last = high_pos(v, l, v.len() - 1);
                assert(is_select(hb, (v.len() - 1) as nat, last));
                lemma_count_step(hb, last);
                lemma_count_flat(hb, last + 1, hb.len() as int);
            } else {
                lemma_count_flat(hb, 0, hb.len() as int);
                assert(hb.subrange(0, 0) =~= Seq::<bool>::empty());
            }
            assert(hb.subrange(0, hb.len() as int) =~= hb);
        }
        let counted = self.high_bits.with_count(self.n);
        let high_bits = SimpleSelectConst::new(counted, 10, 2);
        EliasFano {
            u: self.u,
            n: self.n,
            l: self.l,
            low_bits: self.low_bits,
            high_bits,
            values: Ghost(v),
        }
    }
}

/// The values that Elias–Fano parts stand for: value `k` is the position of
/// the one of rank `k` in the high bits, minus `k`, shifted left by `l` and
/// joined with low part `k`.
pub open spec fn decoded_values(high: Seq<bool>, low: Seq<u64>, l: nat, n: nat) -> Seq<usize> {
    Seq::new(
        n,
        |k: int| (((((choose|p: int| #[trigger] is_select(high, k as nat, p)) - k) as u64) << (l as u64)) | low[k]) as usize,
    )
}

/// A monotone sequence in Elias–Fano form, with a select index on the high
/// bits.
pub struct EliasFano {
    u: usize,
    n: usize,
    l: usize,
    low_bits: CompactArray,
    high_bits: SimpleSelectConst,
    values: Ghost<Seq<usize>>,
}

impl View for EliasFano {
    type V = Seq<usize>;

    closed spec fn view(&self) -> Seq<usize> {
        self.values@
    }
}

impl EliasFano {
    /// The bound the values stay below.
    pub closed spec fn bound(&self) -> nat {
        self.u as nat
    }

    /// The number of low bits of each value.
    pub closed spec fn low_width(&self) -> nat {
        self.l as nat
    }

    pub closed spec fn wf(&self) -> bool {
        let v = self.values@;
        let l = self.l as nat;
        let hb = self.high_bits@;
        &&& l < 64
        &&& is_low_width(self.n as nat, self.u as nat, l)
        &&& self.n == v.len()
        &&& hb.len() == self.n + ((self.u as u64) >> (l as u64)) + 1
        &&& monotone(v)
        &&& forall|k: int| 0 <= k < v.len() ==> #[trigger] v[k] < self.u
        &&& self.low_bits.wf()
        &&& self.low_bits.width() == l
        &&& self.low_bits@.len() == self.n
        &&& forall|k: int| 0 <= k < v.len() ==> #[trigger] self.low_bits@[k] == low_part(v[k], l)
        &&& self.high_bits.wf()
        &&& count_true(hb) == self.n
        &&& forall|k: int| 0 <= k < v.len() ==> #[trigger] is_select(hb, k as nat, high_pos(v, l, k))
    }

    /// A sequence made of its parts, which must encode a monotone sequence
    /// of `n` values below `u` with `l` low bits.
    pub fn from_raw_parts(
        u: usize,
        n: usize,
        l: usize,
        low_bits: CompactArray,
        high_bits: SimpleSelectConst,
    ) -> (r: Self)
        requires
            l < 64,
            is_low_width(n as nat, u as nat, l as nat),
            low_bits.wf(),
            low_bits.width() == l,
            low_bits@.len() == n,
            high_bits.wf(),
            count_true(high_bits@) == n,
            high_bits@.len() == n + ((u as u64) >> (l as u64)) + 1,
            monotone(decoded_values(high_bits@, low_bits@, l as nat, n as nat)),
            forall|k: int| 0 <= k < n ==> #[trigger] decoded_values(high_bits@, low_bits@, l as nat, n as nat)[k] < u,
            forall|k: int|
                0 <= k < n ==> #[trigger] is_select(
                    high_bits@,
                    k as nat,
                    high_pos(decoded_values(high_bits@, low_bits@, l as nat, n as nat), l as nat, k),
                ),
            forall|k: int|
                0 <= k < n ==> #[trigger] low_bits@[k] == low_part(
                    decoded_values(high_bits@, low_bits@, l as nat, n as nat)[k],
                    l as nat,
                ),
        ensures
            r.wf(),
            r@ == decoded_values(high_bits@, low_bits@, l as nat, n as nat),
            r.bound() == u,
            r.low_width() == l,
    {
        let ghost values = decoded_values(high_bits@, low_bits@, l as nat, n as nat);
        EliasFano { u, n, l, low_bits, high_bits, values: Ghost(values) }
    }

    /// The number of values.
    pub fn len(&self) -> (r: usize)
        requires
            self.wf(),
        ensures
            r == self@.len(),
    {
        self.n
    }

    pub fn is_empty(&self) -> (r: bool)
        requires
            self.wf(),
        ensures
            r == (self@.len() == 0),
    {
        self.n == 0
    }

    /// The bound, the number of values, the number of low bits, the low
    /// bits and the high bits.
    pub fn into_raw_parts(self) -> (r: (usize, usize, usize, CompactArray, SimpleSelectConst))
        requires
            self.wf(),
        ensures
            r.0 == self.bound(),
            r.1 == self@.len(),
            r.2 == self.low_width(),
            is_low_width(r.1 as nat, r.0 as nat, r.2 as nat),
            r.2 < 64,
            r.4@.len() == r.1 + ((r.0 as u64) >> (r.2 as u64)) + 1,
            r.3.wf(),
            r.3@.len() == self@.len(),
            r.3.width() == r.2,
            forall|k: int| 0 <= k < self@.len() ==> #[trigger] r.3@[k] == low_part(self@[k], r.2 as nat),
            r.4.wf(),
            count_true(r.4@) == self@.len(),
            forall|k: int| 0 <= k < self@.len() ==> #[trigger] is_select(r.4@, k as nat, high_pos(self@, r.2 as nat, k)),
    {
        (self.u, self.n, self.l, self.low_bits, self.high_bits)
    }

    /// Value `index`: the rank of its high bit gives the high part, the
    /// compact array the low part.
    pub fn get_unchecked(&self, index: usize) -> (r: usize)
        requires
            self.wf(),
            index < self@.len(),
        ensures
            r == self@[index as int],
    {
        let ghost v = self.values@;
        let l = self.l;
        let ghost k: int = index as int;
        proof {
            assert(is_select(self.high_bits@, k as nat, high_pos(v, l as nat, k)));
            lemma_count_true_bound(self.high_bits@);
        }
        let p = self.high_bits.select_unchecked(index);
        proof {
            lemma_select_unique(self.high_bits@, index as nat, p as int, high_pos(v, l as nat, k));
        }
        let high = (p - index) as u64;
        let low = self.low_bits.get(index);
        proof {
            lemma_split_value(v[index as int] as u64, l as u64);
        }
        ((high << (l as u64)) | low) as usize
    }

    /// Value `index`, if there is one.
    pub fn get(&self, index: usize) -> (r: Option<usize>)
        requires
            self.wf(),
        ensures
            r.is_none() <==> index >= self@.len(),
            r matches Some(x) ==> x == self@[index as int],
    {
        if index >= self.n {
            None
        } else {
            Some(self.get_unchecked(index))
        }
    }
}

} // verus!
