//! Fixed-length arrays of `w`-bit integers packed back to back in a bit
//! vector: element `i` occupies bits `i w` to `i w + w - 1`, least
//! significant first.

use vstd::prelude::*;
use vstd::arithmetic::power2::pow2;
use crate::bitmap::{BitMap, MAX_BITS};

verus! {

/// The number whose binary digits, least significant first, are the `w`
/// bits of `s` from `start`.
pub open spec fn field_value(s: Seq<bool>, start: int, w: nat) -> nat
    decreases w,
{
    if w == 0 {
        0
    } else {
        field_value(s, start, (w - 1) as nat) + if s[start + w - 1] {
            pow2((w - 1) as nat)
        } else {
            0
        }
    }
}

proof fn lemma_field_frame(a: Seq<bool>, b: Seq<bool>, start: int, w: nat)
    requires
        forall|k: int| start <= k < start + w ==> a[k] == b[k],
    ensures
        field_value(a, start, w) == field_value(b, start, w),
    decreases w,
{
    if w > 0 {
        lemma_field_frame(a, b, start, (w - 1) as nat);
    }
}

proof fn lemma_field_bound(s: Seq<bool>, start: int, w: nat)
    ensures
        field_value(s, start, w) < pow2(w),
    decreases w,
{
    vstd::arithmetic::power2::lemma_pow2_pos(w);
    if w > 0 {
        lemma_field_bound(s, start, (w - 1) as nat);
        vstd::arithmetic::power2::lemma_pow2_unfold(w);
    }
}

/// Bits holding the binary digits of `v` hold `v` modulo `2^j`.
proof fn lemma_field_of(s: Seq<bool>, start: int, v: u64, j: nat)
    requires
        j <= 64,
        forall|k: int| 0 <= k < j ==> #[trigger] s[start + k] == ((v >> (k as u64)) & 1 == 1),
    ensures
        field_value(s, start, j) == v as nat % pow2(j),
    decreases j,
{
    vstd::arithmetic::power2::lemma_pow2_pos(j);
    if j == 0 {
        vstd::arithmetic::power2::lemma2_to64();
        assert(v as nat % 1 == 0);
    } else {
        let i = (j - 1) as nat;
        lemma_field_of(s, start, v, i);
        vstd::arithmetic::power2::lemma_pow2_pos(i);
        vstd::arithmetic::power2::lemma_pow2_unfold(j);
        vstd::arithmetic::div_mod::lemma_mod_breakdown(v as int, pow2(i) as int, 2);
        vstd::bits::lemma_u64_shr_is_div(v, i as u64);
        let k: int = i as int;
        let q = v >> (k as u64);
        assert((q & 1 == 1) == (q % 2 == 1)) by (bit_vector);
        assert(s[start + k] == ((v >> (k as u64)) & 1 == 1));
        assert(pow2(i) * 2 == pow2(j));
        let d = (v as nat / pow2(i)) % 2;
        assert(d == if s[start + k] { 1nat } else { 0nat });
        assert(pow2(i) * d == if s[start + k] { pow2(i) } else { 0nat }) by (nonlinear_arith)
            requires
                d == if s[start + k] { 1nat } else { 0nat },
        ;
        assert(start + j - 1 == start + k);
    }
}

/// An array of `len` integers of `bit_width` bits each.
pub struct CompactArray {
    bits: BitMap,
    bit_width: usize,
    len: usize,
}

impl View for CompactArray {
    type V = Seq<u64>;

    open spec fn view(&self) -> Seq<u64> {
        Seq::new(
            self.size(),
            |i: int| field_value(self.bits()@, i * self.width(), self.width()) as u64,
        )
    }
}

impl CompactArray {
    pub closed spec fn bits(&self) -> BitMap {
        self.bits
    }

    /// The width of the elements.
    pub closed spec fn width(&self) -> nat {
        self.bit_width as nat
    }

    /// The number of elements.
    pub closed spec fn size(&self) -> nat {
        self.len as nat
    }

    pub open spec fn wf(&self) -> bool {
        &&& self.bits().wf()
        &&& self.width() <= 64
        &&& self.bits()@.len() == self.size() * self.width()
    }

    /// `len` zeros of `bit_width` bits.
    pub fn new(bit_width: usize, len: usize) -> (r: Self)
        requires
            bit_width <= 64,
            len * bit_width <= MAX_BITS,
        ensures
            r.wf(),
            r.width() == bit_width,
            r@ == Seq::new(len as nat, |i: int| 0u64),
    {
        let bits = BitMap::new(len * bit_width);
        let r = CompactArray { bits, bit_width, len };
        proof {
            assert forall|i: int| 0 <= i < len implies #[trigger] field_value(r.bits()@, i * bit_width, bit_width as nat) == 0 by {
                assert(i * bit_width + bit_width <= len * bit_width) by (nonlinear_arith)
                    requires
                        0 <= i < len,
                ;
                assert forall|k: int| i * bit_width <= k < i * bit_width + bit_width implies !r.bits()@[k] by {
                    assert(r.bits()@[k] == false);
                }
                lemma_field_zero(r.bits()@, i * bit_width, bit_width as nat);
            }
            assert(r@ =~= Seq::new(len as nat, |i: int| 0u64));
        }
        r
    }

    /// The width of the elements.
    pub fn bit_width(&self) -> (r: usize)
        ensures
            r == self.width(),
    {
        self.bit_width
    }

    /// The number of elements.
    pub fn len(&self) -> (r: usize)
        ensures
            r == self@.len(),
    {
        self.len
    }

    /// Element `index`.
    pub fn get(&self, index: usize) -> (r: u64)
        requires
            self.wf(),
            index < self@.len(),
        ensures
            r == self@[index as int],
    {
        let w = self.bit_width;
        proof {
            assert(index * w + w <= self.len * w) by (nonlinear_arith)
                requires
                    index < self.len,
            ;
        }
        let start = index * w;
        let mut acc: u64 = 0;
        let mut j: usize = 0;
        proof {
            vstd::arithmetic::power2::lemma_pow2_pos(0);
            vstd::arithmetic::power2::lemma2_to64();
        }
        while j < w
            invariant
                self.wf(),
                w == self.width(),
                start + w <= self.bits()@.len(),
                j <= w,
                acc as nat == field_value(self.bits()@, start as int, j as nat),
                acc < pow2(j as nat),
            decreases w - j,
        {
            let bit = self.bits.get(start + j);
            proof {
                vstd::bits::lemma_u64_pow2_no_overflow(j as nat);
                vstd::bits::lemma_u64_shl_is_mul(1, j as u64);
                vstd::arithmetic::power2::lemma_pow2_unfold((j + 1) as nat);
                vstd::arithmetic::power2::lemma2_to64();
                lemma_field_bound(self.bits()@, start as int, (j + 1) as nat);
                if j + 1 < 64 {
                    vstd::arithmetic::power2::lemma_pow2_strictly_increases((j + 1) as nat, 64);
                }
            }
            if bit {
                acc = acc + (1u64 << j as u64);
            }
            j += 1;
        }
        acc
    }

    /// Sets element `index` to `value`, which must fit in the width.
    pub fn set(&mut self, index: usize, value: u64)
        requires
            old(self).wf(),
            index < old(self)@.len(),
            (value as nat) < pow2(old(self).width()),
        ensures
            final(self).wf(),
            final(self).width() == old(self).width(),
            final(self)@ == old(self)@.update(index as int, value),
    {
        let w = self.bit_width;
        proof {
            assert(index * w + w <= self.len * w) by (nonlinear_arith)
                requires
                    index < self.len,
            ;
        }
        let start = index * w;
        let ghost bits_before = self.bits()@;
        let mut j: usize = 0;
        while j < w
            invariant
                self.bits().wf(),
                self.bit_width == old(self).bit_width,
                self.len == old(self).len,
                w == self.bit_width,
                w <= 64,
                start == index * w,
                start + w <= self.bits()@.len(),
                self.bits()@.len() == bits_before.len(),
                j <= w,
                forall|k: int| 0 <= k < j ==> #[trigger] self.bits()@[start + k] == ((value >> (k as u64)) & 1 == 1),
                forall|k: int| 0 <= k < bits_before.len() && (k < start || k >= start + w) ==> #[trigger] self.bits()@[k] == bits_before[k],
            decreases w - j,
        {
            self.bits.set(start + j, (value >> j as u64) & 1 == 1);
            j += 1;
        }
        proof {
            let bits_after = self.bits()@;
            lemma_field_of(bits_after, start as int, value, w as nat);
            vstd::arithmetic::div_mod::lemma_small_mod(value as nat, pow2(w as nat));
            assert forall|i: int| 0 <= i < self.len && i != index implies #[trigger] field_value(bits_after, i * w, w as nat) == field_value(bits_before, i * w, w as nat) by {
                assert(i * w + w <= start || i * w >= start + w) by (nonlinear_arith)
                    requires
                        i != index,
                        start == index * w,
                ;
                assert(i * w + w <= self.len * w) by (nonlinear_arith)
                    requires
                        0 <= i < self.len,
                ;
                lemma_field_frame(bits_before, bits_after, i * w, w as nat);
            }
            assert(self@ =~= old(self)@.update(index as int, value));
        }
    }
}

proof fn lemma_field_zero(s: Seq<bool>, start: int, w: nat)
    requires
        forall|k: int| start <= k < start + w ==> !s[k],
    ensures
        field_value(s, start, w) == 0,
    decreases w,
{
    if w > 0 {
        lemma_field_zero(s, start, (w - 1) as nat);
    }
}

} // verus!
