//! Biased variable-length byte codes for integers.
//!
//! The number of leading ones of the first byte tells the width of a code,
//! from one byte (a leading zero) to nine bytes (a first byte of `0xFF`). A
//! code of width `k < 9` carries `v - upper_bound(k - 1)` in its low `7 k`
//! bits, big-endian; a nine-byte code carries `v` itself in its last eight
//! bytes.

use vstd::prelude::*;

verus! {

/// `128` to the power `k`.
pub open spec fn pow128(k: nat) -> nat
    decreases k,
{
    if k == 0 {
        1
    } else {
        128 * pow128((k - 1) as nat)
    }
}

/// The smallest value whose code is wider than `k` bytes: the sum of
/// `128^j` for `j` from 1 to `k`.
pub open spec fn upper_bound(k: nat) -> nat
    decreases k,
{
    if k == 0 {
        0
    } else {
        upper_bound((k - 1) as nat) + pow128(k)
    }
}

/// The smallest width, starting from `k`, whose bound exceeds `v`; nine if
/// none of the first eight does.
pub open spec fn width_from(v: u64, k: nat) -> nat
    decreases 9 - k,
{
    if k >= 9 {
        9
    } else if v < upper_bound(k) {
        k
    } else {
        width_from(v, k + 1)
    }
}

/// The number of bytes of the code of `v`.
pub open spec fn vbyte_len(v: u64) -> nat {
    width_from(v, 1)
}

/// The leading ones that announce a code of width `k`.
pub open spec fn vbyte_prefix(k: nat) -> u8 {
    if k <= 1 {
        0x00
    } else if k == 2 {
        0x80
    } else if k == 3 {
        0xC0
    } else if k == 4 {
        0xE0
    } else if k == 5 {
        0xF0
    } else if k == 6 {
        0xF8
    } else if k == 7 {
        0xFC
    } else if k == 8 {
        0xFE
    } else {
        0xFF
    }
}

/// The number carried by the code of `v`.
pub open spec fn vbyte_payload(v: u64) -> u64 {
    let k = vbyte_len(v);
    if k == 9 {
        v
    } else {
        (v - upper_bound((k - 1) as nat)) as u64
    }
}

/// Byte `i` of a code of width `k` carrying `w`.
pub open spec fn code_byte(w: u64, k: nat, i: nat) -> u8 {
    if i == 0 {
        if k == 9 {
            0xFF
        } else {
            vbyte_prefix(k) | ((w >> ((8 * (k - 1)) as u64)) as u8)
        }
    } else {
        (w >> ((8 * (k - 1 - i)) as u64)) as u8
    }
}

/// The code of `v`.
pub open spec fn vbyte(v: u64) -> Seq<u8> {
    Seq::new(vbyte_len(v), |i: int| code_byte(vbyte_payload(v), vbyte_len(v), i as nat))
}

/// The width of a code, read from its first byte.
pub open spec fn vbyte_width(x: u8) -> nat {
    if x < 0x80 {
        1
    } else if x < 0xC0 {
        2
    } else if x < 0xE0 {
        3
    } else if x < 0xF0 {
        4
    } else if x < 0xF8 {
        5
    } else if x < 0xFC {
        6
    } else if x < 0xFE {
        7
    } else if x < 0xFF {
        8
    } else {
        9
    }
}

/// The bits of a first byte of width `k` that belong to the payload.
pub open spec fn first_payload(x: u8, k: nat) -> u64 {
    if k >= 8 {
        0
    } else {
        (x & (0xFFu8 >> (k as u8))) as u64
    }
}

/// The payload bits of `b[0..i]`, read big-endian after `acc`, the bits of
/// the first byte.
pub open spec fn be_acc(b: Seq<u8>, acc: u64, i: nat) -> u64
    decreases i,
{
    if i <= 1 {
        acc
    } else {
        (be_acc(b, acc, (i - 1) as nat) << 8u64) | (b[i - 1] as u64)
    }
}

/// The value of the code at the start of `b`.
pub open spec fn vbyte_value(b: Seq<u8>) -> u64 {
    let k = vbyte_width(b[0]);
    let acc = be_acc(b, first_payload(b[0], k), k);
    if k == 9 {
        acc
    } else {
        (acc + upper_bound((k - 1) as nat)) as u64
    }
}

/// `upper_bound(k)` for `k < 9`.
fn upper_bound_of(k: u64) -> (r: u64)
    requires
        k < 9,
    ensures
        r == upper_bound(k as nat),
{
    proof {
        reveal_with_fuel(upper_bound, 9);
        reveal_with_fuel(pow128, 9);
    }
    if k == 0 {
        0
    } else if k == 1 {
        128
    } else if k == 2 {
        16512
    } else if k == 3 {
        2113664
    } else if k == 4 {
        270549120
    } else if k == 5 {
        34630287488
    } else if k == 6 {
        4432676798592
    } else if k == 7 {
        567382630219904
    } else {
        72624976668147840
    }
}

/// The width of the code of `value`, and the number that the code carries
/// when the width is below nine.
fn width_and_rest(value: u64) -> (r: (u64, u64))
    ensures
        r.0 == vbyte_len(value),
        1 <= r.0 <= 9,
        r.0 < 9 ==> r.1 == value - upper_bound((r.0 - 1) as nat),
        r.0 < 9 ==> r.1 < pow128(r.0 as nat),
{
    let mut len: u64 = 1;
    let mut rest: u64 = value;
    let mut max: u64 = 128;
    proof {
        reveal_with_fuel(pow128, 2);
    }
    while len < 9 && rest >= max
        invariant
            1 <= len <= 9,
            max == pow128(len as nat),
            rest == value - upper_bound((len - 1) as nat),
            width_from(value, 1) == width_from(value, len as nat),
        decreases 9 - len,
    {
        proof {
            reveal_with_fuel(pow128, 10);
        }
        rest = rest - max;
        max = max * 128;
        len = len + 1;
    }
    (len, rest)
}

/// The number of bytes of the code of `value`.
pub fn encode_int_len(value: u64) -> (r: u64)
    ensures
        r == vbyte_len(value),
        r == vbyte(value).len(),
{
    width_and_rest(value).0
}

/// Appends the code of `value` to `data`.
pub fn encode_int(value: u64, data: &mut Vec<u8>)
    ensures
        final(data)@ == old(data)@ + vbyte(value),
{
    let (k, rest) = width_and_rest(value);
    let w: u64 = if k == 9 { value } else { rest };
    let first: u8 = if k == 9 {
        0xFF
    } else {
        prefix_of(k) | ((w >> (8 * (k - 1))) as u8)
    };
    data.push(first);
    let mut i: u64 = 1;
    while i < k
        invariant
            1 <= i <= k,
            k == vbyte_len(value),
            w == vbyte_payload(value),
            k <= 9,
            data@ == old(data)@ + vbyte(value).subrange(0, i as int),
        decreases k - i,
    {
        data.push((w >> (8 * (k - 1 - i))) as u8);
        i += 1;
        proof {
            assert(data@ =~= old(data)@ + vbyte(value).subrange(0, i as int));
        }
    }
    proof {
        assert(vbyte(value).subrange(0, k as int) =~= vbyte(value));
    }
}

proof fn lemma_width_from(v: u64, j: nat)
    requires
        1 <= j <= 9,
        v >= upper_bound((j - 1) as nat),
    ensures
        j <= width_from(v, j) <= 9,
        v >= upper_bound((width_from(v, j) - 1) as nat),
        width_from(v, j) < 9 ==> v < upper_bound(width_from(v, j)),
    decreases 9 - j,
{
    if j < 9 && v >= upper_bound(j) {
        lemma_width_from(v, j + 1);
    }
}

/// Decoding the code of any value, whatever follows it, gives back the
/// value and the width of the code.
pub proof fn lemma_vbyte_round_trip(v: u64, rest: Seq<u8>)
    ensures
        vbyte_width((vbyte(v) + rest)[0]) == vbyte_len(v),
        vbyte_width((vbyte(v) + rest)[0]) == vbyte(v).len(),
        vbyte_value(vbyte(v) + rest) == v,
{
    reveal_with_fuel(upper_bound, 9);
    reveal_with_fuel(pow128, 9);
    reveal_with_fuel(be_acc, 10);
    lemma_width_from(v, 1);
    let k = vbyte_len(v);
    let w = vbyte_payload(v);
    let c = vbyte(v) + rest;
    assert forall|i: int| 0 <= i < k implies c[i] == #[trigger] code_byte(w, k, i as nat) by {}
    if k == 1 {
        let b0 = c[0];
        assert(b0 < 0x80u8 && ((b0 & (0xFFu8 >> 1u8)) as u64) == w) by (bit_vector)
                requires
                    b0 == 0x00u8 | ((w >> 0u64) as u8),
                    w < 0x80,
            ;
    } else if k == 2 {
        let b0 = c[0];
        let b1 = c[1];
        assert(0x80u8 <= b0 && b0 < 0xC0u8 && ((((b0 & (0xFFu8 >> 2u8)) as u64) << 8u64) | (b1 as u64)) == w) by (bit_vector)
                requires
                    b0 == 0x80u8 | ((w >> 8u64) as u8),
                    b1 == (w >> 0u64) as u8,
                    w < 0x4000,
            ;
    } else if k == 3 {
        let b0 = c[0];
        let b1 = c[1];
        let b2 = c[2];
        assert(0xC0u8 <= b0 && b0 < 0xE0u8 && ((((((b0 & (0xFFu8 >> 3u8)) as u64) << 8u64) | (b1 as u64)) << 8u64) | (b2 as u64)) == w) by (bit_vector)
                requires
                    b0 == 0xC0u8 | ((w >> 16u64) as u8),
                    b1 == (w >> 8u64) as u8,
                    b2 == (w >> 0u64) as u8,
                    w < 0x20_0000,
            ;
    } else if k == 4 {
        let b0 = c[0];
        let b1 = c[1];
        let b2 = c[2];
        let b3 = c[3];
        assert(0xE0u8 <= b0 && b0 < 0xF0u8 && ((((((((b0 & (0xFFu8 >> 4u8)) as u64) << 8u64) | (b1 as u64)) << 8u64) | (b2 as u64)) << 8u64) | (b3 as u64)) == w) by (bit_vector)
                requires
                    b0 == 0xE0u8 | ((w >> 24u64) as u8),
                    b1 == (w >> 16u64) as u8,
                    b2 == (w >> 8u64) as u8,
                    b3 == (w >> 0u64) as u8,
                    w < 0x1000_0000,
            ;
    } else if k == 5 {
        let b0 = c[0];
        let b1 = c[1];
        let b2 = c[2];
        let b3 = c[3];
        let b4 = c[4];
        assert(0xF0u8 <= b0 && b0 < 0xF8u8 && ((((((((((b0 & (0xFFu8 >> 5u8)) as u64) << 8u64) | (b1 as u64)) << 8u64) | (b2 as u64)) << 8u64) | (b3 as u64)) << 8u64) | (b4 as u64)) == w) by (bit_vector)
                requires
                    b0 == 0xF0u8 | ((w >> 32u64) as u8),
                    b1 == (w >> 24u64) as u8,
                    b2 == (w >> 16u64) as u8,
                    b3 == (w >> 8u64) as u8,
                    b4 == (w >> 0u64) as u8,
                    w < 0x8_0000_0000,
            ;
    } else if k == 6 {
        let b0 = c[0];
        let b1 = c[1];
        let b2 = c[2];
        let b3 = c[3];
        let b4 = c[4];
        let b5 = c[5];
        assert(0xF8u8 <= b0 && b0 < 0xFCu8 && ((((((((((((b0 & (0xFFu8 >> 6u8)) as u64) << 8u64) | (b1 as u64)) << 8u64) | (b2 as u64)) << 8u64) | (b3 as u64)) << 8u64) | (b4 as u64)) << 8u64) | (b5 as u64)) == w) by (bit_vector)
                requires
                    b0 == 0xF8u8 | ((w >> 40u64) as u8),
                    b1 == (w >> 32u64) as u8,
                    b2 == (w >> 24u64) as u8,
                    b3 == (w >> 16u64) as u8,
                    b4 == (w >> 8u64) as u8,
                    b5 == (w >> 0u64) as u8,
                    w < 0x400_0000_0000,
            ;
    } else if k == 7 {
        let b0 = c[0];
        let b1 = c[1];
        let b2 = c[2];
        let b3 = c[3];
        let b4 = c[4];
        let b5 = c[5];
        let b6 = c[6];
        assert(0xFCu8 <= b0 && b0 < 0xFEu8 && ((((((((((((((b0 & (0xFFu8 >> 7u8)) as u64) << 8u64) | (b1 as u64)) << 8u64) | (b2 as u64)) << 8u64) | (b3 as u64)) << 8u64) | (b4 as u64)) << 8u64) | (b5 as u64)) << 8u64) | (b6 as u64)) == w) by (bit_vector)
                requires
                    b0 == 0xFCu8 | ((w >> 48u64) as u8),
                    b1 == (w >> 40u64) as u8,
                    b2 == (w >> 32u64) as u8,
                    b3 == (w >> 24u64) as u8,
                    b4 == (w >> 16u64) as u8,
                    b5 == (w >> 8u64) as u8,
                    b6 == (w >> 0u64) as u8,
                    w < 0x2_0000_0000_0000,
            ;
    } else if k == 8 {
        let b0 = c[0];
        let b1 = c[1];
        let b2 = c[2];
        let b3 = c[3];
        let b4 = c[4];
        let b5 = c[5];
        let b6 = c[6];
        let b7 = c[7];
        assert(0xFEu8 <= b0 && b0 < 0xFFu8 && ((((((((((((((0u64 << 8u64) | (b1 as u64)) << 8u64) | (b2 as u64)) << 8u64) | (b3 as u64)) << 8u64) | (b4 as u64)) << 8u64) | (b5 as u64)) << 8u64) | (b6 as u64)) << 8u64) | (b7 as u64)) == w) by (bit_vector)
                requires
                    b0 == 0xFEu8 | ((w >> 56u64) as u8),
                    b1 == (w >> 48u64) as u8,
                    b2 == (w >> 40u64) as u8,
                    b3 == (w >> 32u64) as u8,
                    b4 == (w >> 24u64) as u8,
                    b5 == (w >> 16u64) as u8,
                    b6 == (w >> 8u64) as u8,
                    b7 == (w >> 0u64) as u8,
                    w < 0x100_0000_0000_0000,
            ;
    } else if k == 9 {
        let b0 = c[0];
        let b1 = c[1];
        let b2 = c[2];
        let b3 = c[3];
        let b4 = c[4];
        let b5 = c[5];
        let b6 = c[6];
        let b7 = c[7];
        let b8 = c[8];
        assert(((((((((((((((((0u64 << 8u64) | (b1 as u64)) << 8u64) | (b2 as u64)) << 8u64) | (b3 as u64)) << 8u64) | (b4 as u64)) << 8u64) | (b5 as u64)) << 8u64) | (b6 as u64)) << 8u64) | (b7 as u64)) << 8u64) | (b8 as u64)) == w) by (bit_vector)
                requires
                    b0 == 0xFFu8,
                    b1 == (w >> 56u64) as u8,
                    b2 == (w >> 48u64) as u8,
                    b3 == (w >> 40u64) as u8,
                    b4 == (w >> 32u64) as u8,
                    b5 == (w >> 24u64) as u8,
                    b6 == (w >> 16u64) as u8,
                    b7 == (w >> 8u64) as u8,
                    b8 == (w >> 0u64) as u8,
            ;
    }
}

/// The width of a code, read from its first byte.
fn width_of(x: u8) -> (r: usize)
    ensures
        r == vbyte_width(x),
{
    if x < 0x80 {
        1
    } else if x < 0xC0 {
        2
    } else if x < 0xE0 {
        3
    } else if x < 0xF0 {
        4
    } else if x < 0xF8 {
        5
    } else if x < 0xFC {
        6
    } else if x < 0xFE {
        7
    } else if x < 0xFF {
        8
    } else {
        9
    }
}

/// Decodes the code that starts at `data[pos]`: its value and the position
/// just past it.
pub fn decode_int(data: &[u8], pos: usize) -> (r: (u64, usize))
    requires
        pos < data@.len(),
        pos + vbyte_width(data@[pos as int]) <= data@.len(),
    ensures
        r.1 == pos + vbyte_width(data@[pos as int]),
        r.0 == vbyte_value(data@.subrange(pos as int, data@.len() as int)),
{
    let ghost b = data@.subrange(pos as int, data@.len() as int);
    let x = data[pos];
    let k = width_of(x);
    let mut acc: u64 = if k >= 8 {
        0
    } else {
        (x & (0xFFu8 >> (k as u8))) as u64
    };
    proof {
        if k < 8 {
            let kk = k as u8;
            assert(((x & (0xFFu8 >> kk)) as u64) >> ((8 - kk) as u64) == 0) by (bit_vector)
                requires
                    1 <= kk < 8,
            ;
        } else if k == 8 {
            assert(0u64 >> 0u64 == 0) by (bit_vector);
        }
    }
    let n = data.len();
    let mut i: usize = 1;
    while i < k
        invariant
            1 <= i <= k,
            k == vbyte_width(b[0]),
            x == b[0],
            pos + k <= data@.len(),
            n == data@.len(),
            b == data@.subrange(pos as int, data@.len() as int),
            acc == be_acc(b, first_payload(x, k as nat), i as nat),
            k <= 8 ==> acc >> ((8 * i - k) as u64) == 0,
        decreases k - i,
    {
        let byte = data[pos + i];
        proof {
            if k <= 8 {
                let s = (8 * i - k) as u64;
                assert(((acc << 8u64) | (byte as u64)) >> (s + 8) == 0) by (bit_vector)
                    requires
                        acc >> s == 0,
                        s <= 56,
                ;
            }
        }
        acc = (acc << 8) | (byte as u64);
        i += 1;
    }
    if k == 9 {
        (acc, pos + 9)
    } else {
        let ub = upper_bound_of((k - 1) as u64);
        proof {
            let s = (8 * k - k) as u64;
            assert(acc < 0x100_0000_0000_0000) by (bit_vector)
                requires
                    acc >> s == 0,
                    s <= 56,
            ;
            reveal_with_fuel(upper_bound, 9);
            reveal_with_fuel(pow128, 9);
        }
        (acc + ub, pos + k)
    }
}

fn prefix_of(k: u64) -> (r: u8)
    requires
        1 <= k <= 8,
    ensures
        r == vbyte_prefix(k as nat),
{
    if k == 1 {
        0x00
    } else if k == 2 {
        0x80
    } else if k == 3 {
        0xC0
    } else if k == 4 {
        0xE0
    } else if k == 5 {
        0xF0
    } else if k == 6 {
        0xF8
    } else if k == 7 {
        0xFC
    } else {
        0xFE
    }
}

} // verus!
