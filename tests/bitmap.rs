use sux::bitmap::{ones_delta, with_bit, BitMap, CountingBitmap};
use sux::bits::DivCeilUnchecked;

#[test]
fn bitmap_set_get() {
    let mut b = BitMap::new(130);
    assert_eq!(b.len(), 130);
    assert_eq!(b.count_ones(), 0);
    b.set(0, true);
    b.set(64, true);
    b.set(129, true);
    assert!(b.get(0) && b.get(64) && b.get(129));
    assert!(!b.get(1) && !b.get(128));
    assert_eq!(b.count_ones(), 3);
    b.set(64, false);
    assert!(!b.get(64));
    assert_eq!(b.count_ones(), 2);
}

#[test]
fn bitmap_fill_keeps_padding_zero() {
    for len in [0usize, 1, 63, 64, 65, 130] {
        let mut b = BitMap::new(len);
        b.fill(true);
        for i in 0..len {
            assert!(b.get(i));
        }
        assert_eq!(b.count_ones(), len);
        let (words, l) = b.into_raw_parts();
        assert_eq!(l, len);
        assert_eq!(words.len(), (len + 63) / 64);
        if len % 64 != 0 {
            assert_eq!(words[words.len() - 1] >> (len % 64), 0);
        }
        let mut b = BitMap::from_raw_parts(words, l);
        b.fill(false);
        assert_eq!(b.count_ones(), 0);
        assert!(b.as_ref().iter().all(|w| *w == 0));
    }
}

#[test]
fn counting_bitmap_select_both_ways() {
    let bits = [true, false, true, true, false, true, false, true];
    let mut b = BitMap::new(bits.len());
    for (i, &x) in bits.iter().enumerate() {
        b.set(i, x);
    }
    let c: CountingBitmap = b.with_count(5);
    assert_eq!(c.count_ones(), 5);
    let ones: Vec<Option<usize>> = (0..6).map(|r| c.select(r)).collect();
    assert_eq!(ones, vec![Some(0), Some(2), Some(3), Some(5), Some(7), None]);
    let zeros: Vec<Option<usize>> = (0..4).map(|r| c.select_zero(r)).collect();
    assert_eq!(zeros, vec![Some(1), Some(4), Some(6), None]);
    assert_eq!(c.select_unchecked_hinted(3, 4, 3), 5);
    assert_eq!(c.select_zero_unchecked_hinted(2, 5, 2), 6);
    let (words, len, ones) = c.into_raw_parts();
    assert_eq!((words, len, ones), (vec![0b1010_1101u64], 8, 5));
}

#[test]
fn counting_bitmap_new_is_empty_of_ones() {
    let c = CountingBitmap::new(100);
    assert_eq!(c.len(), 100);
    assert_eq!(c.count_ones(), 0);
    assert_eq!(c.select(0), None);
    assert_eq!(c.select_zero(99), Some(99));
    assert!(!c.get(5));
}

#[test]
fn word_with_bit() {
    assert_eq!(with_bit(0, 3, true), 8);
    assert_eq!(with_bit(0xFF, 0, false), 0xFE);
    assert_eq!(with_bit(0xFF, 7, true), 0xFF);
    assert_eq!(with_bit(0, 63, true), 1 << 63);
}

#[test]
fn div_ceil() {
    assert_eq!(5usize.div_ceil_unchecked(2), 3);
    assert_eq!(10usize.div_ceil_unchecked(3), 4);
    assert_eq!(9u64.div_ceil_unchecked(3), 3);
}

#[test]
fn counting_bitmap_set_keeps_count() {
    let mut c = CountingBitmap::new(70);
    c.set(3, true);
    c.set(65, true);
    c.set(3, true);
    assert_eq!(c.count_ones(), 2);
    c.set(3, false);
    c.set(4, false);
    assert_eq!(c.count_ones(), 1);
    assert_eq!(c.select(0), Some(65));
    let b = c.into_bitmap();
    assert_eq!(b.count_ones(), 1);
    let c = CountingBitmap::from_bitmap(b);
    assert_eq!(c.count_ones(), 1);
}

#[test]
fn ones_delta_of_a_bit_change() {
    assert_eq!(ones_delta(0, 5, true), 1);
    assert_eq!(ones_delta(1 << 5, 5, false), -1);
    assert_eq!(ones_delta(1 << 5, 5, true), 0);
    assert_eq!(ones_delta(0, 5, false), 0);
}
