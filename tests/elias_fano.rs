use sux::compact_array::CompactArray;
use sux::elias_fano::{EliasFanoBuilder, EliasFanoError};

#[test]
fn elias_fano_tiny() {
    let values = [0usize, 1, 2, 5, 7, 11];
    let mut b = EliasFanoBuilder::new(6, 12);
    for v in values {
        assert_eq!(b.push(v), Ok(()));
    }
    let ef = b.build();
    assert_eq!(ef.len(), 6);
    assert_eq!(ef.get(3), Some(5));
    assert_eq!(ef.get(5), Some(11));
    assert_eq!(ef.get(6), None);
    for (i, v) in values.iter().enumerate() {
        assert_eq!(ef.get_unchecked(i), *v);
    }
    let (u, n, l, low, high) = ef.into_raw_parts();
    assert_eq!((u, n, l), (12, 6, 1));
    assert_eq!(low.bit_width(), 1);
    let high = high.into_inner();
    assert_eq!(high.len(), 13);
    let ones: Vec<usize> = (0..high.len()).filter(|&i| high.get(i)).collect();
    assert_eq!(ones, vec![0, 1, 3, 5, 7, 10]);
}

#[test]
fn elias_fano_errors() {
    let mut b = EliasFanoBuilder::new(2, 10);
    assert_eq!(b.push(10), Err(EliasFanoError::ValueTooLarge));
    assert_eq!(b.push(5), Ok(()));
    assert_eq!(b.push(4), Err(EliasFanoError::NotMonotone));
    assert_eq!(b.push(5), Ok(()));
    assert_eq!(b.push(6), Err(EliasFanoError::TooManyValues));
    let ef = b.build();
    assert_eq!(ef.get(0), Some(5));
    assert_eq!(ef.get(1), Some(5));
}

#[test]
fn elias_fano_reproduces_monotone_sequences() {
    for (n, u, step) in [(1000usize, 5000usize, 3usize), (1000, 1000, 1), (500, 100, 0), (300, 1 << 40, 1 << 30)] {
        let values: Vec<usize> = (0..n).map(|i| (i * step) % u).collect();
        let mut values = values;
        values.sort();
        let mut b = EliasFanoBuilder::new(n, u);
        for &v in values.iter() {
            b.push_unchecked(v);
        }
        let ef = b.build();
        assert!(!ef.is_empty());
        for (i, v) in values.iter().enumerate() {
            assert_eq!(ef.get(i), Some(*v));
        }
    }
}

#[test]
fn elias_fano_empty() {
    let ef = EliasFanoBuilder::new(0, 10).build();
    assert!(ef.is_empty());
    assert_eq!(ef.get(0), None);
}

#[test]
fn compact_array_packs_values() {
    let mut a = CompactArray::new(5, 20);
    assert_eq!(a.bit_width(), 5);
    assert_eq!(a.len(), 20);
    for i in 0..20 {
        a.set(i, (i as u64 * 7) % 32);
    }
    for i in 0..20 {
        assert_eq!(a.get(i), (i as u64 * 7) % 32);
    }
    a.set(3, 31);
    assert_eq!(a.get(3), 31);
    assert_eq!(a.get(2), 14);
    assert_eq!(a.get(4), 28);
    let mut w = CompactArray::new(64, 2);
    w.set(1, u64::MAX);
    assert_eq!(w.get(1), u64::MAX);
    assert_eq!(w.get(0), 0);
    let z = CompactArray::new(0, 3);
    assert_eq!(z.get(2), 0);
}

#[test]
fn elias_fano_raw_parts_round_trip() {
    let values = [0usize, 1, 2, 5, 7, 11];
    let mut b = EliasFanoBuilder::new(6, 12);
    for v in values {
        b.push(v).unwrap();
    }
    let (u, n, l, low, high) = b.build().into_raw_parts();
    let lows: Vec<u64> = (0..n).map(|i| low.get(i)).collect();
    assert_eq!(lows, vec![0, 1, 0, 1, 1, 1]);
    let ef = sux::elias_fano::EliasFano::from_raw_parts(u, n, l, low, high);
    for (i, v) in values.iter().enumerate() {
        assert_eq!(ef.get(i), Some(*v));
    }
}
