use rand::rngs::SmallRng;
use rand::Rng;
use rand::SeedableRng;
use sux::bitmap::{BitMap, CountingBitmap};
use sux::simple_select_const::SimpleSelectConst;

fn counting(bits: &[bool]) -> CountingBitmap {
    let mut b = BitMap::new(bits.len());
    for (i, &x) in bits.iter().enumerate() {
        if x {
            b.set(i, true);
        }
    }
    let ones = b.count_ones();
    b.with_count(ones)
}

#[test]
fn test_simple_select() {
    let lens = (1..100).step_by(10).chain((100_000..1_000_000).step_by(100_000));
    let mut rng = SmallRng::seed_from_u64(0);
    let density = 0.5;
    for len in lens {
        let bits = (0..len).map(|_| rng.gen_bool(density)).collect::<Vec<bool>>();
        let simple = SimpleSelectConst::new(counting(&bits), 10, 2);
        let ones = simple.count_ones();
        let mut pos = Vec::with_capacity(ones);
        for i in 0..len {
            if bits[i] {
                pos.push(i);
            }
        }
        for i in 0..ones {
            assert_eq!(simple.select(i), Some(pos[i]));
        }
        assert_eq!(simple.select(ones + 1), None);
    }
}

#[test]
fn test_simple_select_mult_usize() {
    let mut rng = SmallRng::seed_from_u64(0);
    let density = 0.5;
    for len in (1 << 10..1 << 15).step_by(64) {
        let bits = (0..len).map(|_| rng.gen_bool(density)).collect::<Vec<bool>>();
        let simple = SimpleSelectConst::new(counting(&bits), 10, 2);
        let ones = bits.iter().filter(|b| **b).count();
        let mut pos = Vec::with_capacity(ones);
        for i in 0..len {
            if bits[i] {
                pos.push(i);
            }
        }
        for i in 0..ones {
            assert_eq!(simple.select(i), Some(pos[i]));
        }
        assert_eq!(simple.select(ones + 1), None);
    }
}

#[test]
fn test_simple_select_empty() {
    let simple = SimpleSelectConst::new(counting(&[]), 10, 2);
    assert_eq!(simple.count_ones(), 0);
    assert_eq!(simple.len(), 0);
    assert_eq!(simple.select(0), None);
}

#[test]
fn test_simple_select_ones() {
    let len = 300_000;
    let simple = SimpleSelectConst::new(counting(&vec![true; len]), 10, 2);
    assert_eq!(simple.count_ones(), len);
    assert_eq!(simple.len(), len);
    for i in 0..len {
        assert_eq!(simple.select(i), Some(i));
    }
}

#[test]
fn test_simple_select_zeros() {
    let len = 300_000;
    let simple = SimpleSelectConst::new(counting(&vec![false; len]), 10, 2);
    assert_eq!(simple.count_ones(), 0);
    assert_eq!(simple.len(), len);
    assert_eq!(simple.select(0), None);
}

#[test]
fn test_simple_select_few_ones() {
    let lens = [1 << 18, 1 << 19, 1 << 20];
    for len in lens {
        for num_ones in [1, 2, 4, 8, 16, 32, 64, 128] {
            let bits = (0..len).map(|i| i % (len / num_ones) == 0).collect::<Vec<bool>>();
            let simple = SimpleSelectConst::new(counting(&bits), 10, 2);
            assert_eq!(simple.count_ones(), num_ones);
            assert_eq!(simple.len(), len);
            for i in 0..num_ones {
                assert_eq!(simple.select(i), Some(i * (len / num_ones)));
            }
        }
    }
}

#[test]
fn test_simple_non_uniform() {
    let lens = [1 << 18, 1 << 19, 1 << 20];
    let mut rng = SmallRng::seed_from_u64(0);
    for len in lens {
        for density in [0.5] {
            let density0 = density * 0.01;
            let density1 = density * 0.99;
            let len1;
            let len2;
            if len % 2 != 0 {
                len1 = len / 2 + 1;
                len2 = len / 2;
            } else {
                len1 = len / 2;
                len2 = len / 2;
            }
            let first_half = loop {
                let b = (0..len1).map(|_| rng.gen_bool(density0)).collect::<Vec<bool>>();
                if b.iter().any(|x| *x) {
                    break b;
                }
            };
            let num_ones_first_half = first_half.iter().filter(|x| **x).count();
            let second_half = (0..len2).map(|_| rng.gen_bool(density1)).collect::<Vec<bool>>();
            let num_ones_second_half = second_half.iter().filter(|x| **x).count();
            assert!(num_ones_first_half > 0);
            assert!(num_ones_second_half > 0);
            let bits = first_half
                .into_iter()
                .chain(second_half.into_iter())
                .collect::<Vec<bool>>();
            let c = counting(&bits);
            assert_eq!(num_ones_first_half + num_ones_second_half, c.count_ones());
            assert_eq!(c.len(), len as usize);
            let ones = c.count_ones();
            let mut pos = Vec::with_capacity(ones);
            for i in 0..(len as usize) {
                if bits[i] {
                    pos.push(i);
                }
            }
            let simple = SimpleSelectConst::new(c, 10, 2);
            for i in 0..ones {
                assert_eq!(simple.select(i), Some(pos[i]));
            }
            assert_eq!(simple.select(ones + 1), None);
        }
    }
}

#[test]
fn simple_select_eight_bits() {
    let bits = [true, false, true, true, false, true, false, true];
    let select = SimpleSelectConst::new(counting(&bits), 8, 2);
    assert_eq!(select.select(0), Some(0));
    assert_eq!(select.select(1), Some(2));
    assert_eq!(select.select(2), Some(3));
    assert_eq!(select.select(3), Some(5));
    assert_eq!(select.select(4), Some(7));
    assert_eq!(select.select(5), None);
    for (i, &b) in bits.iter().enumerate() {
        assert_eq!(select.get(i), b);
    }
}

#[test]
fn simple_select_wide_groups() {
    // ones spread more than 65535 bits apart force 64-bit subinventories
    let len = 3_000_000;
    let bits = (0..len).map(|i| i % 70_001 == 0).collect::<Vec<bool>>();
    let simple = SimpleSelectConst::new(counting(&bits), 2, 0);
    let ones = simple.count_ones();
    for i in 0..ones {
        assert_eq!(simple.select(i), Some(i * 70_001));
    }
    assert_eq!(simple.select(ones), None);
}

#[test]
fn rank_select_inverse() {
    let mut rng = SmallRng::seed_from_u64(7);
    let bits = (0..5000).map(|_| rng.gen_bool(0.3)).collect::<Vec<bool>>();
    let rank9 = sux::rank9::Rank9::new({
        let mut b = BitMap::new(bits.len());
        for (i, &x) in bits.iter().enumerate() {
            b.set(i, x);
        }
        b
    });
    let simple = SimpleSelectConst::new(counting(&bits), 10, 2);
    for i in 0..simple.count_ones() {
        let p = simple.select(i).unwrap();
        assert_eq!(rank9.rank(p), i);
    }
    for p in 0..bits.len() {
        if bits[p] {
            assert_eq!(simple.select(rank9.rank(p)), Some(p));
        }
    }
}

#[test]
fn simple_select_large_groups() {
    let len = 600_000;
    let bits = (0..len).map(|i| i % 3 != 1).collect::<Vec<bool>>();
    let simple = SimpleSelectConst::new(counting(&bits), 18, 2);
    let ones = simple.count_ones();
    let pos: Vec<usize> = (0..len).filter(|&i| bits[i]).collect();
    for i in (0..ones).step_by(97) {
        assert_eq!(simple.select(i), Some(pos[i]));
    }
    assert_eq!(simple.select(ones - 1), Some(pos[ones - 1]));
    assert_eq!(simple.select(ones), None);
}
