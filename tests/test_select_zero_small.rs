use rand::{rngs::SmallRng, Rng, SeedableRng};
use sux::bitmap::{BitMap, CountingBitmap};
use sux::sparse_zero_index::SparseZeroIndex;

fn counting(bits: &[bool]) -> CountingBitmap {
    let mut b = BitMap::new(bits.len());
    for (i, &x) in bits.iter().enumerate() {
        if x {
            b.set(i, true);
        }
    }
    let ones = b.count_ones();
    b.with_count(ones)
}

fn check_select_zero_random(quantum_log2: usize) {
    let mut rng = SmallRng::seed_from_u64(0);
    let density = 0.5;
    let lens = (1..1000)
        .chain((1000..10000).step_by(100))
        .chain([1 << 20, 1 << 24]);
    for len in lens {
        let bits = (0..len).map(|_| rng.gen_bool(density)).collect::<Vec<bool>>();
        let sel = SparseZeroIndex::new(counting(&bits), quantum_log2);

        let zeros = bits.iter().filter(|b| !**b).count();
        let mut pos = Vec::with_capacity(zeros);
        for i in 0..len {
            if !bits[i] {
                pos.push(i);
            }
        }

        for i in 0..zeros {
            assert_eq!(sel.select_zero(i), Some(pos[i]));
        }
        assert_eq!(sel.select_zero(zeros + 1), None);
    }
}

#[test]
fn test_rank_small_sel_zero0() {
    check_select_zero_random(6);
}

#[test]
fn test_rank_small_sel_zero1() {
    check_select_zero_random(5);
}

#[test]
fn test_rank_small_sel_zero2() {
    check_select_zero_random(4);
}

#[test]
fn test_rank_small_sel_zero3() {
    check_select_zero_random(3);
}

#[test]
fn test_rank_small_sel_zero4() {
    check_select_zero_random(7);
}

#[test]
fn test_empty() {
    let sel = SparseZeroIndex::new(counting(&[]), 6);
    assert_eq!(sel.count(), 0);
    assert_eq!(sel.len(), 0);
    assert_eq!(sel.select_zero(0), None);

    let inner = sel.into_inner();
    assert_eq!(inner.len(), 0);
}

#[test]
fn test_ones() {
    let len = 300_000;
    let bits = vec![true; len];
    let sel = SparseZeroIndex::new(counting(&bits), 6);
    assert_eq!(sel.len(), len);
    assert_eq!(sel.select_zero(0), None);
}

#[test]
fn test_zeros() {
    let len = 300_000;
    let bits = vec![false; len];
    let sel = SparseZeroIndex::new(counting(&bits), 6);
    assert_eq!(sel.len(), len);
    for i in 0..len {
        assert_eq!(sel.select_zero(i), Some(i));
    }
}

#[test]
fn test_few_zeros() {
    let lens = [1 << 18, 1 << 19, 1 << 20];
    for len in lens {
        for num_ones in [1, 2, 4, 8, 16, 32, 64, 128] {
            let bits = (0..len).map(|i| i % (len / num_ones) != 0).collect::<Vec<bool>>();
            let sel = SparseZeroIndex::new(counting(&bits), 6);
            assert_eq!(sel.len(), len);
            for i in 0..num_ones {
                assert_eq!(sel.select_zero(i), Some(i * (len / num_ones)));
            }
        }
    }
}

#[test]
fn test_select_adapt_non_uniform() {
    let lens = [1 << 18, 1 << 19, 1 << 20];

    let mut rng = SmallRng::seed_from_u64(0);
    for len in lens {
        for density in [0.5] {
            let density0 = density * 0.01;
            let density1 = density * 0.99;

            let len1;
            let len2;
            if len % 2 != 0 {
                len1 = len / 2 + 1;
                len2 = len / 2;
            } else {
                len1 = len / 2;
                len2 = len / 2;
            }

            let first_half = loop {
                let b = (0..len1).map(|_| rng.gen_bool(density0)).collect::<Vec<bool>>();
                if b.iter().any(|x| *x) {
                    break b;
                }
            };
            let num_ones_first_half = first_half.iter().filter(|x| **x).count();
            let second_half = (0..len2).map(|_| rng.gen_bool(density1)).collect::<Vec<bool>>();
            let num_ones_second_half = second_half.iter().filter(|x| **x).count();

            assert!(num_ones_first_half > 0);
            assert!(num_ones_second_half > 0);

            let bits = first_half
                .into_iter()
                .chain(second_half.into_iter())
                .collect::<Vec<bool>>();
            let c = counting(&bits);

            assert_eq!(num_ones_first_half + num_ones_second_half, c.count_ones());
            assert_eq!(c.len(), len as usize);

            let zeros = c.len() - c.count_ones();
            let mut pos = Vec::with_capacity(zeros);
            for i in 0..(len as usize) {
                if !bits[i] {
                    pos.push(i);
                }
            }

            let sel = SparseZeroIndex::new(c, 6);
            for i in 0..zeros {
                assert_eq!(sel.select_zero(i), Some(pos[i]));
            }
            assert_eq!(sel.select_zero(zeros + 1), None);
        }
    }
}

#[test]
fn select_zero_large_step() {
    let len = 300_000;
    let bits = (0..len).map(|i| i % 5 == 0).collect::<Vec<bool>>();
    let sel = SparseZeroIndex::new(counting(&bits), 20);
    let zeros: Vec<usize> = (0..len).filter(|&i| !bits[i]).collect();
    for i in (0..zeros.len()).step_by(1001) {
        assert_eq!(sel.select_zero(i), Some(zeros[i]));
    }
    assert_eq!(sel.select_zero(zeros.len()), None);
}
