use rand::{rngs::SmallRng, Rng, SeedableRng};
use sux::bitmap::BitMap;
use sux::rank9::{BlockCounters, Rank9};

fn bitmap(bits: &[bool]) -> BitMap {
    let mut b = BitMap::new(bits.len());
    for (i, &x) in bits.iter().enumerate() {
        b.set(i, x);
    }
    b
}

#[test]
fn test_rank9() {
    let mut rng = SmallRng::seed_from_u64(0);
    let lens = (1..1000)
        .chain((10_000..100_000).step_by(1000))
        .chain((100_000..1_000_000).step_by(100_000));
    let density = 0.5;
    for len in lens {
        let bits = (0..len).map(|_| rng.gen_bool(density)).collect::<Vec<bool>>();
        let rank9 = Rank9::new(bitmap(&bits));

        let mut ranks = Vec::with_capacity(len);
        let mut r = 0;
        for &bit in bits.iter() {
            ranks.push(r);
            if bit {
                r += 1;
            }
        }

        for i in 0..bits.len() {
            assert_eq!(rank9.rank(i), ranks[i]);
        }
        assert_eq!(rank9.rank(bits.len() + 1), r);
    }
}

#[test]
fn test_last() {
    let mut b = BitMap::new((1 << 10) * 64);
    b.fill(true);
    for w in 0..(1 << 10) {
        b.set(w * 64, false);
    }
    let ones = b.count_ones();
    let rank9 = Rank9::new(b);
    assert_eq!(rank9.rank(rank9.len()), ones);
    assert_eq!(ones, (1 << 10) * 63);
}

#[test]
fn rank9_eight_bits() {
    let rank9 = Rank9::new(bitmap(&[true, false, true, true, false, true, false, true]));
    let expected = [0, 1, 1, 2, 3, 3, 4, 4, 5];
    for (p, &r) in expected.iter().enumerate() {
        assert_eq!(rank9.rank(p), r);
    }
    assert_eq!(rank9.num_ones(), 5);
    assert_eq!(rank9.count_ones(), 5);
    assert_eq!(rank9.rank(100), 5);
    assert_eq!(rank9.len(), 8);
    assert!(!rank9.is_empty());
    assert_eq!(rank9.rank_unchecked(7), 4);
    assert_eq!(rank9.into_inner().len(), 8);
}

#[test]
fn rank9_across_blocks() {
    let len = 2000;
    let bits = (0..len).map(|i| i % 3 == 0).collect::<Vec<bool>>();
    let rank9 = Rank9::new(bitmap(&bits));
    for p in 0..=len {
        assert_eq!(rank9.rank(p), (p + 2) / 3);
    }
}

#[test]
fn rank9_empty() {
    let rank9 = Rank9::new(BitMap::new(0));
    assert!(rank9.is_empty());
    assert_eq!(rank9.rank(0), 0);
    assert_eq!(rank9.num_ones(), 0);
}

#[test]
fn block_counters_fields() {
    let mut c = BlockCounters { absolute: 10, relative: 0 };
    for j in 1..8 {
        c.set_rel(j, 64 * j);
    }
    assert_eq!(c.rel(0), 0);
    for j in 1..8 {
        assert_eq!(c.rel(j), 64 * j);
    }
    assert_eq!(c.absolute, 10);
}
