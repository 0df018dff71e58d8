use sux::rear_coded_list::longest_common_prefix;
use sux::vbyte::{decode_int, encode_int, encode_int_len};

#[test]
fn test_encode_decode_int() {
    const MAX: u64 = 1 << 20;
    const MIN: u64 = 0;
    let mut buffer = Vec::with_capacity(128);

    for i in MIN..MAX {
        encode_int(i, &mut buffer);
    }

    let mut pos = 0;
    for i in MIN..MAX {
        let (j, next) = decode_int(&buffer, pos);
        assert_eq!((next - pos) as u64, encode_int_len(i));
        pos = next;
        assert_eq!(i, j);
    }
    assert_eq!(pos, buffer.len());
}

#[test]
fn test_longest_common_prefix() {
    let str1 = b"absolutely";
    let str2 = b"absorption";
    assert_eq!(longest_common_prefix(str1, str2), 4);
    assert_eq!(longest_common_prefix(str1, str1), str1.len());
    assert_eq!(longest_common_prefix(str2, str2), str2.len());
}

#[test]
fn vbyte_boundaries() {
    let mut d = Vec::new();
    encode_int(127, &mut d);
    assert_eq!(d, vec![0x7F]);

    let mut d = Vec::new();
    encode_int(128, &mut d);
    assert_eq!(d, vec![0x80, 0x00]);
    assert_eq!(decode_int(&d, 0), (128, 2));

    let largest_two = 128 + 128 * 128 - 1;
    let mut d = Vec::new();
    encode_int(largest_two, &mut d);
    assert_eq!(d.len(), 2);
    assert_eq!(encode_int_len(largest_two), 2);
    assert_eq!(encode_int_len(largest_two + 1), 3);
    assert_eq!(decode_int(&d, 0), (largest_two, 2));
}

#[test]
fn vbyte_every_width_round_trips() {
    let bounds: [u64; 8] = [
        128,
        16512,
        2113664,
        270549120,
        34630287488,
        4432676798592,
        567382630219904,
        72624976668147840,
    ];
    let mut values = vec![0u64, 1, u64::MAX, (1 << 56) - 1];
    for b in bounds {
        values.push(b - 1);
        values.push(b);
        values.push(b + 1);
    }
    for v in values {
        let mut d = vec![9u8];
        encode_int(v, &mut d);
        d.push(42);
        let (x, next) = decode_int(&d, 1);
        assert_eq!(x, v);
        assert_eq!(next as u64, 1 + encode_int_len(v));
        assert_eq!(d[next], 42);
    }
    assert_eq!(encode_int_len(u64::MAX), 9);
    assert_eq!(encode_int_len(0), 1);
}
