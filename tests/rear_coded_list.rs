use sux::rear_coded_list::RearCodedList;

fn words() -> Vec<String> {
    let mut w = Vec::new();
    for a in ["ab", "abs", "absolute", "b", "be", "bee", "beer", "c", "car", "card", "care", "careful", "zebra"] {
        for s in ["", "a", "ing", "s"] {
            w.push(format!("{}{}", a, s));
        }
    }
    w.sort();
    w.dedup();
    w
}

#[test]
fn rear_coded_list_blocks() {
    let mut rcl = RearCodedList::new(2);
    for s in ["absolute", "absolutely", "absorption", "abstract"] {
        rcl.push(s);
    }
    assert_eq!(rcl.len(), 4);
    assert_eq!(rcl.get(0), b"absolute".to_vec());
    assert_eq!(rcl.get(1), b"absolutely".to_vec());
    assert_eq!(rcl.get(2), b"absorption".to_vec());
    assert_eq!(rcl.get(3), b"abstract".to_vec());
    // two heads of 8 and 10 bytes, and two rear-coded entries:
    // VByte(0) "ly" NUL and VByte(7) "tract" NUL
    assert_eq!(rcl.data_len(), 9 + 4 + 11 + 7);
    assert_eq!(rcl.num_pointers(), 2);
    assert_eq!(rcl.stats.max_str_len, 10);
    assert!(rcl.contains("abstract"));
    assert!(!rcl.contains("absolut"));
}

#[test]
fn rear_coded_list_round_trip_and_contains() {
    let w = words();
    for k in [1usize, 2, 3, 8, 100] {
        let mut rcl = RearCodedList::new(k);
        let refs: Vec<&str> = w.iter().map(|s| s.as_str()).collect();
        rcl.extend(&refs);
        rcl.shrink_to_fit();
        assert_eq!(rcl.len(), w.len());
        let mut buf = Vec::new();
        for (i, s) in w.iter().enumerate() {
            rcl.get_inplace(i, &mut buf);
            assert_eq!(String::from_utf8(buf.clone()).unwrap(), *s);
        }
        assert!(!rcl.contains(""));
        for s in w.iter() {
            assert!(rcl.contains(s));
            let mut t = s.clone();
            t.push_str("IT'S HIGHLY IMPROBABLE THAT THIS STRING IS IN THE WORDLIST");
            assert!(!rcl.contains(&t));
        }
        assert!(!rcl.contains("aa"));
        assert!(!rcl.contains("zzz"));
        assert!(!rcl.contains("bear"));
    }
}

#[test]
fn rear_coded_list_iterators() {
    let w = words();
    let mut rcl = RearCodedList::new(3);
    for s in w.iter() {
        rcl.push(s);
    }
    let mut it = rcl.iter();
    assert_eq!(it.len(), w.len());
    for s in w.iter() {
        assert_eq!(it.next().map(|v| String::from_utf8(v).unwrap()), Some(s.clone()));
    }
    assert_eq!(it.next(), None);
    for start in 0..=w.len() {
        let mut it = rcl.iter_from(start);
        for s in w[start..].iter() {
            assert_eq!(it.next(), Some(s.as_bytes().to_vec()));
        }
        assert_eq!(it.next(), None);
    }
}
