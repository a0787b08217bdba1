use slotted_btree::keys::{common_prefix, key_eq, key_fingerprint, key_lt};

#[test]
fn order_is_byte_lexicographic() {
    assert!(key_lt(b"a", b"b"));
    assert!(!key_lt(b"b", b"a"));
    assert!(key_lt(b"abc", b"abd"));
    assert!(key_lt(b"abc", b"b"));
    assert!(key_lt(&[0x7f], &[0x80]));
    assert!(key_lt(&[0x00], &[0xff]));
    assert!(!key_lt(&[0xff], &[0x00, 0xff]));
}

#[test]
fn proper_prefix_is_smaller() {
    assert!(key_lt(b"", b"a"));
    assert!(key_lt(b"", &[0]));
    assert!(key_lt(b"app", b"apple"));
    assert!(!key_lt(b"apple", b"app"));
    assert!(key_lt(b"a", &[b'a', 0]));
}

#[test]
fn no_key_is_smaller_than_itself() {
    assert!(!key_lt(b"", b""));
    assert!(!key_lt(b"same", b"same"));
}

#[test]
fn order_agrees_with_slices() {
    let keys: [&[u8]; 8] = [b"", b"a", b"aa", b"ab", b"b", &[0], &[0, 0], &[0xff]];
    for a in keys {
        for b in keys {
            assert_eq!(key_lt(a, b), a < b);
            assert_eq!(key_eq(a, b), a == b);
        }
    }
}

#[test]
fn equal_keys_hold_the_same_bytes() {
    assert!(key_eq(b"", b""));
    assert!(key_eq(b"key", b"key"));
    assert!(!key_eq(b"key", b"kez"));
    assert!(!key_eq(b"key", b"ke"));
    assert!(!key_eq(b"ke", b"key"));
}

#[test]
fn common_prefix_stops_at_first_difference() {
    assert_eq!(common_prefix(b"", b""), 0);
    assert_eq!(common_prefix(b"", b"abc"), 0);
    assert_eq!(common_prefix(b"abc", b"abd"), 2);
    assert_eq!(common_prefix(b"abc", b"abc"), 3);
    assert_eq!(common_prefix(b"abc", b"abcdef"), 3);
    assert_eq!(common_prefix(b"xbc", b"abc"), 0);
    assert_eq!(common_prefix(b"applicant", b"application"), 7);
}

#[test]
fn common_prefix_of_long_keys() {
    let a = vec![7u8; 300];
    let mut b = vec![7u8; 300];
    assert_eq!(common_prefix(&a, &b), 300);
    b[299] = 8;
    assert_eq!(common_prefix(&a, &b), 299);
    b[128] = 8;
    assert_eq!(common_prefix(&a, &b), 128);
    b[127] = 8;
    assert_eq!(common_prefix(&a, &b), 127);
}

#[test]
fn fingerprint_packs_four_bytes_big_endian() {
    assert_eq!(key_fingerprint(b"abcd"), 0x6162_6364);
    assert_eq!(key_fingerprint(b"abcdef"), 0x6162_6364);
    assert_eq!(key_fingerprint(&[0xff, 0xfe, 0xfd, 0xfc, 1]), 0xfffe_fdfc);
    assert_eq!(key_fingerprint(b"hello"), u32::from_be_bytes(*b"hell"));
}

#[test]
fn fingerprint_pads_short_keys_with_zeroes() {
    assert_eq!(key_fingerprint(b""), 0);
    assert_eq!(key_fingerprint(b"a"), 0x6100_0000);
    assert_eq!(key_fingerprint(b"ab"), 0x6162_0000);
    assert_eq!(key_fingerprint(b"abc"), 0x6162_6300);
    assert_eq!(key_fingerprint(&[0]), 0);
}

#[test]
fn fingerprint_never_orders_against_the_keys() {
    let keys: [&[u8]; 9] = [
        b"", b"a", b"ab", b"abc", b"abcd", b"abcde", b"abd", &[b'a', 0], &[b'a', 0, 0, 0, 1],
    ];
    for a in keys {
        for b in keys {
            if key_fingerprint(a) < key_fingerprint(b) {
                assert!(key_lt(a, b));
            }
            if key_lt(a, b) {
                assert!(key_fingerprint(a) <= key_fingerprint(b));
            }
        }
    }
}
