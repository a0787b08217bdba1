use slotted_btree::btree::InsertResultIntern;
use slotted_btree::flex::DATA_LEN;
use slotted_btree::keys::common_prefix;
use slotted_btree::pages::PageStore;
use slotted_btree::slotted_leaf::SlottedLeaf;
use slotted_btree::PTR_SIZE;

#[test]
fn slotted_leaf_hello_world() {
    let mut pages = PageStore::new();

    assert_eq!(
        SlottedLeaf::insert(&mut pages, 0, "hello".as_bytes(), 0),
        InsertResultIntern::Inserted
    );

    assert_ne!(pages.leaf(0).get("hello".as_bytes()), None);
}

#[test]
fn split() {
    for _ in 0..100 {
        let mut pages = PageStore::new();
        let stream = rand::random_iter::<u64>();
        let mut overflow_key = String::new();

        for el in stream {
            let str = format!("{:08}", el);

            if !pages.leaf(0).can_fit(str.as_bytes()) {
                overflow_key = str;
                break;
            }

            SlottedLeaf::insert(&mut pages, 0, str.as_bytes(), 0);
        }
        // leaf is now before splitting
        let page_size = pages.leaf(0).size();
        let page_bytes = pages.leaf(0).payload_bytes();

        let res = SlottedLeaf::insert(&mut pages, 0, overflow_key.as_bytes(), 0);
        let (_, left_tree) = match res {
            InsertResultIntern::Inserted => panic!("Leaf did not split"),
            InsertResultIntern::Replaced(_) => {
                panic!("Either you got insanely lucky, or you just replaced some random value");
            }
            InsertResultIntern::Split(a, b) => (a, b),
        };

        let left = pages.leaf(left_tree);
        let leaf = pages.leaf(0);

        assert_eq!(left.size() + leaf.size(), page_size + 1);
        assert_eq!(
            left.payload_bytes() + leaf.payload_bytes(),
            page_bytes + overflow_key.len() + PTR_SIZE
        );
    }
}

#[test]
fn sort_order() {
    for _ in 0..100 {
        let mut pages = PageStore::new();
        let stream = rand::random_iter::<u64>();

        for el in stream {
            let str = format!("{:08}", el);

            if !pages.leaf(0).can_fit(str.as_bytes()) {
                break;
            }

            SlottedLeaf::insert(&mut pages, 0, str.as_bytes(), 0);
        }
        // leaf is now before splitting
        let leaf = pages.leaf(0);
        let mut prev_key = leaf.key_at(0);
        for i in 1..leaf.size() {
            let key = leaf.key_at(i);
            assert!(prev_key < key);
            prev_key = key;
        }
    }
}

#[test]
fn new_leaf_is_empty() {
    let leaf = SlottedLeaf::new();
    assert_eq!(leaf.size(), 0);
    assert_eq!(leaf.unused_bytes(), DATA_LEN);
    assert_eq!(leaf.payload_bytes(), 0);
    assert_eq!(leaf.get(b"x"), None);
    assert_eq!(leaf.get_upper_bound(b"x"), 0);
}

#[test]
fn leaf_accounts_for_every_byte() {
    let mut pages = PageStore::new();
    SlottedLeaf::insert(&mut pages, 0, b"bb", 2);
    SlottedLeaf::insert(&mut pages, 0, b"a", 1);
    SlottedLeaf::insert(&mut pages, 0, b"cccc", 3);
    let leaf = pages.leaf(0);
    assert_eq!(leaf.size(), 3);
    assert_eq!(leaf.payload_bytes(), 3 * PTR_SIZE + 2 + 1 + 4);
    assert_eq!(leaf.unused_bytes(), DATA_LEN - 3 * 8 - (3 * PTR_SIZE + 7));
    assert_eq!(
        leaf.unused_bytes() + leaf.size() * 8 + leaf.payload_bytes(),
        DATA_LEN
    );
    assert_eq!(leaf.key_at(0), b"a");
    assert_eq!(leaf.key_at(1), b"bb");
    assert_eq!(leaf.key_at(2), b"cccc");
    assert_eq!(leaf.value_at(0), 1);
    assert_eq!(leaf.value_at(1), 2);
    assert_eq!(leaf.value_at(2), 3);
}

#[test]
fn leaf_upper_bound_is_first_key_not_below() {
    let mut pages = PageStore::new();
    for key in ["b", "d", "dd", "f"] {
        SlottedLeaf::insert(&mut pages, 0, key.as_bytes(), 0);
    }
    let leaf = pages.leaf(0);
    assert_eq!(leaf.get_upper_bound(b""), 0);
    assert_eq!(leaf.get_upper_bound(b"a"), 0);
    assert_eq!(leaf.get_upper_bound(b"b"), 0);
    assert_eq!(leaf.get_upper_bound(b"c"), 1);
    assert_eq!(leaf.get_upper_bound(b"d"), 1);
    assert_eq!(leaf.get_upper_bound(b"da"), 2);
    assert_eq!(leaf.get_upper_bound(b"dd"), 2);
    assert_eq!(leaf.get_upper_bound(b"e"), 3);
    assert_eq!(leaf.get_upper_bound(b"g"), 4);
}

#[test]
fn leaf_can_fit_counts_slot_and_address() {
    let leaf = SlottedLeaf::new();
    assert!(leaf.can_fit(&vec![b'x'; DATA_LEN - 16]));
    assert!(!leaf.can_fit(&vec![b'x'; DATA_LEN - 15]));
}

#[test]
fn leaf_duplicate_keeps_first_value() {
    let mut pages = PageStore::new();
    assert_eq!(
        SlottedLeaf::insert(&mut pages, 0, b"k", 1),
        InsertResultIntern::Inserted
    );
    assert_eq!(
        SlottedLeaf::insert(&mut pages, 0, b"k", 2),
        InsertResultIntern::Inserted
    );
    assert_eq!(pages.leaf(0).size(), 1);
    assert_eq!(pages.leaf(0).get(b"k"), Some(1));
}

fn padded(head: &str, fill: u8, index: usize, len: usize) -> Vec<u8> {
    let mut key = head.as_bytes().to_vec();
    let tail = format!("{index:04}");
    while key.len() + tail.len() < len {
        key.push(fill);
    }
    key.extend_from_slice(tail.as_bytes());
    key
}

#[test]
fn minimum_separator_between_applicant_and_application() {
    let mut pages = PageStore::new();
    for i in 0..9 {
        SlottedLeaf::insert(&mut pages, 0, &padded("aa", b'a', i, 208), i);
    }
    SlottedLeaf::insert(&mut pages, 0, b"applicant", 100);
    for i in 0..9 {
        SlottedLeaf::insert(&mut pages, 0, &padded("application", b'z', i, 208), 200 + i);
    }
    assert_eq!(pages.leaf(0).size(), 19);
    assert!(!pages.leaf(0).can_fit(b"application"));

    let res = SlottedLeaf::insert(&mut pages, 0, b"application", 101);
    let InsertResultIntern::Split(separator, right) = res else {
        panic!("Leaf did not split");
    };
    assert_eq!(separator, b"applicat".to_vec());
    assert!(b"application".starts_with(&separator));
    assert_eq!(separator.len(), common_prefix(b"applicant", b"application") + 1);
    assert!(&separator[..] > &b"applicant"[..]);
    assert!(&separator[..] <= &b"application"[..]);
    assert_eq!(right, 1);
    assert_eq!(pages.leaf_count(), 2);

    let left = pages.leaf(0);
    let right = pages.leaf(right);
    assert_eq!(left.size(), 10);
    assert_eq!(right.size(), 10);
    assert_eq!(left.key_at(9), b"applicant");
    assert_eq!(right.key_at(0), b"application");
    assert_eq!(left.get(b"applicant"), Some(100));
    assert_eq!(left.get(b"application"), None);
    assert_eq!(right.get(b"application"), Some(101));
    assert_eq!(right.get(b"applicant"), None);
}

#[test]
fn shorter_separator_one_behind_the_middle_wins() {
    let mut pages = PageStore::new();
    for i in 0..9 {
        SlottedLeaf::insert(&mut pages, 0, &padded("aa", b'a', i, 208), i);
    }
    SlottedLeaf::insert(&mut pages, 0, b"applicant", 100);
    for i in 0..9 {
        SlottedLeaf::insert(&mut pages, 0, &padded("zz", b'z', i, 208), 200 + i);
    }
    let res = SlottedLeaf::insert(&mut pages, 0, b"application", 101);
    let InsertResultIntern::Split(separator, right) = res else {
        panic!("Leaf did not split");
    };
    assert_eq!(separator, b"z".to_vec());
    assert_eq!(pages.leaf(0).size(), 11);
    assert_eq!(pages.leaf(right).size(), 9);
    assert_eq!(pages.leaf(0).get(b"application"), Some(101));
}

#[test]
fn smallest_separator_is_one_byte_past_the_common_prefix() {
    assert_eq!(common_prefix(b"applicant", b"application"), 7);
    assert_eq!(
        SlottedLeaf::get_smallest_separator(b"applicant", b"application", u16::MAX),
        Some((&b"applicat"[..], 8))
    );
    assert_eq!(
        SlottedLeaf::get_smallest_separator(b"a", b"b", u16::MAX),
        Some((&b"b"[..], 1))
    );
    assert_eq!(
        SlottedLeaf::get_smallest_separator(b"abc", b"abcd", u16::MAX),
        Some((&b"abcd"[..], 4))
    );
    assert_eq!(
        SlottedLeaf::get_smallest_separator(b"applicant", b"application", 8),
        None
    );
    assert_eq!(
        SlottedLeaf::get_smallest_separator(b"applicant", b"application", 9),
        Some((&b"applicat"[..], 8))
    );
}

#[test]
fn full_leaf_of_eight_byte_keys_is_cut_behind_the_shortest_separator() {
    let mut pages = PageStore::new();
    for i in 4..174usize {
        assert_eq!(
            SlottedLeaf::insert(&mut pages, 0, format!("{i:08}").as_bytes(), i),
            InsertResultIntern::Inserted
        );
    }
    assert_eq!(pages.leaf(0).size(), 170);
    assert_eq!(pages.leaf(0).unused_bytes(), 0);
    let res = SlottedLeaf::insert(&mut pages, 0, b"00000174", 174);
    let InsertResultIntern::Split(separator, right) = res else {
        panic!("Leaf did not split");
    };
    assert_eq!(separator, b"0000009".to_vec());
    let left = pages.leaf(0);
    let right = pages.leaf(right);
    assert_eq!(left.size(), 86);
    assert_eq!(left.key_at(85), b"00000089");
    assert_eq!(right.size(), 85);
    assert_eq!(right.key_at(0), b"00000090");
    assert_eq!(right.key_at(84), b"00000174");
    assert_eq!(right.value_at(84), 174);
}
