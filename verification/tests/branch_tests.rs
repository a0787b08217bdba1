use slotted_btree::flex::DATA_LEN;
use slotted_btree::slotted_branch::SlottedBranch;
use slotted_btree::PTR_SIZE;

fn long_key(index: usize) -> Vec<u8> {
    let mut key = vec![b'k'; 200];
    key.extend_from_slice(format!("{index:08}").as_bytes());
    key
}

#[test]
fn new_branch_holds_one_separator_between_two_children() {
    let branch = SlottedBranch::new(10, 20, b"m");
    assert_eq!(branch.size(), 1);
    assert_eq!(branch.key_at(0), b"m");
    assert_eq!(branch.child_at(0), 10);
    assert_eq!(branch.child_at(1), 20);
    assert_eq!(branch.unused_bytes(), DATA_LEN - 8 - PTR_SIZE - 1);
    assert_eq!(branch.payload_bytes(), PTR_SIZE + 1);
    assert_eq!(
        branch.unused_bytes() + branch.size() * 8 + branch.payload_bytes(),
        DATA_LEN
    );
}

#[test]
fn key_at_its_separator_goes_right() {
    let branch = SlottedBranch::new(10, 20, b"m");
    assert_eq!(branch.get_upper_bound(b""), 0);
    assert_eq!(branch.get_upper_bound(b"l"), 0);
    assert_eq!(branch.get_upper_bound(b"lzzzz"), 0);
    assert_eq!(branch.get_upper_bound(b"m"), 1);
    assert_eq!(branch.get_upper_bound(b"ma"), 1);
    assert_eq!(branch.get_upper_bound(b"z"), 1);
}

#[test]
fn insert_at_enters_the_separator_with_its_child() {
    let mut branch = SlottedBranch::new(10, 20, b"m");
    assert!(branch.insert_at(1, b"t", 30).is_none());
    assert!(branch.insert_at(0, b"c", 5).is_none());
    assert_eq!(branch.size(), 3);
    assert_eq!(branch.key_at(0), b"c");
    assert_eq!(branch.key_at(1), b"m");
    assert_eq!(branch.key_at(2), b"t");
    assert_eq!(branch.child_at(0), 5);
    assert_eq!(branch.child_at(1), 10);
    assert_eq!(branch.child_at(2), 30);
    assert_eq!(branch.child_at(3), 20);
    assert_eq!(branch.get_upper_bound(b"b"), 0);
    assert_eq!(branch.get_upper_bound(b"c"), 1);
    assert_eq!(branch.get_upper_bound(b"n"), 2);
    assert_eq!(branch.get_upper_bound(b"t"), 3);
}

#[test]
fn fix_leaf_insert_swaps_one_child() {
    let mut branch = SlottedBranch::new(10, 20, b"m");
    assert_eq!(branch.fix_leaf_insert(0, 11), 10);
    assert_eq!(branch.child_at(0), 11);
    assert_eq!(branch.child_at(1), 20);
    assert_eq!(branch.fix_leaf_insert(1, 21), 20);
    assert_eq!(branch.child_at(0), 11);
    assert_eq!(branch.child_at(1), 21);
    assert_eq!(branch.key_at(0), b"m");
}

#[test]
fn insert_leaf_at_keeps_the_cut_leaf_on_the_left() {
    let mut branch = SlottedBranch::new(10, 20, b"m");
    assert!(branch.insert_leaf_at(0, b"f", 15).is_none());
    assert_eq!(branch.key_at(0), b"f");
    assert_eq!(branch.key_at(1), b"m");
    assert_eq!(branch.child_at(0), 10);
    assert_eq!(branch.child_at(1), 15);
    assert_eq!(branch.child_at(2), 20);

    assert!(branch.insert_leaf_at(2, b"t", 25).is_none());
    assert_eq!(branch.key_at(2), b"t");
    assert_eq!(branch.child_at(2), 20);
    assert_eq!(branch.child_at(3), 25);
}

#[test]
fn branch_can_fit_counts_slot_and_address() {
    let branch = SlottedBranch::new(1, 2, b"");
    let unused = branch.unused_bytes();
    assert_eq!(unused, DATA_LEN - 16);
    assert!(branch.can_fit(&vec![b'x'; unused - 16]));
    assert!(!branch.can_fit(&vec![b'x'; unused - 15]));
}

#[test]
fn full_branch_is_cut_at_the_middle() {
    let mut branch = SlottedBranch::new(0, 1000, &long_key(0));
    let mut count = 1;
    while branch.can_fit(&long_key(2 * count)) {
        assert!(branch.insert_at(count, &long_key(2 * count), count).is_none());
        count += 1;
    }
    assert_eq!(branch.size(), count);
    assert_eq!(count, 18);
    let heap_before = DATA_LEN - branch.unused_bytes() - 8 * branch.size();

    let cut = branch.insert_at(3, &long_key(5), 500);
    let Some((separator, left)) = cut else {
        panic!("Branch was not cut");
    };
    let mid = (count + 1) / 2;
    assert_eq!(mid, 9);
    assert_eq!(separator, long_key(2 * (mid - 1)));
    assert_eq!(left.size(), mid);
    assert_eq!(branch.size(), count - mid);
    assert_eq!(left.size() + branch.size() + 1, count + 1);

    assert_eq!(left.key_at(2), long_key(4));
    assert_eq!(left.key_at(3), long_key(5));
    assert_eq!(left.child_at(3), 500);
    assert_eq!(left.key_at(4), long_key(6));
    assert_eq!(left.child_at(4), 3);
    assert_eq!(left.child_at(left.size()), mid - 1);
    assert_eq!(branch.key_at(0), long_key(2 * mid));
    assert_eq!(branch.child_at(0), mid);
    assert_eq!(branch.child_at(branch.size()), 1000);

    let heap_left = DATA_LEN - left.unused_bytes() - 8 * left.size();
    let heap_right = DATA_LEN - branch.unused_bytes() - 8 * branch.size();
    assert_eq!(
        heap_left + heap_right + PTR_SIZE + separator.len(),
        heap_before + PTR_SIZE + long_key(5).len()
    );
}

#[test]
fn pending_separator_can_be_the_one_that_goes_up() {
    let mut branch = SlottedBranch::new(0, 1000, &long_key(0));
    let mut count = 1;
    while branch.can_fit(&long_key(2 * count)) {
        branch.insert_at(count, &long_key(2 * count), count);
        count += 1;
    }
    let mid = (count + 1) / 2;
    let pending = long_key(2 * mid - 1);
    let Some((separator, left)) = branch.insert_at(mid, &pending, 500) else {
        panic!("Branch was not cut");
    };
    assert_eq!(separator, pending);
    assert_eq!(left.size(), mid);
    assert_eq!(left.child_at(left.size()), 500);
    assert_eq!(branch.key_at(0), long_key(2 * mid));
    assert_eq!(branch.child_at(0), mid);
}
