use std::collections::BTreeMap;

use slotted_btree::btree::BTree;
use slotted_btree::pages::PageStore;
use slotted_btree::room::MAX_KEY_LEN;

fn filled(count: usize) -> BTree {
    let mut tree = BTree::new();
    for i in 0..count {
        let key = format!("entry/{:09}", (i * 7919) % count);
        tree.insert(key.as_bytes(), i);
    }
    tree
}

struct Seen {
    pages: usize,
    leaves_in_order: Vec<usize>,
}

fn walk(
    pages: &PageStore,
    at: usize,
    height: usize,
    lo: Option<Vec<u8>>,
    hi: Option<Vec<u8>>,
    seen: &mut Seen,
) {
    seen.pages += 1;
    if height == 0 {
        assert!(at < pages.leaf_count());
        let leaf = pages.leaf(at);
        for i in 0..leaf.size() {
            let key = leaf.key_at(i);
            if i > 0 {
                assert!(leaf.key_at(i - 1) < key);
            }
            if let Some(lo) = &lo {
                assert!(&lo[..] <= key);
            }
            if let Some(hi) = &hi {
                assert!(key < &hi[..]);
            }
        }
        assert_eq!(
            leaf.unused_bytes() + leaf.size() * 8 + leaf.payload_bytes(),
            4080
        );
        seen.leaves_in_order.push(at);
        return;
    }
    assert!(at < pages.branch_count());
    let branch = pages.branch(at);
    assert!(branch.size() >= 1);
    for i in 0..=branch.size() {
        let lower = if i == 0 {
            lo.clone()
        } else {
            Some(branch.key_at(i - 1).to_vec())
        };
        let upper = if i == branch.size() {
            hi.clone()
        } else {
            Some(branch.key_at(i).to_vec())
        };
        if let (Some(lower), Some(upper)) = (&lower, &upper) {
            assert!(lower < upper);
        }
        walk(pages, branch.child_at(i), height - 1, lower, upper, seen);
    }
}

#[test]
fn every_path_passes_as_many_branches_as_the_height() {
    let tree = filled(20_000);
    assert!(tree.get_height() >= 2);
    let mut seen = Seen { pages: 0, leaves_in_order: vec![] };
    walk(tree.pages(), tree.root(), tree.get_height(), None, None, &mut seen);
    assert_eq!(seen.pages, tree.count_nodes());
    assert_eq!(
        seen.pages,
        tree.pages().leaf_count() + tree.pages().branch_count()
    );
    assert_eq!(seen.leaves_in_order.len(), tree.pages().leaf_count());
}

#[test]
fn sibling_links_follow_the_key_order() {
    let tree = filled(20_000);
    let mut seen = Seen { pages: 0, leaves_in_order: vec![] };
    walk(tree.pages(), tree.root(), tree.get_height(), None, None, &mut seen);
    let pages = tree.pages();
    for pair in seen.leaves_in_order.windows(2) {
        assert_eq!(pages.leaf(pair[0]).next_leaf(), Some(pair[1]));
    }
    let last = *seen.leaves_in_order.last().unwrap();
    assert_eq!(pages.leaf(last).next_leaf(), None);

    let mut keys = 0;
    let mut at = Some(seen.leaves_in_order[0]);
    let mut previous: Option<Vec<u8>> = None;
    while let Some(leaf_at) = at {
        let leaf = pages.leaf(leaf_at);
        for i in 0..leaf.size() {
            let key = leaf.key_at(i).to_vec();
            if let Some(previous) = &previous {
                assert!(previous < &key);
            }
            previous = Some(key);
            keys += 1;
        }
        at = leaf.next_leaf();
    }
    assert_eq!(keys, 20_000);
}

#[test]
fn try_insert_turns_down_keys_that_no_page_can_take() {
    let mut tree = BTree::new();
    let longest = vec![b'a'; 4080 - 16];
    let too_long = vec![b'a'; 4080 - 15];
    assert!(tree.can_insert(&longest));
    assert!(!tree.can_insert(&too_long));
    assert!(tree.try_insert(&too_long, 2).is_none());
    assert_eq!(tree.get(&too_long), None);
    assert_eq!(tree.count_nodes(), 1);
    assert!(tree.try_insert(&longest, 1).is_some());
    assert_eq!(tree.get(&longest), Some(1));
    assert!(tree.try_insert(b"", 3).is_some());
    assert_eq!(tree.get(b""), Some(3));
    assert_eq!(tree.get(&longest), Some(1));
    assert_eq!(tree.count_nodes(), 3);
    assert_eq!(tree.get_height(), 1);
    assert_eq!(tree.pages().branch(tree.root()).key_at(0), b"a");
}

#[test]
fn a_key_of_225_bytes_is_stored() {
    let mut tree = BTree::new();
    let key = vec![b'k'; MAX_KEY_LEN + 1];
    assert!(tree.can_insert(&key));
    tree.insert(&key, 7);
    assert_eq!(tree.get(&key), Some(7));
}

#[test]
fn long_keys_are_stored_where_the_pages_have_room() {
    let mut tree = BTree::new();
    let mut stored = vec![];
    let mut turned_down = 0;
    for i in 0..600usize {
        let len = 300 + (i * 37) % 900;
        let mut key = format!("{:05}", (i * 7919) % 600).into_bytes();
        key.resize(len, b'x');
        match tree.try_insert(&key, i) {
            Some(_) => stored.push((key, i)),
            None => {
                turned_down += 1;
                assert_eq!(tree.get(&key), None);
            }
        }
    }
    assert!(stored.len() > 300);
    assert_eq!(stored.len() + turned_down, 600);
    assert!(tree.get_height() >= 1);
    for (key, value) in &stored {
        assert_eq!(tree.get(key), Some(*value));
    }
    let mut seen = Seen { pages: 0, leaves_in_order: vec![] };
    walk(tree.pages(), tree.root(), tree.get_height(), None, None, &mut seen);
    assert_eq!(seen.pages, tree.count_nodes());
}

#[test]
fn can_insert_changes_nothing_and_tells_what_insert_needs() {
    let mut tree = BTree::new();
    for i in 0..12usize {
        let mut key = vec![b'a'; 298];
        key.extend_from_slice(format!("{i:02}").as_bytes());
        assert!(tree.can_insert(&key));
        tree.insert(&key, i);
    }
    for i in 0..16usize {
        let key = format!("z{i:x}");
        assert!(tree.can_insert(key.as_bytes()));
        tree.insert(key.as_bytes(), 100 + i);
    }
    assert_eq!(tree.get_height(), 0);
    assert_eq!(tree.pages().leaf(0).unused_bytes(), 0);
    let mut thirteenth = vec![b'a'; 298];
    thirteenth.extend_from_slice(b"99");
    let pages_before = tree.count_nodes();
    assert!(!tree.can_insert(&thirteenth));
    assert!(tree.try_insert(&thirteenth, 1).is_none());
    assert_eq!(tree.count_nodes(), pages_before);
    assert_eq!(tree.get(&thirteenth), None);
    assert_eq!(tree.get(b"z0"), Some(100));
}

#[test]
fn the_171st_key_of_eight_bytes_cuts_the_root_leaf() {
    let mut tree = BTree::new();
    for i in 4..174usize {
        tree.insert(format!("{i:08}").as_bytes(), i);
        assert_eq!(tree.count_nodes(), 1);
    }
    assert_eq!(tree.get_height(), 0);
    assert_eq!(tree.pages().leaf(0).size(), 170);
    assert_eq!(tree.pages().leaf(0).unused_bytes(), 0);
    tree.insert(b"00000174", 174);
    assert_eq!(tree.get_height(), 1);
    assert_eq!(tree.count_nodes(), 3);
    let root = tree.pages().branch(tree.root());
    assert_eq!(root.size(), 1);
    assert_eq!(root.key_at(0), b"0000009");
    assert_eq!(root.child_at(0), 0);
    assert_eq!(root.child_at(1), 1);
    tree.insert(b"00000174", 9);
    assert_eq!(tree.get_height(), 1);
    assert_eq!(tree.count_nodes(), 3);
    assert_eq!(tree.get(b"00000174"), Some(174));
}

#[test]
fn new_store_holds_one_empty_leaf() {
    let pages = PageStore::new();
    assert_eq!(pages.leaf_count(), 1);
    assert_eq!(pages.branch_count(), 0);
    assert_eq!(pages.leaf(0).size(), 0);
    assert_eq!(pages.leaf(0).next_leaf(), None);
}

#[test]
fn insert_then_get_for_every_key_after_every_insert() {
    let mut tree = BTree::new();
    let keys: Vec<String> = (0..300)
        .map(|i| format!("{:03}-{}", (i * 37) % 300, "x".repeat(i % 200)))
        .collect();
    for (i, key) in keys.iter().enumerate() {
        assert_eq!(tree.get(key.as_bytes()), None);
        tree.insert(key.as_bytes(), i);
        for (j, other) in keys.iter().enumerate().take(i + 1) {
            assert_eq!(tree.get(other.as_bytes()), Some(j));
        }
    }
}

#[test]
fn agrees_with_a_map_on_random_keys() {
    let mut tree = BTree::new();
    let mut map: BTreeMap<Vec<u8>, usize> = BTreeMap::new();
    for i in 0..30_000usize {
        let len = rand::random_range(0..=MAX_KEY_LEN);
        let spread = rand::random_range(1..=255u8);
        let key: Vec<u8> = (0..len)
            .map(|_| rand::random_range(0..=spread))
            .collect();
        tree.insert(&key, i);
        map.entry(key).or_insert(i);
    }
    for (key, value) in map.iter() {
        assert_eq!(tree.get(key), Some(*value));
    }
    for _ in 0..5_000 {
        let len = rand::random_range(0..8);
        let key: Vec<u8> = (0..len).map(|_| rand::random_range(0..=3u8)).collect();
        assert_eq!(tree.get(&key), map.get(&key).copied());
    }
    assert_eq!(
        tree.count_nodes(),
        tree.pages().leaf_count() + tree.pages().branch_count()
    );
    let mut seen = Seen { pages: 0, leaves_in_order: vec![] };
    walk(tree.pages(), tree.root(), tree.get_height(), None, None, &mut seen);
    assert_eq!(seen.pages, tree.count_nodes());
}
