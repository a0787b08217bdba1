use std::collections::HashSet;

use slotted_btree::btree::{BTree, InsertResult};
use slotted_btree::flex::{FlexHead, DATA_LEN, HEAD_SIZE};
use slotted_btree::room::MAX_KEY_LEN;
use slotted_btree::slotted_branch::SlottedBranch;
use slotted_btree::slotted_leaf::SlottedLeaf;
use slotted_btree::PAGE_SIZE;

const BEES: &str = "The scout circles the clover field at first light.
A house bee hums over the heather on the hill under a low sun.
The wind inspects the empty super in the last week of May.
The swarm dances before the honey store once the dew has gone.
A hornet carries pollen to the brood nest in the heat of the day.
A hornet carries pollen to the brood nest in the heat of the day.
A nurse bee lands on the lavender hedge when the wind drops.
The beekeeper guards the linden tree between two showers.
The guard returns to the third comb at first light.

A wasp crawls across the clover field under a low sun.
A drone flies past the heather on the hill on the longest day.
The colony cleans the empty super once the dew has gone.
The queen leaves the honey store in the heat of the day.
A young worker waits at the brood nest at dusk.
A forager rests beside the lavender hedge between two showers.
A forager rests beside the lavender hedge between two showers.
The old worker fans a cell of fresh wax at first light.
The scout leaves the third comb after the frost.
A house bee waits at the clover field on the longest day.
The wind rests beside the heather on the hill once the dew has gone.
The swarm fans the empty super as the rain sets in.
A hornet circles the honey store at dusk.
A nurse bee hums over the brood nest between two showers.
The beekeeper inspects the water at the ditch before noon.
The guard dances before a cell of fresh wax after the frost.
The guard dances before a cell of fresh wax after the frost.
A wasp carries pollen to the third comb on the longest day.
A drone lands on the clover field late in the season.
The colony guards the heather on the hill as the rain sets in.
The queen returns to the empty super at dusk.
A young worker crawls across the honey store as the shadows grow.
A forager flies past the apple blossom before noon.
The old worker cleans the water at the ditch after the frost.
The scout returns to a cell of fresh wax while the lime is in flower.

A house bee crawls across the third comb late in the season.
A house bee crawls across the third comb late in the season.
The wind flies past the clover field as the rain sets in.
The swarm cleans the heather on the hill in the last week of May.
A hornet leaves the empty super as the shadows grow.
A nurse bee waits at the willow by the brook before noon.
The beekeeper rests beside the apple blossom when the wind drops.
The guard fans the water at the ditch while the lime is in flower.
A wasp circles a cell of fresh wax late in the season.
A drone hums over the third comb under a low sun.
The colony inspects the clover field in the last week of May.
The colony inspects the clover field in the last week of May.
The queen dances before the heather on the hill as the shadows grow.
A young worker carries pollen to the sunflower row in the heat of the day.
A forager lands on the willow by the brook when the wind drops.
The old worker guards the apple blossom while the lime is in flower.
The scout dances before the water at the ditch at first light.
A house bee carries pollen to a cell of fresh wax under a low sun.
The wind lands on the third comb in the last week of May.
The swarm guards the clover field once the dew has gone.
A hornet returns to the landing board in the heat of the day.
A hornet returns to the landing board in the heat of the day.
A nurse bee crawls across the sunflower row when the wind drops.
The beekeeper flies past the willow by the brook between two showers.
The guard cleans the apple blossom at first light.
A wasp leaves the water at the ditch under a low sun.

A drone waits at a cell of fresh wax on the longest day.
The colony rests beside the third comb once the dew has gone.
The queen fans the entrance of the hive in the heat of the day.
A young worker circles the landing board at dusk.
A forager hums over the sunflower row between two showers.
A forager hums over the sunflower row between two showers.
The old worker inspects the willow by the brook at first light.
The scout fans the apple blossom after the frost.
A house bee circles the water at the ditch on the longest day.
The wind hums over a cell of fresh wax once the dew has gone.
The swarm inspects the linden tree as the rain sets in.
A hornet dances before the entrance of the hive at dusk.
A nurse bee carries pollen to the landing board between two showers.
The beekeeper lands on the sunflower row before noon.
The guard guards the willow by the brook after the frost.
The guard guards the willow by the brook after the frost.
A wasp returns to the apple blossom on the longest day.
A drone crawls across the water at the ditch late in the season.
The colony flies past the lavender hedge as the rain sets in.
The queen cleans the linden tree at dusk.
A young worker leaves the entrance of the hive as the shadows grow.
A forager waits at the landing board before noon.
The old worker rests beside the sunflower row after the frost.
The scout cleans the willow by the brook while the lime is in flower.
A house bee leaves the apple blossom late in the season.
A house bee leaves the apple blossom late in the season.

The wind waits at the brood nest as the rain sets in.
The swarm rests beside the lavender hedge in the last week of May.
A hornet fans the linden tree as the shadows grow.
A nurse bee circles the entrance of the hive before noon.
The beekeeper hums over the landing board when the wind drops.
The guard inspects the sunflower row while the lime is in flower.
A wasp dances before the willow by the brook late in the season.
A drone carries pollen to the honey store under a low sun.
The colony lands on the brood nest in the last week of May.
The colony lands on the brood nest in the last week of May.
The queen guards the lavender hedge as the shadows grow.
A young worker returns to the linden tree in the heat of the day.
A forager crawls across the entrance of the hive when the wind drops.
The old worker flies past the landing board while the lime is in flower.
The scout guards the sunflower row at first light.
A house bee returns to the empty super under a low sun.
The wind crawls across the honey store in the last week of May.
The swarm flies past the brood nest once the dew has gone.
A hornet cleans the lavender hedge in the heat of the day.
A hornet cleans the lavender hedge in the heat of the day.
A nurse bee leaves the linden tree when the wind drops.
The beekeeper waits at the entrance of the hive between two showers.
The guard rests beside the landing board at first light.
A wasp fans the heather on the hill under a low sun.
A drone circles the empty super on the longest day.

The colony hums over the honey store once the dew has gone.
The queen inspects the brood nest in the heat of the day.
A young worker dances before the lavender hedge at dusk.
A forager carries pollen to the linden tree between two showers.
A forager carries pollen to the linden tree between two showers.
The old worker lands on the entrance of the hive at first light.
The scout inspects the clover field after the frost.
A house bee dances before the heather on the hill on the longest day.
The wind carries pollen to the empty super once the dew has gone.
The swarm lands on the honey store as the rain sets in.
A hornet guards the brood nest at dusk.
A nurse bee returns to the lavender hedge between two showers.
The beekeeper crawls across the linden tree before noon.
The guard flies past the third comb after the frost.
The guard flies past the third comb after the frost.
A wasp cleans the clover field on the longest day.
A drone leaves the heather on the hill late in the season.
The colony waits at the empty super as the rain sets in.
The queen rests beside the honey store at dusk.
A young worker fans the brood nest as the shadows grow.
A forager circles the lavender hedge before noon.
The old worker hums over a cell of fresh wax after the frost.
The scout rests beside the third comb while the lime is in flower.
A house bee fans the clover field late in the season.
A house bee fans the clover field late in the season.
The wind circles the heather on the hill as the rain sets in.

The swarm hums over the empty super in the last week of May.
A hornet inspects the honey store as the shadows grow.
A nurse bee dances before the brood nest before noon.
The beekeeper carries pollen to the water at the ditch when the wind drops.
The guard lands on a cell of fresh wax while the lime is in flower.
A wasp guards the third comb late in the season.
A drone returns to the clover field under a low sun.
The colony crawls across the heather on the hill in the last week of May.
The colony crawls across the heather on the hill in the last week of May.
The queen flies past the empty super as the shadows grow.
A young worker cleans the honey store in the heat of the day.
A forager leaves the apple blossom when the wind drops.
The old worker waits at the water at the ditch while the lime is in flower.
The scout flies past a cell of fresh wax at first light.
A house bee cleans the third comb under a low sun.
The wind leaves the clover field in the last week of May.
The swarm waits at the heather on the hill once the dew has gone.
A hornet rests beside the empty super in the heat of the day.
A hornet rests beside the empty super in the heat of the day.
A nurse bee fans the willow by the brook when the wind drops.
The beekeeper circles the apple blossom between two showers.
The guard hums over the water at the ditch at first light.
A wasp inspects a cell of fresh wax under a low sun.
A drone dances before the third comb on the longest day.
The colony carries pollen to the clover field once the dew has gone.

The queen lands on the heather on the hill in the heat of the day.
A young worker guards the sunflower row at dusk.
A forager returns to the willow by the brook between two showers.
A forager returns to the willow by the brook between two showers.
The old worker crawls across the apple blossom at first light.
The scout lands on the water at the ditch after the frost.
A house bee guards a cell of fresh wax on the longest day.
The wind returns to the third comb once the dew has gone.
The swarm crawls across the clover field as the rain sets in.
A hornet flies past the landing board at dusk.
A nurse bee cleans the sunflower row between two showers.
The beekeeper leaves the willow by the brook before noon.
The guard waits at the apple blossom after the frost.
The guard waits at the apple blossom after the frost.
A wasp rests beside the water at the ditch on the longest day.
A drone fans a cell of fresh wax late in the season.
The colony circles the third comb as the rain sets in.
The queen hums over the entrance of the hive at dusk.
A young worker inspects the landing board as the shadows grow.
A forager dances before the sunflower row before noon.
The old worker carries pollen to the willow by the brook after the frost.
The scout hums over the apple blossom while the lime is in flower.
A house bee inspects the water at the ditch late in the season.
A house bee inspects the water at the ditch late in the season.
The wind dances before a cell of fresh wax as the rain sets in.
The swarm carries pollen to the linden tree in the last week of May.

A hornet lands on the entrance of the hive as the shadows grow.
A nurse bee guards the landing board before noon.
The beekeeper returns to the sunflower row when the wind drops.
The guard crawls across the willow by the brook while the lime is in flower.
A wasp flies past the apple blossom late in the season.
A drone cleans the water at the ditch under a low sun.
The colony leaves the lavender hedge in the last week of May.
The colony leaves the lavender hedge in the last week of May.
The queen waits at the linden tree as the shadows grow.
A young worker rests beside the entrance of the hive in the heat of the day.
A forager fans the landing board when the wind drops.
The old worker circles the sunflower row while the lime is in flower.
The scout waits at the willow by the brook at first light.
A house bee rests beside the apple blossom under a low sun.
The wind fans the brood nest in the last week of May.
The swarm circles the lavender hedge once the dew has gone.
A hornet hums over the linden tree in the heat of the day.
A hornet hums over the linden tree in the heat of the day.
A nurse bee inspects the entrance of the hive when the wind drops.
The beekeeper dances before the landing board between two showers.
The guard carries pollen to the sunflower row at first light.
A wasp lands on the willow by the brook under a low sun.
A drone guards the honey store on the longest day.
The colony returns to the brood nest once the dew has gone.
The queen crawls across the lavender hedge in the heat of the day.

A young worker flies past the linden tree at dusk.
A forager cleans the entrance of the hive between two showers.
A forager cleans the entrance of the hive between two showers.
The old worker leaves the landing board at first light.
The scout crawls across the sunflower row after the frost.
A house bee flies past the empty super on the longest day.
The wind cleans the honey store once the dew has gone.
The swarm leaves the brood nest as the rain sets in.
A hornet waits at the lavender hedge at dusk.
A nurse bee rests beside the linden tree between two showers.
The beekeeper fans the entrance of the hive before noon.
The guard circles the landing board after the frost.
The guard circles the landing board after the frost.
A wasp hums over the heather on the hill on the longest day.
A drone inspects the empty super late in the season.
The colony dances before the honey store as the rain sets in.
The queen carries pollen to the brood nest at dusk.
A young worker lands on the lavender hedge as the shadows grow.
A forager guards the linden tree before noon.
The old worker returns to the entrance of the hive after the frost.
The scout carries pollen to the clover field while the lime is in flower.
A house bee lands on the heather on the hill late in the season.
A house bee lands on the heather on the hill late in the season.
The wind guards the empty super as the rain sets in.
The swarm returns to the honey store in the last week of May.
A hornet crawls across the brood nest as the shadows grow.

A nurse bee flies past the lavender hedge before noon.
The beekeeper cleans the linden tree when the wind drops.
The guard leaves the third comb while the lime is in flower.
A wasp waits at the clover field late in the season.
A drone rests beside the heather on the hill under a low sun.
The colony fans the empty super in the last week of May.
The colony fans the empty super in the last week of May.
The queen circles the honey store as the shadows grow.
A young worker hums over the brood nest in the heat of the day.
A forager inspects the lavender hedge when the wind drops.
The old worker dances before a cell of fresh wax while the lime is in flower.
The scout circles the third comb at first light.
A house bee hums over the clover field under a low sun.
The wind inspects the heather on the hill in the last week of May.
The swarm dances before the empty super once the dew has gone.
A hornet carries pollen to the honey store in the heat of the day.
A hornet carries pollen to the honey store in the heat of the day.
A nurse bee lands on the brood nest when the wind drops.
The beekeeper guards the water at the ditch between two showers.
The guard returns to a cell of fresh wax at first light.
A wasp crawls across the third comb under a low sun.
A drone flies past the clover field on the longest day.
The colony cleans the heather on the hill once the dew has gone.
The queen leaves the empty super in the heat of the day.
A young worker waits at the honey store at dusk.

A forager rests beside the apple blossom between two showers.
A forager rests beside the apple blossom between two showers.
The old worker fans the water at the ditch at first light.
The scout leaves a cell of fresh wax after the frost.
A house bee waits at the third comb on the longest day.
The wind rests beside the clover field once the dew has gone.
The swarm fans the heather on the hill as the rain sets in.
A hornet circles the empty super at dusk.
A nurse bee hums over the willow by the brook between two showers.
The beekeeper inspects the apple blossom before noon.
The guard dances before the water at the ditch after the frost.
The guard dances before the water at the ditch after the frost.
A wasp carries pollen to a cell of fresh wax on the longest day.
A drone lands on the third comb late in the season.
The colony guards the clover field as the rain sets in.
The queen returns to the heather on the hill at dusk.
A young worker crawls across the sunflower row as the shadows grow.
A forager flies past the willow by the brook before noon.
The old worker cleans the apple blossom after the frost.
The scout returns to the water at the ditch while the lime is in flower.
A house bee crawls across a cell of fresh wax late in the season.
A house bee crawls across a cell of fresh wax late in the season.
The wind flies past the third comb as the rain sets in.
The swarm cleans the clover field in the last week of May.
A hornet leaves the landing board as the shadows grow.
A nurse bee waits at the sunflower row before noon.

The beekeeper rests beside the willow by the brook when the wind drops.
The guard fans the apple blossom while the lime is in flower.
A wasp circles the water at the ditch late in the season.
A drone hums over a cell of fresh wax under a low sun.
The colony inspects the third comb in the last week of May.
The colony inspects the third comb in the last week of May.
The queen dances before the entrance of the hive as the shadows grow.
A young worker carries pollen to the landing board in the heat of the day.
A forager lands on the sunflower row when the wind drops.
The old worker guards the willow by the brook while the lime is in flower.
The scout dances before the apple blossom at first light.
A house bee carries pollen to the water at the ditch under a low sun.
The wind lands on a cell of fresh wax in the last week of May.
The swarm guards the linden tree once the dew has gone.
A hornet returns to the entrance of the hive in the heat of the day.
A hornet returns to the entrance of the hive in the heat of the day.
A nurse bee crawls across the landing board when the wind drops.
The beekeeper flies past the sunflower row between two showers.
The guard cleans the willow by the brook at first light.
A wasp leaves the apple blossom under a low sun.
A drone waits at the water at the ditch on the longest day.
";

#[test]
fn sizes() {
    assert_eq!(std::mem::size_of::<SlottedLeaf>(), 4096);
    assert_eq!(std::mem::size_of::<SlottedBranch>(), 4096);
}

#[test]
fn header_and_payload_make_a_page() {
    assert_eq!(std::mem::size_of::<FlexHead>(), HEAD_SIZE);
    assert_eq!(HEAD_SIZE + DATA_LEN, PAGE_SIZE);
}

#[test]
fn lib_hello_world() {
    let mut tree = BTree::new();

    let location: usize = 6942;

    tree.insert("hello".as_bytes(), location);

    assert_eq!(tree.get("hello".as_bytes()), Some(location));
}

#[test]
fn integers() {
    let mut tree = BTree::new();

    for i in 0..10_000 {
        let key_value = format!("{i:016}");
        tree.insert(key_value.as_bytes(), i as usize);
    }

    for i in 0..1_000 {
        let key_value = format!("{i:016}");
        assert_eq!(tree.get(key_value.as_bytes()), Some(i as usize));
    }
}

#[test]
fn the_bee_movie() {
    let mut tree = BTree::new();

    let mut set = HashSet::new();

    for line in BEES.lines() {
        set.insert(line);
    }

    for line in set.iter() {
        assert!(line.len() <= MAX_KEY_LEN);
        tree.insert(line.as_bytes(), line.as_ptr() as usize);
    }

    for line in set.iter() {
        let entry = tree.get(line.as_bytes());
        assert_eq!(entry, Some(line.as_ptr() as usize))
    }
    assert!(set.len() > 200);
    assert!(tree.get_height() >= 1);
}

#[test]
fn random() {
    let mut strings = vec![];

    let chars: Vec<_> = "ABCDEFGHIJKLMNOPQRSTUVWXYZabcdefghijklmnopqrstuvwxyz.,/#?!"
        .chars()
        .collect();

    for _ in 0..10_000 {
        let len = rand::random_range(0..128);
        let mut str = String::new();

        for _ in 0..len {
            str.push(chars[rand::random_range(0..chars.len())]);
        }

        strings.push(str);
    }

    let mut tree: BTree = BTree::new();

    for string in &strings {
        tree.insert(string.as_bytes(), 0);
    }

    for string in &strings {
        assert_ne!(tree.get(string.as_bytes()), None)
    }
}

#[test]
fn empty_tree_holds_nothing() {
    let tree = BTree::new();
    assert_eq!(tree.get("anything".as_bytes()), None);
    assert_eq!(tree.get(b""), None);
    assert_eq!(tree.get_height(), 0);
    assert_eq!(tree.count_nodes(), 1);
}

#[test]
fn single_insert() {
    let mut tree = BTree::new();
    assert!(matches!(tree.insert(b"hello", 0x1B1E), InsertResult::Inserted));
    assert_eq!(tree.get(b"hello"), Some(0x1B1E));
    assert_eq!(tree.get(b"hi"), None);
    assert_eq!(tree.get(b"hell"), None);
    assert_eq!(tree.get(b"hello!"), None);
}

#[test]
fn the_empty_key_is_a_key() {
    let mut tree = BTree::new();
    tree.insert(b"", 7);
    tree.insert(b"a", 8);
    assert_eq!(tree.get(b""), Some(7));
    assert_eq!(tree.get(b"a"), Some(8));
}

#[test]
fn leaf_fill_until_split() {
    let mut tree = BTree::new();
    for i in 0..10_000usize {
        let key = format!("{i:016}");
        tree.insert(key.as_bytes(), i);
    }
    assert!(tree.get_height() >= 1);
    for i in 0..10_000usize {
        let key = format!("{i:016}");
        assert_eq!(tree.get(key.as_bytes()), Some(i));
    }
    assert_eq!(tree.get(b"0000000000010000"), None);
    assert_eq!(tree.get(b"000000000000999"), None);
}

#[test]
fn descending_inserts_are_all_found() {
    let mut tree = BTree::new();
    for i in (0..5_000usize).rev() {
        let key = format!("key-{i:07}");
        tree.insert(key.as_bytes(), i + 1);
    }
    for i in 0..5_000usize {
        let key = format!("key-{i:07}");
        assert_eq!(tree.get(key.as_bytes()), Some(i + 1));
    }
}

#[test]
fn second_insert_of_a_key_keeps_the_first_value() {
    let mut tree = BTree::new();
    assert!(matches!(tree.insert(b"twice", 1), InsertResult::Inserted));
    assert!(matches!(tree.insert(b"twice", 2), InsertResult::Inserted));
    assert_eq!(tree.get(b"twice"), Some(1));
    assert_eq!(tree.count_nodes(), 1);
}

#[test]
fn same_entry_twice_is_one_entry() {
    let mut once = BTree::new();
    let mut twice = BTree::new();
    for i in 0..2_000usize {
        let key = format!("{i:032}");
        once.insert(key.as_bytes(), i);
        twice.insert(key.as_bytes(), i);
        twice.insert(key.as_bytes(), i);
    }
    assert_eq!(once.count_nodes(), twice.count_nodes());
    assert_eq!(once.get_height(), twice.get_height());
    for i in 0..2_000usize {
        let key = format!("{i:032}");
        assert_eq!(twice.get(key.as_bytes()), Some(i));
    }
}

#[test]
fn longest_keys_grow_the_tree_by_levels() {
    let mut tree = BTree::new();
    let mut keys = vec![];
    for i in 0..3_000usize {
        let mut key = vec![b'k'; MAX_KEY_LEN - 8];
        key.extend_from_slice(format!("{i:08}").as_bytes());
        assert_eq!(key.len(), MAX_KEY_LEN);
        keys.push(key);
    }
    for (i, key) in keys.iter().enumerate() {
        tree.insert(key, i);
    }
    assert!(tree.get_height() >= 2);
    for (i, key) in keys.iter().enumerate() {
        assert_eq!(tree.get(key), Some(i));
    }
}

#[test]
fn count_nodes_counts_every_page() {
    let mut tree = BTree::new();
    assert_eq!(tree.count_nodes(), 1);
    let mut last = 1;
    for i in 0..4_000usize {
        let key = format!("{i:024}");
        tree.insert(key.as_bytes(), i);
        let now = tree.count_nodes();
        assert!(now >= last);
        last = now;
    }
    assert_eq!(
        tree.count_nodes(),
        tree.pages().leaf_count() + tree.pages().branch_count()
    );
    assert!(tree.pages().branch_count() >= tree.get_height());
}

#[test]
fn keys_in_binary_are_keys() {
    let mut tree = BTree::new();
    let keys: Vec<Vec<u8>> = vec![
        vec![0],
        vec![0, 0],
        vec![0, 0, 0, 0, 0],
        vec![0xff],
        vec![0xff, 0x00],
        vec![0xc3, 0x28],
        vec![0x80, 0x80, 0x80, 0x80, 0x01],
    ];
    for (i, key) in keys.iter().enumerate() {
        tree.insert(key, 100 + i);
    }
    for (i, key) in keys.iter().enumerate() {
        assert_eq!(tree.get(key), Some(100 + i));
    }
    assert_eq!(tree.get(&[0, 0, 0]), None);
}
