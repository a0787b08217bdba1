use slotted_btree::flex::{Flex, FlexHead, SlotNode, DATA_LEN, SENTINEL, SLOT_SIZE};
use slotted_btree::PTR_SIZE;

fn page_with(keys: &[(&[u8], usize)]) -> (FlexHead, Flex) {
    let mut header = FlexHead::new(None);
    let mut flex = Flex::new();
    for (index, (key, value)) in keys.iter().enumerate() {
        flex.insert_entry(&mut header, index, key, *value);
    }
    (header, flex)
}

#[test]
fn new_header_is_empty() {
    let header = FlexHead::new(Some(9));
    assert_eq!(header.node_count, 0);
    assert_eq!(header.key_pos as usize, DATA_LEN);
    assert_eq!(header.get_link(), Some(9));
    assert_eq!(FlexHead::new(None).get_link(), None);
}

#[test]
fn new_slot_holds_its_parts() {
    let slot = SlotNode::new(1, 2, 3);
    assert_eq!(slot.start, 1);
    assert_eq!(slot.end, 2);
    assert_eq!(slot.first_bytes, 3);
    assert_eq!(slot, SlotNode { start: 1, end: 2, first_bytes: 3 });
}

#[test]
fn new_page_is_zeroed() {
    let flex = Flex::new();
    assert_eq!(*flex.get_raw(0), 0);
    assert_eq!(*flex.get_raw(DATA_LEN / 2), 0);
    assert_eq!(*flex.get_raw(DATA_LEN - 1), 0);
}

#[test]
fn heap_entry_goes_to_the_top_of_the_heap() {
    let mut header = FlexHead::new(None);
    let mut flex = Flex::new();
    let slot = flex.add_heap_entry(&mut header, b"hello", 0x0102_0304_0506_0708);
    assert_eq!(slot.end as usize, DATA_LEN);
    assert_eq!(slot.start as usize, DATA_LEN - 5 - PTR_SIZE);
    assert_eq!(slot.first_bytes, u32::from_be_bytes(*b"hell"));
    assert_eq!(header.key_pos, slot.start);
    assert_eq!(header.node_count, 0);

    let (key, value) = flex.get_heap_entry(&header, &slot);
    assert_eq!(key, b"hello");
    assert_eq!(value, 0x0102_0304_0506_0708);

    let second = flex.add_heap_entry(&mut header, b"", 1);
    assert_eq!(second.end, slot.start);
    assert_eq!(second.start as usize, DATA_LEN - 5 - 2 * PTR_SIZE);
    assert_eq!(second.first_bytes, 0);
    assert_eq!(flex.get_heap_entry(&header, &slot), (&b"hello"[..], 0x0102_0304_0506_0708));
    assert_eq!(flex.get_heap_entry(&header, &second), (&b""[..], 1));
}

#[test]
fn address_stands_before_the_key_low_byte_first() {
    let mut header = FlexHead::new(None);
    let mut flex = Flex::new();
    let slot = flex.add_heap_entry(&mut header, b"key", 0x0102_0304_0506_0708);
    let at = slot.start as usize;
    let word: Vec<u8> = (0..PTR_SIZE).map(|i| *flex.get_raw(at + i)).collect();
    assert_eq!(word, vec![8, 7, 6, 5, 4, 3, 2, 1]);
    assert_eq!(*flex.get_raw(at + PTR_SIZE), b'k');
    assert_eq!(*flex.get_raw(at + PTR_SIZE + 1), b'e');
    assert_eq!(*flex.get_raw(at + PTR_SIZE + 2), b'y');
}

#[test]
fn slot_takes_eight_bytes_of_the_directory() {
    let mut header = FlexHead::new(None);
    let mut flex = Flex::new();
    flex.insert_stack(&mut header, 0, SlotNode::new(0x0a0b, 0x0c0d, 0x0102_0304));
    assert_eq!(header.node_count, 1);
    let bytes: Vec<u8> = (0..SLOT_SIZE).map(|i| *flex.get_raw(i)).collect();
    assert_eq!(bytes, vec![0x0b, 0x0a, 0x0d, 0x0c, 4, 3, 2, 1]);
    assert_eq!(flex.read_slot(0), SlotNode::new(0x0a0b, 0x0c0d, 0x0102_0304));
}

#[test]
fn written_slot_is_read_back() {
    let mut flex = Flex::new();
    let slot = SlotNode::new(4000, 4080, 0xdead_beef);
    flex.write_slot(3, slot);
    assert_eq!(flex.read_slot(3), slot);
    assert_eq!(flex.read_slot(2), SlotNode::new(0, 0, 0));
    assert_eq!(flex.read_slot(4), SlotNode::new(0, 0, 0));
}

#[test]
fn insert_stack_shifts_the_slots_behind() {
    let mut header = FlexHead::new(None);
    let mut flex = Flex::new();
    let a = SlotNode::new(1, 11, 1);
    let b = SlotNode::new(2, 12, 2);
    let c = SlotNode::new(3, 13, 3);
    let d = SlotNode::new(4, 14, 4);
    flex.insert_stack(&mut header, 0, b);
    flex.insert_stack(&mut header, 1, d);
    flex.insert_stack(&mut header, 0, a);
    flex.insert_stack(&mut header, 2, c);
    assert_eq!(header.node_count, 4);
    let (nodes, data) = flex.interpret(&header);
    assert_eq!(nodes, vec![a, b, c, d]);
    assert_eq!(data.len(), DATA_LEN - 4 * SLOT_SIZE);
}

#[test]
fn insert_stack_overflow_hands_back_the_last_slot() {
    let mut header = FlexHead::new(None);
    let mut flex = Flex::new();
    let a = SlotNode::new(1, 11, 1);
    let b = SlotNode::new(2, 12, 2);
    let c = SlotNode::new(3, 13, 3);
    flex.insert_stack(&mut header, 0, a);
    flex.insert_stack(&mut header, 1, b);
    flex.insert_stack(&mut header, 2, c);
    let pending = SlotNode::new(SENTINEL, SENTINEL, 9);

    let mut first = flex;
    assert_eq!(first.insert_stack_overflow(&header, 1, pending), c);
    assert_eq!(first.interpret(&header).0, vec![a, pending, b]);

    let mut front = flex;
    assert_eq!(front.insert_stack_overflow(&header, 0, pending), c);
    assert_eq!(front.interpret(&header).0, vec![pending, a, b]);

    let mut back = flex;
    assert_eq!(back.insert_stack_overflow(&header, 3, pending), pending);
    assert_eq!(back.interpret(&header).0, vec![a, b, c]);
    assert_eq!(header.node_count, 3);
}

#[test]
fn entries_are_read_in_directory_order() {
    let (header, flex) = page_with(&[(b"a", 1), (b"bb", 2), (b"ccc", 3)]);
    assert_eq!(header.node_count, 3);
    assert_eq!(header.key_pos as usize, DATA_LEN - 3 * PTR_SIZE - 6);
    assert_eq!(flex.entry_at(&header, 0), (&b"a"[..], 1));
    assert_eq!(flex.entry_at(&header, 1), (&b"bb"[..], 2));
    assert_eq!(flex.entry_at(&header, 2), (&b"ccc"[..], 3));
    assert_eq!(flex.key_at(&header, 1), b"bb");
    assert_eq!(flex.value_at(&header, 2), 3);
}

#[test]
fn insert_entry_in_the_middle_keeps_the_others() {
    let (mut header, mut flex) = page_with(&[(b"a", 1), (b"c", 3)]);
    flex.insert_entry(&mut header, 1, b"b", 2);
    assert_eq!(flex.entry_at(&header, 0), (&b"a"[..], 1));
    assert_eq!(flex.entry_at(&header, 1), (&b"b"[..], 2));
    assert_eq!(flex.entry_at(&header, 2), (&b"c"[..], 3));
}

#[test]
fn flex_upper_bound_is_first_key_not_below() {
    let (header, flex) = page_with(&[(b"b", 1), (b"d", 2), (b"f", 3)]);
    assert_eq!(flex.get_upper_bound(b"a", &header), 0);
    assert_eq!(flex.get_upper_bound(b"b", &header), 0);
    assert_eq!(flex.get_upper_bound(b"c", &header), 1);
    assert_eq!(flex.get_upper_bound(b"f", &header), 2);
    assert_eq!(flex.get_upper_bound(b"g", &header), 3);
}

#[test]
fn swap_ptr_at_returns_the_old_address() {
    let (header, mut flex) = page_with(&[(b"a", 1), (b"b", 2), (b"c", 3)]);
    assert_eq!(flex.swap_ptr_at(&header, 1, 20), 2);
    assert_eq!(flex.entry_at(&header, 0), (&b"a"[..], 1));
    assert_eq!(flex.entry_at(&header, 1), (&b"b"[..], 20));
    assert_eq!(flex.entry_at(&header, 2), (&b"c"[..], 3));
    assert_eq!(flex.swap_ptr_at(&header, 1, usize::MAX), 20);
    assert_eq!(flex.value_at(&header, 1), usize::MAX);
}

#[test]
fn swap_ptr_at_overflow_leaves_the_pending_entry() {
    let (header, mut flex) = page_with(&[(b"a", 1), (b"b", 2)]);
    assert_eq!(flex.swap_ptr_at_overflow(&header, (b"z", 77), 2, 5), 77);
    assert_eq!(flex.entry_at(&header, 0), (&b"a"[..], 1));
    assert_eq!(flex.entry_at(&header, 1), (&b"b"[..], 2));
    assert_eq!(flex.swap_ptr_at_overflow(&header, (b"z", 77), 0, 5), 1);
    assert_eq!(flex.value_at(&header, 0), 5);
}

#[test]
fn sentinel_stands_for_the_pending_entry() {
    let (header, flex) = page_with(&[(b"a", 1), (b"b", 2)]);
    let pending = SlotNode::new(SENTINEL, SENTINEL, 0);
    let stored = flex.read_slot(1);
    assert_eq!(
        flex.get_overflow_heap_entry(&header, &pending, (b"new", 9)),
        (&b"new"[..], 9)
    );
    assert_eq!(
        flex.get_overflow_heap_entry(&header, &stored, (b"new", 9)),
        (&b"b"[..], 2)
    );
}

#[test]
fn key_at_overflow_reads_the_extended_page() {
    let (header, mut flex) = page_with(&[(b"a", 1), (b"c", 3)]);
    let end_node = flex.open_overflow(&header, 1, b"b", 2);
    assert_eq!(flex.key_at_overflow(&header, 0, (b"b", 2), &end_node), b"a");
    assert_eq!(flex.key_at_overflow(&header, 1, (b"b", 2), &end_node), b"b");
    assert_eq!(flex.key_at_overflow(&header, 2, (b"b", 2), &end_node), b"c");
}

#[test]
fn from_range_copies_what_the_slots_stand_for() {
    let (header, mut flex) = page_with(&[(b"a", 1), (b"c", 3), (b"d", 4)]);
    let end_node = flex.open_overflow(&header, 1, b"b", 2);
    let (nodes, _) = flex.interpret(&header);
    let (left_head, left) = Flex::from_range(&nodes[..2], &flex, &header, None, (b"b", 2), Some(5));
    let (right_head, right) =
        Flex::from_range(&nodes[2..], &flex, &header, Some(&end_node), (b"b", 2), None);
    assert_eq!(left_head.node_count, 2);
    assert_eq!(left_head.get_link(), Some(5));
    assert_eq!(left.entry_at(&left_head, 0), (&b"a"[..], 1));
    assert_eq!(left.entry_at(&left_head, 1), (&b"b"[..], 2));
    assert_eq!(right_head.node_count, 2);
    assert_eq!(right_head.get_link(), None);
    assert_eq!(right.entry_at(&right_head, 0), (&b"c"[..], 3));
    assert_eq!(right.entry_at(&right_head, 1), (&b"d"[..], 4));
    assert_eq!(right_head.key_pos as usize, DATA_LEN - 2 * PTR_SIZE - 2);
}

#[test]
fn directory_reads_as_little_endian_words() {
    let (header, flex) = page_with(&[(b"alpha", 1), (b"beta", 2), (b"gamma", 3)]);
    let (nodes, _) = flex.interpret(&header);
    assert_eq!(nodes.len(), 3);
    for (index, node) in nodes.iter().enumerate() {
        let bytes: Vec<u8> = (0..SLOT_SIZE)
            .map(|k| *flex.get_raw(index * SLOT_SIZE + k))
            .collect();
        let start = u16::from_le(bytemuck::pod_read_unaligned::<u16>(&bytes[0..2]));
        let end = u16::from_le(bytemuck::pod_read_unaligned::<u16>(&bytes[2..4]));
        let first_bytes = u32::from_le(bytemuck::pod_read_unaligned::<u32>(&bytes[4..8]));
        assert_eq!(SlotNode::new(start, end, first_bytes), *node);
        assert_eq!(bytemuck::bytes_of(&node.start.to_le()), &bytes[0..2]);
        assert_eq!(bytemuck::bytes_of(&node.end.to_le()), &bytes[2..4]);
        assert_eq!(bytemuck::bytes_of(&node.first_bytes.to_le()), &bytes[4..8]);
    }
}

#[test]
fn address_reads_as_little_endian_word() {
    let (header, flex) = page_with(&[(b"alpha", 0x1122_3344_5566_7788)]);
    let node = flex.read_slot(0);
    let word: Vec<u8> = (0..PTR_SIZE)
        .map(|k| *flex.get_raw(node.start as usize + k))
        .collect();
    let value = u64::from_le(bytemuck::pod_read_unaligned::<u64>(&word));
    assert_eq!(value, 0x1122_3344_5566_7788);
    assert_eq!(flex.value_at(&header, 0) as u64, value);
}

#[test]
fn first_heap_entry_ends_at_4080() {
    let mut header = FlexHead::new(None);
    let mut flex = Flex::new();
    let slot = flex.add_heap_entry(&mut header, b"hello", 12345);
    assert_eq!(slot, SlotNode::new(4067, 4080, 0x6865_6C6C));
    assert_eq!(header.key_pos, 4067);
    assert_eq!(header.node_count, 0);
}
