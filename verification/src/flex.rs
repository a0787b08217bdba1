//! The raw slotted page: a fixed-size byte buffer that holds a sorted
//! directory of slot descriptors at its low end and key/address entries that
//! grow down from its high end.

use vstd::prelude::*;
use vstd::slice::slice_subrange;
use crate::btree::Node;
use crate::keys::{fingerprint, key_fingerprint, key_lt, lex_lt};
use crate::{PAGE_SIZE, PTR_SIZE};

verus! {

/// Size in bytes of the page header.
pub const HEAD_SIZE: usize = 16;

/// Size in bytes of the payload area of a page.
pub const DATA_LEN: usize = PAGE_SIZE - HEAD_SIZE;

/// Size in bytes of one slot descriptor.
pub const SLOT_SIZE: usize = 8;

/// Offset that marks a slot as standing for a pending entry that is not
/// stored in the page.
pub const SENTINEL: u16 = 0xFFFF;

/// One key with the address stored beside it.
pub struct Entry {
    pub key: Seq<u8>,
    pub value: Node,
}

/// Directory entry: where one heap entry lies, and the fingerprint of its key.
#[derive(Clone, Copy, Debug, PartialEq, Eq)]
pub struct SlotNode {
    pub start: u16,
    pub end: u16,
    pub first_bytes: u32,
}

impl SlotNode {
    pub fn new(start: u16, end: u16, first_bytes: u32) -> (r: Self)
        ensures
            r.start == start,
            r.end == end,
            r.first_bytes == first_bytes,
    {
        SlotNode { start, end, first_bytes }
    }

    /// The slot stands for a pending entry.
    pub open spec fn is_sentinel(self) -> bool {
        self.start == SENTINEL
    }

    /// The slot describes a heap entry that lies inside the payload area.
    pub open spec fn in_bounds(self) -> bool {
        self.start + PTR_SIZE <= self.end <= DATA_LEN
    }

    /// The two slots describe heap entries that share no byte.
    pub open spec fn disjoint(self, other: SlotNode) -> bool {
        self.end <= other.start || other.end <= self.start
    }
}

/// Page header: number of directory entries, offset of the lowest heap byte,
/// and one address (rightmost child of a branch, next sibling of a leaf).
#[derive(Clone, Copy, Debug)]
pub struct FlexHead {
    pub node_count: u16,
    pub key_pos: u16,
    /// Whether `pointer` holds an address.
    pub linked: bool,
    pub pointer: Node,
}

impl FlexHead {
    pub fn new(pointer: Option<Node>) -> (r: Self)
        ensures
            r.node_count == 0,
            r.key_pos == DATA_LEN,
            r.link() == pointer,
    {
        match pointer {
            Some(address) => Self {
                node_count: 0,
                key_pos: DATA_LEN as u16,
                linked: true,
                pointer: address,
            },
            None => Self { node_count: 0, key_pos: DATA_LEN as u16, linked: false, pointer: 0 },
        }
    }

    /// The address in the header, if it holds one.
    pub open spec fn link(&self) -> Option<Node> {
        if self.linked {
            Some(self.pointer)
        } else {
            None
        }
    }

    /// The address in the header, if it holds one.
    pub fn get_link(&self) -> (r: Option<Node>)
        ensures
            r == self.link(),
    {
        if self.linked {
            Some(self.pointer)
        } else {
            None
        }
    }

    /// Sets the address in the header, or takes it out.
    pub fn set_link(&mut self, pointer: Option<Node>)
        ensures
            final(self).link() == pointer,
            final(self).node_count == old(self).node_count,
            final(self).key_pos == old(self).key_pos,
    {
        match pointer {
            Some(address) => {
                self.linked = true;
                self.pointer = address;
            },
            None => {
                self.linked = false;
            },
        }
    }

    /// Bytes taken by the slot directory.
    pub open spec fn dir_bytes(&self) -> int {
        self.node_count * SLOT_SIZE
    }

    /// Bytes taken by heap entries.
    pub open spec fn heap_bytes(&self) -> int {
        DATA_LEN - self.key_pos
    }

    /// Bytes between the directory and the heap.
    pub open spec fn unused_bytes(&self) -> int {
        self.key_pos - self.node_count * SLOT_SIZE
    }
}

/// Little-endian value of the two bytes at `at`.
pub open spec fn le16(raw: Seq<u8>, at: int) -> int {
    raw[at] + 256 * raw[at + 1]
}

/// Little-endian value of the four bytes at `at`.
pub open spec fn le32(raw: Seq<u8>, at: int) -> int {
    raw[at] + 256 * raw[at + 1] + 65536 * raw[at + 2] + 16777216 * raw[at + 3]
}

/// Little-endian value of the eight bytes at `at`.
pub open spec fn le64(raw: Seq<u8>, at: int) -> int {
    le32(raw, at) + 4294967296 * le32(raw, at + 4)
}

/// The two buffers hold the same bytes everywhere but in `[lo, hi)`.
pub open spec fn same_outside(a: Seq<u8>, b: Seq<u8>, lo: int, hi: int) -> bool {
    &&& a.len() == b.len()
    &&& forall|j: int| 0 <= j < a.len() && !(lo <= j < hi) ==> a[j] == b[j]
}

/// Bytes that the entries take in the heap: each key and one address.
pub open spec fn payload(es: Seq<Entry>) -> int
    decreases es.len(),
{
    if es.len() == 0 {
        0
    } else {
        payload(es.drop_last()) + PTR_SIZE + es.last().key.len()
    }
}

/// Bytes that the entries take in a page, directory included.
pub open spec fn footprint(es: Seq<Entry>) -> int {
    es.len() * SLOT_SIZE + payload(es)
}

pub proof fn lemma_payload_push(es: Seq<Entry>, e: Entry)
    ensures
        payload(es.push(e)) == payload(es) + PTR_SIZE + e.key.len(),
{
    assert(es.push(e).drop_last() =~= es);
}

pub proof fn lemma_payload_concat(a: Seq<Entry>, b: Seq<Entry>)
    ensures
        payload(a + b) == payload(a) + payload(b),
    decreases b.len(),
{
    if b.len() == 0 {
        assert(a + b =~= a);
    } else {
        lemma_payload_concat(a, b.drop_last());
        assert((a + b).drop_last() =~= a + b.drop_last());
    }
}

pub proof fn lemma_payload_split(es: Seq<Entry>, at: int)
    requires
        0 <= at <= es.len(),
    ensures
        payload(es) == payload(es.take(at)) + payload(es.skip(at)),
{
    lemma_payload_concat(es.take(at), es.skip(at));
    assert(es.take(at) + es.skip(at) =~= es);
}

pub proof fn lemma_payload_insert(es: Seq<Entry>, at: int, e: Entry)
    requires
        0 <= at <= es.len(),
    ensures
        payload(es.insert(at, e)) == payload(es) + PTR_SIZE + e.key.len(),
{
    let one = Seq::<Entry>::empty().push(e);
    lemma_payload_push(Seq::<Entry>::empty(), e);
    lemma_payload_split(es, at);
    lemma_payload_concat(es.take(at), one);
    lemma_payload_concat(es.take(at) + one, es.skip(at));
    assert(es.insert(at, e) =~= es.take(at) + one + es.skip(at));
}

pub proof fn lemma_payload_update(es: Seq<Entry>, at: int, e: Entry)
    requires
        0 <= at < es.len(),
    ensures
        payload(es.update(at, e)) == payload(es) - es[at].key.len() + e.key.len(),
{
    let rest = es.remove(at);
    lemma_payload_insert(rest, at, es[at]);
    lemma_payload_insert(rest, at, e);
    assert(rest.insert(at, es[at]) =~= es);
    assert(rest.insert(at, e) =~= es.update(at, e));
}

/// The heap has room for each of its entries.
pub proof fn lemma_payload_member(es: Seq<Entry>, at: int)
    requires
        0 <= at < es.len(),
    ensures
        payload(es) >= PTR_SIZE + es[at].key.len(),
        footprint(es) >= SLOT_SIZE + PTR_SIZE + es[at].key.len(),
{
    let rest = es.remove(at);
    lemma_payload_insert(rest, at, es[at]);
    assert(rest.insert(at, es[at]) =~= es);
    lemma_payload_bounds(rest);
}

pub proof fn lemma_payload_bounds(es: Seq<Entry>)
    ensures
        payload(es) >= es.len() * PTR_SIZE,
    decreases es.len(),
{
    if es.len() > 0 {
        lemma_payload_bounds(es.drop_last());
    }
}

/// The raw payload area of one page.
#[derive(Clone, Copy, Debug)]
pub struct Flex {
    raw: [u8; DATA_LEN],
}

impl Flex {
    /// The bytes of the payload area.
    pub closed spec fn view(&self) -> Seq<u8> {
        self.raw@
    }

    /// Slot descriptor `i` of the directory.
    pub open spec fn slot(&self, i: int) -> SlotNode {
        SlotNode {
            start: le16(self@, SLOT_SIZE * i) as u16,
            end: le16(self@, SLOT_SIZE * i + 2) as u16,
            first_bytes: le32(self@, SLOT_SIZE * i + 4) as u32,
        }
    }

    /// The first `n` slot descriptors of the directory.
    pub open spec fn slots(&self, n: int) -> Seq<SlotNode> {
        Seq::new(n as nat, |i: int| self.slot(i))
    }

    /// Key bytes of the heap entry that the slot describes.
    pub open spec fn heap_key(&self, node: SlotNode) -> Seq<u8> {
        self@.subrange(node.start + PTR_SIZE, node.end as int)
    }

    /// Address word of the heap entry that the slot describes.
    pub open spec fn heap_word(&self, node: SlotNode) -> int {
        le64(self@, node.start as int)
    }

    /// The heap entry that the slot describes.
    pub open spec fn entry(&self, node: SlotNode) -> Entry {
        Entry { key: self.heap_key(node), value: self.heap_word(node) as usize }
    }

    /// The entry that the slot stands for: the pending one for a sentinel,
    /// else the heap entry.
    pub open spec fn overflow_entry(&self, node: SlotNode, extra: Entry) -> Entry {
        if node.is_sentinel() {
            extra
        } else {
            self.entry(node)
        }
    }

    /// The entries of the page in directory order.
    pub open spec fn entries(&self, header: &FlexHead) -> Seq<Entry> {
        Seq::new(header.node_count as nat, |i: int| self.entry(self.slot(i)))
    }

    /// The slot describes a heap entry of this page that lies at or above
    /// `key_pos` and carries the fingerprint of its key.
    pub open spec fn slot_ok(&self, node: SlotNode, key_pos: int) -> bool {
        &&& key_pos <= node.start
        &&& node.in_bounds()
        &&& node.first_bytes == fingerprint(self.heap_key(node))
    }

    /// The page is laid out as it should be: directory and heap do not
    /// overlap, every slot describes a heap entry above `key_pos`, no two
    /// heap entries overlap, and the heap holds nothing but the entries.
    pub open spec fn wf(&self, header: &FlexHead) -> bool {
        &&& header.node_count * SLOT_SIZE <= header.key_pos <= DATA_LEN
        &&& forall|i: int|
            0 <= i < header.node_count ==> self.slot_ok(#[trigger] self.slot(i), header.key_pos as int)
        &&& forall|i: int, j: int|
            0 <= i < j < header.node_count ==> (#[trigger] self.slot(i)).disjoint(
                #[trigger] self.slot(j),
            )
        &&& payload(self.entries(header)) == DATA_LEN - header.key_pos
    }

    pub fn new() -> (r: Self)
        ensures
            forall|header: FlexHead|
                header.node_count == 0 && header.key_pos == DATA_LEN ==> #[trigger] r.wf(&header),
            forall|i: int| 0 <= i < DATA_LEN ==> r@[i] == 0,
    {
        let r = Self { raw: [0u8; DATA_LEN] };
        proof {
            assert forall|header: FlexHead|
                header.node_count == 0 && header.key_pos == DATA_LEN implies #[trigger] r.wf(
                &header,
            ) by {
                assert(r.entries(&header) =~= Seq::<Entry>::empty());
            }
        }
        r
    }

    pub fn get_raw(&self, index: usize) -> (b: &u8)
        requires
            index < DATA_LEN,
        ensures
            *b == self@[index as int],
    {
        &self.raw[index]
    }

    fn read_u16(&self, at: usize) -> (x: u16)
        requires
            at + 2 <= DATA_LEN,
        ensures
            x == le16(self@, at as int),
    {
        let b0: u16 = self.raw[at] as u16;
        let b1: u16 = self.raw[at + 1] as u16;
        b0 + 256 * b1
    }

    fn read_u32(&self, at: usize) -> (x: u32)
        requires
            at + 4 <= DATA_LEN,
        ensures
            x == le32(self@, at as int),
    {
        let b0: u32 = self.raw[at] as u32;
        let b1: u32 = self.raw[at + 1] as u32;
        let b2: u32 = self.raw[at + 2] as u32;
        let b3: u32 = self.raw[at + 3] as u32;
        b0 + 256 * b1 + 65536 * b2 + 16777216 * b3
    }

    fn read_word(&self, at: usize) -> (x: u64)
        requires
            at + 8 <= DATA_LEN,
        ensures
            x == le64(self@, at as int),
    {
        let lo: u64 = self.read_u32(at) as u64;
        let hi: u64 = self.read_u32(at + 4) as u64;
        lo + 4294967296 * hi
    }

    fn write_u16(&mut self, at: usize, x: u16)
        requires
            at + 2 <= DATA_LEN,
        ensures
            same_outside(old(self)@, final(self)@, at as int, at + 2),
            le16(final(self)@, at as int) == x,
    {
        self.raw[at] = (x % 256) as u8;
        self.raw[at + 1] = (x / 256) as u8;
    }

    fn write_u32(&mut self, at: usize, x: u32)
        requires
            at + 4 <= DATA_LEN,
        ensures
            same_outside(old(self)@, final(self)@, at as int, at + 4),
            le32(final(self)@, at as int) == x,
    {
        self.raw[at] = (x % 256) as u8;
        self.raw[at + 1] = ((x / 256) % 256) as u8;
        self.raw[at + 2] = ((x / 65536) % 256) as u8;
        self.raw[at + 3] = (x / 16777216) as u8;
    }

    fn write_word(&mut self, at: usize, x: u64)
        requires
            at + 8 <= DATA_LEN,
        ensures
            same_outside(old(self)@, final(self)@, at as int, at + 8),
            le64(final(self)@, at as int) == x,
    {
        self.write_u32(at, (x % 4294967296) as u32);
        self.write_u32(at + 4, (x / 4294967296) as u32);
    }

    /// Reads slot descriptor `index` of the directory.
    pub fn read_slot(&self, index: usize) -> (s: SlotNode)
        requires
            (index + 1) * SLOT_SIZE <= DATA_LEN,
        ensures
            s == self.slot(index as int),
    {
        let at: usize = index * SLOT_SIZE;
        SlotNode {
            start: self.read_u16(at),
            end: self.read_u16(at + 2),
            first_bytes: self.read_u32(at + 4),
        }
    }

    /// Overwrites slot descriptor `index` of the directory.
    pub fn write_slot(&mut self, index: usize, s: SlotNode)
        requires
            (index + 1) * SLOT_SIZE <= DATA_LEN,
        ensures
            same_outside(old(self)@, final(self)@, index * SLOT_SIZE, (index + 1) * SLOT_SIZE),
            final(self).slot(index as int) == s,
    {
        let at: usize = index * SLOT_SIZE;
        self.write_u16(at, s.start);
        self.write_u16(at + 2, s.end);
        self.write_u32(at + 4, s.first_bytes);
    }

    /// The payload area has the size that the page leaves for it.
    pub proof fn lemma_len(&self)
        ensures
            self@.len() == DATA_LEN,
    {
    }

    /// A slot descriptor outside the bytes that changed is unchanged.
    pub proof fn lemma_frame_slot(&self, other: &Flex, lo: int, hi: int, i: int)
        requires
            same_outside(self@, other@, lo, hi),
            0 <= i,
            (i + 1) * SLOT_SIZE <= DATA_LEN,
            (i + 1) * SLOT_SIZE <= lo || hi <= i * SLOT_SIZE,
        ensures
            self.slot(i) == other.slot(i),
    {
    }

    /// A heap entry outside the bytes that changed is unchanged.
    pub proof fn lemma_frame_entry(&self, other: &Flex, lo: int, hi: int, node: SlotNode)
        requires
            same_outside(self@, other@, lo, hi),
            node.in_bounds(),
            node.end <= lo || hi <= node.start,
        ensures
            self.heap_key(node) == other.heap_key(node),
            self.heap_word(node) == other.heap_word(node),
            self.entry(node) == other.entry(node),
    {
        assert(self.heap_key(node) =~= other.heap_key(node));
    }

    /// Decodes the directory, and lends the payload area behind it.
    pub fn interpret(&self, header: &FlexHead) -> (r: (Vec<SlotNode>, &[u8]))
        requires
            header.node_count * SLOT_SIZE <= DATA_LEN,
        ensures
            r.0@ == self.slots(header.node_count as int),
            r.1@ == self@.subrange(header.node_count * SLOT_SIZE, DATA_LEN as int),
    {
        let n: usize = header.node_count as usize;
        let mut nodes: Vec<SlotNode> = Vec::new();
        let mut i: usize = 0;
        while i < n
            invariant
                i <= n,
                n * SLOT_SIZE <= DATA_LEN,
                nodes@ == self.slots(i as int),
            decreases n - i,
        {
            nodes.push(self.read_slot(i));
            i += 1;
            proof {
                assert(nodes@ =~= self.slots(i as int));
            }
        }
        let data = slice_subrange(self.raw.as_slice(), n * SLOT_SIZE, DATA_LEN);
        (nodes, data)
    }

    /// Reads the heap entry that the slot describes.
    pub fn get_heap_entry(&self, header: &FlexHead, node: &SlotNode) -> (r: (&[u8], Node))
        requires
            header.node_count * SLOT_SIZE <= node.start,
            node.in_bounds(),
        ensures
            r.0@ == self.entry(*node).key,
            r.1 == self.entry(*node).value,
    {
        let key = slice_subrange(
            self.raw.as_slice(),
            node.start as usize + PTR_SIZE,
            node.end as usize,
        );
        let word: u64 = self.read_word(node.start as usize);
        (key, #[verifier::truncate] (word as usize))
    }

    /// Reads the entry that the slot stands for: the pending entry for a
    /// sentinel slot, else the heap entry.
    pub fn get_overflow_heap_entry<'a>(
        &'a self,
        header: &FlexHead,
        node: &SlotNode,
        extra_slot: (&'a [u8], Node),
    ) -> (r: (&'a [u8], Node))
        requires
            node.is_sentinel() || (header.node_count * SLOT_SIZE <= node.start && node.in_bounds()),
        ensures
            entry_of(r.0, r.1) == self.overflow_entry(*node, entry_of(extra_slot.0, extra_slot.1)),
    {
        if node.start == SENTINEL {
            return extra_slot;
        }
        self.get_heap_entry(header, node)
    }

    /// Entry `index` of the page.
    pub fn entry_at(&self, header: &FlexHead, index: usize) -> (r: (&[u8], Node))
        requires
            self.wf(header),
            index < header.node_count,
        ensures
            entry_of(r.0, r.1) == self.entries(header)[index as int],
    {
        let node = self.read_slot(index);
        proof {
            assert(self.slot_ok(self.slot(index as int), header.key_pos as int));
        }
        self.get_heap_entry(header, &node)
    }

    /// Key of entry `index` of the page.
    pub fn key_at(&self, header: &FlexHead, index: usize) -> (r: &[u8])
        requires
            self.wf(header),
            index < header.node_count,
        ensures
            r@ == self.entries(header)[index as int].key,
    {
        self.entry_at(header, index).0
    }

    /// Address of entry `index` of the page.
    pub fn value_at(&self, header: &FlexHead, index: usize) -> (r: Node)
        requires
            self.wf(header),
            index < header.node_count,
        ensures
            r == self.entries(header)[index as int].value,
    {
        self.entry_at(header, index).1
    }

    /// Key at position `index` of the page extended by one evicted slot:
    /// position `node_count` is the evicted slot, and a sentinel anywhere
    /// stands for the pending entry.
    pub fn key_at_overflow<'a>(
        &'a self,
        header: &'a FlexHead,
        index: usize,
        extra_slot: (&'a [u8], Node),
        extra_node: &SlotNode,
    ) -> (r: &'a [u8])
        requires
            index <= header.node_count,
            header.node_count * SLOT_SIZE <= DATA_LEN,
            ({
                let node = if index == header.node_count {
                    *extra_node
                } else {
                    self.slot(index as int)
                };
                node.is_sentinel() || (header.node_count * SLOT_SIZE <= node.start
                    && node.in_bounds())
            }),
        ensures
            r@ == self.overflow_entry(
                if index == header.node_count {
                    *extra_node
                } else {
                    self.slot(index as int)
                },
                entry_of(extra_slot.0, extra_slot.1),
            ).key,
    {
        if index == header.node_count as usize {
            self.get_overflow_heap_entry(header, extra_node, extra_slot).0
        } else {
            let node = self.read_slot(index);
            self.get_overflow_heap_entry(header, &node, extra_slot).0
        }
    }

    /// Replaces the address of entry `index` and returns the one it held.
    pub fn swap_ptr_at(&mut self, header: &FlexHead, index: usize, ptr: Node) -> (old_ptr: Node)
        requires
            old(self).wf(header),
            index < header.node_count,
        ensures
            final(self).wf(header),
            old_ptr == old(self).entries(header)[index as int].value,
            final(self).entries(header) == old(self).entries(header).update(
                index as int,
                Entry { key: old(self).entries(header)[index as int].key, value: ptr },
            ),
    {
        let ghost before = *self;
        let node = self.read_slot(index);
        proof {
            assert(self.slot_ok(self.slot(index as int), header.key_pos as int));
        }
        let word: u64 = self.read_word(node.start as usize);
        self.write_word(node.start as usize, ptr as u64);
        proof {
            let n = header.node_count as int;
            let lo = node.start as int;
            let hi = node.start + PTR_SIZE;
            assert forall|i: int| 0 <= i < n implies #[trigger] self.slot(i) == before.slot(i) by {
                before.lemma_frame_slot(self, lo, hi, i);
            }
            assert(self.heap_key(node) =~= before.heap_key(node));
            assert forall|i: int| 0 <= i < n && i != index implies self.entry(
                #[trigger] self.slot(i),
            ) == before.entry(before.slot(i)) by {
                let s = before.slot(i);
                assert(before.slot_ok(s, header.key_pos as int));
                if i < index {
                    assert(before.slot(i).disjoint(before.slot(index as int)));
                } else {
                    assert(before.slot(index as int).disjoint(before.slot(i)));
                }
                before.lemma_frame_entry(self, lo, hi, s);
            }
            let e = Entry { key: before.entries(header)[index as int].key, value: ptr };
            assert(self.entries(header) =~= before.entries(header).update(index as int, e));
            lemma_payload_update(before.entries(header), index as int, e);
            assert forall|i: int| 0 <= i < n implies self.slot_ok(
                #[trigger] self.slot(i),
                header.key_pos as int,
            ) by {
                let s = before.slot(i);
                assert(before.slot_ok(s, header.key_pos as int));
                if i != index {
                    if i < index {
                        assert(before.slot(i).disjoint(before.slot(index as int)));
                    } else {
                        assert(before.slot(index as int).disjoint(before.slot(i)));
                    }
                    before.lemma_frame_entry(self, lo, hi, s);
                }
            }
        }
        #[verifier::truncate]
        (word as usize)
    }

    /// As `swap_ptr_at`, over the page extended by the pending entry at
    /// position `node_count`: the pending entry is not stored, so at that
    /// position nothing changes and the address it carries is returned.
    pub fn swap_ptr_at_overflow(
        &mut self,
        header: &FlexHead,
        extra_slot: (&[u8], Node),
        index: usize,
        ptr: Node,
    ) -> (old_ptr: Node)
        requires
            old(self).wf(header),
            index <= header.node_count,
        ensures
            final(self).wf(header),
            index == header.node_count ==> old_ptr == extra_slot.1 && *final(self) == *old(self),
            index < header.node_count ==> old_ptr == old(self).entries(header)[index as int].value
                && final(self).entries(header) == old(self).entries(header).update(
                index as int,
                Entry { key: old(self).entries(header)[index as int].key, value: ptr },
            ),
    {
        if index == header.node_count as usize {
            return extra_slot.1;
        }
        self.swap_ptr_at(header, index, ptr)
    }

    /// Writes the address and then the key at the top of the heap and
    /// returns the slot that describes them. The directory is left as it is.
    pub fn add_heap_entry(&mut self, header: &mut FlexHead, key: &[u8], value: Node) -> (slot:
        SlotNode)
        requires
            old(header).key_pos <= DATA_LEN,
            old(header).node_count * SLOT_SIZE + key.len() + PTR_SIZE <= old(header).key_pos,
        ensures
            slot.end == old(header).key_pos,
            slot.start == old(header).key_pos - key.len() - PTR_SIZE,
            slot.first_bytes == fingerprint(key@),
            final(header).key_pos == slot.start,
            final(header).node_count == old(header).node_count,
            final(header).linked == old(header).linked,
            final(header).pointer == old(header).pointer,
            same_outside(old(self)@, final(self)@, slot.start as int, slot.end as int),
            final(self).entry(slot) == entry_of(key, value),
    {
        let ghost before = *self;
        let slot_end: usize = header.key_pos as usize;
        let slot_len: usize = key.len() + PTR_SIZE;
        let slot_start: usize = slot_end - slot_len;
        self.write_word(slot_start, value as u64);
        let mut i: usize = 0;
        while i < key.len()
            invariant
                i <= key.len(),
                slot_start + PTR_SIZE + key.len() == slot_end,
                slot_end <= DATA_LEN,
                same_outside(before@, self@, slot_start as int, slot_end as int),
                le64(self@, slot_start as int) == value,
                forall|j: int| 0 <= j < i ==> self@[slot_start + PTR_SIZE + j] == key@[j],
            decreases key.len() - i,
        {
            self.raw[slot_start + PTR_SIZE + i] = key[i];
            i += 1;
        }
        header.key_pos = slot_start as u16;
        let slot = SlotNode::new(slot_start as u16, slot_end as u16, key_fingerprint(key));
        proof {
            assert(self.heap_key(slot) =~= key@);
        }
        slot
    }

    /// Index of the first entry whose key is not smaller than `key`.
    pub fn get_upper_bound(&self, key: &[u8], header: &FlexHead) -> (index: usize)
        requires
            self.wf(header),
        ensures
            index <= header.node_count,
            forall|j: int| 0 <= j < index ==> lex_lt(#[trigger] self.entries(header)[j].key, key@),
            index < header.node_count ==> !lex_lt(self.entries(header)[index as int].key, key@),
    {
        let n: usize = header.node_count as usize;
        let mut slot_nr: usize = 0;
        while slot_nr < n
            invariant
                slot_nr <= n,
                n == header.node_count,
                self.wf(header),
                forall|j: int|
                    0 <= j < slot_nr ==> lex_lt(#[trigger] self.entries(header)[j].key, key@),
            decreases n - slot_nr,
        {
            let node_key = self.key_at(header, slot_nr);
            if !key_lt(node_key, key) {
                return slot_nr;
            }
            slot_nr += 1;
        }
        slot_nr
    }

    /// Grows the directory by one and enters `entry` at `index`, moving the
    /// slots from `index` on one place up.
    pub fn insert_stack(&mut self, header: &mut FlexHead, index: usize, entry: SlotNode)
        requires
            index <= old(header).node_count,
            (old(header).node_count + 1) * SLOT_SIZE <= DATA_LEN,
        ensures
            final(header).node_count == old(header).node_count + 1,
            final(header).key_pos == old(header).key_pos,
            final(header).linked == old(header).linked,
            final(header).pointer == old(header).pointer,
            final(self).slots(final(header).node_count as int) == old(self).slots(
                old(header).node_count as int,
            ).insert(index as int, entry),
            same_outside(
                old(self)@,
                final(self)@,
                index * SLOT_SIZE,
                (old(header).node_count + 1) * SLOT_SIZE,
            ),
    {
        let ghost before = *self;
        let n: usize = header.node_count as usize;
        header.node_count = header.node_count + 1;
        let mut j: usize = n;
        while j > index
            invariant
                index <= j <= n,
                (n + 1) * SLOT_SIZE <= DATA_LEN,
                same_outside(before@, self@, index * SLOT_SIZE, (n + 1) * SLOT_SIZE),
                forall|k: int| j < k <= n ==> #[trigger] self.slot(k) == before.slot(k - 1),
                forall|k: int| 0 <= k <= j && k < n ==> #[trigger] self.slot(k) == before.slot(k),
            decreases j,
        {
            let ghost prev = *self;
            let moved = self.read_slot(j - 1);
            self.write_slot(j, moved);
            proof {
                assert forall|k: int| 0 <= k <= n && k != j implies #[trigger] self.slot(k)
                    == prev.slot(k) by {
                    prev.lemma_frame_slot(self, j * SLOT_SIZE, (j + 1) * SLOT_SIZE, k);
                }
            }
            j -= 1;
        }
        let ghost prev = *self;
        self.write_slot(index, entry);
        proof {
            assert forall|k: int| 0 <= k <= n && k != index implies #[trigger] self.slot(k)
                == prev.slot(k) by {
                prev.lemma_frame_slot(self, index * SLOT_SIZE, (index + 1) * SLOT_SIZE, k);
            }
            assert(self.slots(n + 1) =~= before.slots(n as int).insert(index as int, entry));
        }
    }

    /// Enters `entry` at `index` without growing the directory: the slots
    /// from `index` on move one place up and the last one is handed back.
    pub fn insert_stack_overflow(&mut self, header: &FlexHead, index: usize, entry: SlotNode) -> (last:
        SlotNode)
        requires
            index <= header.node_count,
            header.node_count * SLOT_SIZE <= DATA_LEN,
        ensures
            final(self).slots(header.node_count as int).push(last) == old(self).slots(
                header.node_count as int,
            ).insert(index as int, entry),
            same_outside(
                old(self)@,
                final(self)@,
                index * SLOT_SIZE,
                header.node_count * SLOT_SIZE,
            ),
    {
        let ghost before = *self;
        let n: usize = header.node_count as usize;
        if index == n {
            proof {
                assert(self.slots(n as int).push(entry) =~= before.slots(n as int).insert(
                    index as int,
                    entry,
                ));
            }
            return entry;
        }
        let last = self.read_slot(n - 1);
        let mut j: usize = n - 1;
        while j > index
            invariant
                index <= j < n,
                n * SLOT_SIZE <= DATA_LEN,
                same_outside(before@, self@, index * SLOT_SIZE, n * SLOT_SIZE),
                forall|k: int| j < k < n ==> #[trigger] self.slot(k) == before.slot(k - 1),
                forall|k: int| 0 <= k <= j ==> #[trigger] self.slot(k) == before.slot(k),
            decreases j,
        {
            let ghost prev = *self;
            let moved = self.read_slot(j - 1);
            self.write_slot(j, moved);
            proof {
                assert forall|k: int| 0 <= k < n && k != j implies #[trigger] self.slot(k)
                    == prev.slot(k) by {
                    prev.lemma_frame_slot(self, j * SLOT_SIZE, (j + 1) * SLOT_SIZE, k);
                }
            }
            j -= 1;
        }
        let ghost prev = *self;
        self.write_slot(index, entry);
        proof {
            assert forall|k: int| 0 <= k < n && k != index implies #[trigger] self.slot(k)
                == prev.slot(k) by {
                prev.lemma_frame_slot(self, index * SLOT_SIZE, (index + 1) * SLOT_SIZE, k);
            }
            assert(self.slots(n as int).push(last) =~= before.slots(n as int).insert(
                index as int,
                entry,
            ));
        }
        last
    }

    /// Stores the entry in the heap and enters its slot at `index` of the
    /// directory.
    pub fn insert_entry(&mut self, header: &mut FlexHead, index: usize, key: &[u8], value: Node)
        requires
            old(self).wf(old(header)),
            index <= old(header).node_count,
            old(header).unused_bytes() >= key.len() + PTR_SIZE + SLOT_SIZE,
        ensures
            final(self).wf(final(header)),
            final(self).entries(final(header)) == old(self).entries(old(header)).insert(
                index as int,
                entry_of(key, value),
            ),
            final(header).node_count == old(header).node_count + 1,
            final(header).key_pos == old(header).key_pos - key.len() - PTR_SIZE,
            final(header).linked == old(header).linked,
            final(header).pointer == old(header).pointer,
    {
        let ghost f0 = *self;
        let ghost h0 = *header;
        let slot = self.add_heap_entry(header, key, value);
        let ghost f1 = *self;
        self.insert_stack(header, index, slot);
        proof {
            let n = h0.node_count as int;
            let at = index as int;
            let lo = at * SLOT_SIZE;
            let hi = (n + 1) * SLOT_SIZE;
            assert forall|i: int| 0 <= i < n implies #[trigger] f1.slot(i) == f0.slot(i) by {
                f0.lemma_frame_slot(&f1, slot.start as int, slot.end as int, i);
            }
            assert(f1.slots(n) =~= f0.slots(n));
            f1.lemma_frame_entry(self, lo, hi, slot);
            assert forall|i: int| 0 <= i < n implies self.entry(#[trigger] f0.slot(i))
                == f0.entry(f0.slot(i)) by {
                let s = f0.slot(i);
                assert(f0.slot_ok(s, h0.key_pos as int));
                f0.lemma_frame_entry(&f1, slot.start as int, slot.end as int, s);
                f1.lemma_frame_entry(self, lo, hi, s);
            }
            Self::lemma_insert_wf(f0, h0, *self, *header, at, slot, entry_of(key, value));
        }
    }

    /// Entering a fresh heap entry that lies right below the old heap keeps
    /// the page well laid out and inserts the entry into its contents.
    proof fn lemma_insert_wf(
        f0: Flex,
        h0: FlexHead,
        f2: Flex,
        h2: FlexHead,
        at: int,
        slot: SlotNode,
        e: Entry,
    )
        requires
            f0.wf(&h0),
            0 <= at <= h0.node_count,
            h2.node_count == h0.node_count + 1,
            h2.key_pos == slot.start,
            slot.end == h0.key_pos,
            slot.start + PTR_SIZE <= slot.end,
            h2.node_count * SLOT_SIZE <= slot.start,
            f2.slots(h2.node_count as int) == f0.slots(h0.node_count as int).insert(at, slot),
            forall|i: int|
                0 <= i < h0.node_count ==> f2.entry(#[trigger] f0.slot(i)) == f0.entry(f0.slot(i)),
            f2.entry(slot) == e,
            slot.first_bytes == fingerprint(e.key),
        ensures
            f2.wf(&h2),
            f2.entries(&h2) == f0.entries(&h0).insert(at, e),
    {
        let n = h0.node_count as int;
        let s0 = f0.slots(n);
        let s2 = f2.slots(n + 1);
        assert forall|i: int| 0 <= i < n + 1 implies #[trigger] f2.slot(i) == (if i < at {
            f0.slot(i)
        } else if i == at {
            slot
        } else {
            f0.slot(i - 1)
        }) by {
            assert(s2[i] == f2.slot(i));
            assert(s2[i] == s0.insert(at, slot)[i]);
            if i < at {
                assert(s0[i] == f0.slot(i));
            } else if i > at {
                assert(s0[i - 1] == f0.slot(i - 1));
            }
        }
        assert(f2.entries(&h2) =~= f0.entries(&h0).insert(at, e)) by {
            assert forall|i: int| 0 <= i < n + 1 implies f2.entries(&h2)[i] == f0.entries(
                &h0,
            ).insert(at, e)[i] by {
                if i < at {
                    assert(f2.slot(i) == f0.slot(i));
                } else if i > at {
                    assert(f2.slot(i) == f0.slot(i - 1));
                } else {
                    assert(f2.slot(i) == slot);
                }
            }
        }
        lemma_payload_insert(f0.entries(&h0), at, e);
        assert forall|i: int| 0 <= i < n + 1 implies f2.slot_ok(
            #[trigger] f2.slot(i),
            h2.key_pos as int,
        ) by {
            if i < at {
                assert(f0.slot_ok(f0.slot(i), h0.key_pos as int));
            } else if i > at {
                assert(f0.slot_ok(f0.slot(i - 1), h0.key_pos as int));
            }
        }
        assert forall|i: int, j: int| 0 <= i < j < n + 1 implies (#[trigger] f2.slot(
            i,
        )).disjoint(#[trigger] f2.slot(j)) by {
            let a = if i < at {
                i
            } else {
                i - 1
            };
            let b = if j < at {
                j
            } else {
                j - 1
            };
            if i != at && j != at {
                assert(f0.slot(a).disjoint(f0.slot(b)));
            } else if i == at {
                assert(f0.slot_ok(f0.slot(b), h0.key_pos as int));
            } else {
                assert(f0.slot_ok(f0.slot(a), h0.key_pos as int));
            }
        }
    }

    /// The entries that the slots stand for, a sentinel standing for `extra`.
    pub open spec fn overflow_entries(&self, nodes: Seq<SlotNode>, extra: Entry) -> Seq<Entry> {
        Seq::new(nodes.len(), |i: int| self.overflow_entry(nodes[i], extra))
    }

    /// The address in the header has no part in the layout of the page.
    pub proof fn lemma_pointer_free(&self, h1: &FlexHead, h2: &FlexHead)
        requires
            h1.node_count == h2.node_count,
            h1.key_pos == h2.key_pos,
        ensures
            self.entries(h1) == self.entries(h2),
            self.wf(h1) == self.wf(h2),
    {
        assert(self.entries(h1) =~= self.entries(h2));
    }

    /// The entries that a part of a run of slots stands for are that part
    /// of the entries that the run stands for.
    pub proof fn lemma_overflow_parts(&self, nodes: Seq<SlotNode>, extra: Entry, at: int)
        requires
            0 <= at <= nodes.len(),
        ensures
            self.overflow_entries(nodes.take(at), extra) == self.overflow_entries(
                nodes,
                extra,
            ).take(at),
            self.overflow_entries(nodes.skip(at), extra) == self.overflow_entries(
                nodes,
                extra,
            ).skip(at),
    {
        assert(self.overflow_entries(nodes.take(at), extra) =~= self.overflow_entries(
            nodes,
            extra,
        ).take(at));
        assert(self.overflow_entries(nodes.skip(at), extra) =~= self.overflow_entries(
            nodes,
            extra,
        ).skip(at));
    }

    /// Directory, free space and heap make up the payload area, and the
    /// heap holds exactly the entries.
    pub proof fn lemma_accounting(&self, header: &FlexHead)
        requires
            self.wf(header),
        ensures
            header.unused_bytes() + header.dir_bytes() + header.heap_bytes() == DATA_LEN,
            header.unused_bytes() >= 0,
            header.heap_bytes() == payload(self.entries(header)),
            header.dir_bytes() == self.entries(header).len() * SLOT_SIZE,
            header.unused_bytes() == DATA_LEN - footprint(self.entries(header)),
    {
    }

    /// After a sentinel was entered into the directory in place, the
    /// directory followed by the evicted slot stands for the old entries
    /// with the pending one inserted, and each of its slots can be read.
    pub proof fn lemma_overflow(
        &self,
        after: &Flex,
        header: &FlexHead,
        index: int,
        sentinel: SlotNode,
        last: SlotNode,
        extra: Entry,
    )
        requires
            self.wf(header),
            0 <= index <= header.node_count,
            sentinel.is_sentinel(),
            after.slots(header.node_count as int).push(last) == self.slots(
                header.node_count as int,
            ).insert(index, sentinel),
            same_outside(self@, after@, index * SLOT_SIZE, header.node_count * SLOT_SIZE),
        ensures
            forall|p: int|
                0 <= p <= header.node_count ==> readable(
                    #[trigger] after.slots(header.node_count as int).push(last)[p],
                    header.dir_bytes(),
                ),
            after.overflow_entries(after.slots(header.node_count as int).push(last), extra)
                == self.entries(header).insert(index, extra),
    {
        let n = header.node_count as int;
        let logical = after.slots(n).push(last);
        let s0 = self.slots(n);
        assert forall|p: int| 0 <= p <= n implies readable(#[trigger] logical[p], header.dir_bytes())
            && after.overflow_entry(logical[p], extra) == self.entries(header).insert(
            index,
            extra,
        )[p] by {
            assert(logical[p] == s0.insert(index, sentinel)[p]);
            if p != index {
                let q = if p < index {
                    p
                } else {
                    p - 1
                };
                assert(logical[p] == self.slot(q));
                assert(self.slot_ok(self.slot(q), header.key_pos as int));
                self.lemma_frame_entry(after, index * SLOT_SIZE, n * SLOT_SIZE, self.slot(q));
            }
        }
        assert(after.overflow_entries(logical, extra) =~= self.entries(header).insert(
            index,
            extra,
        ));
    }

    /// The slots of the directory followed by `end_node`.
    pub open spec fn overflow_slots(&self, header: &FlexHead, end_node: SlotNode) -> Seq<SlotNode> {
        self.slots(header.node_count as int).push(end_node)
    }

    /// The entries of the page extended by the pending entry `extra`, where
    /// the directory holds a sentinel and `end_node` is the slot pushed out.
    pub open spec fn overflow_view(&self, header: &FlexHead, end_node: SlotNode, extra: Entry) -> Seq<
        Entry,
    > {
        self.overflow_entries(self.overflow_slots(header, end_node), extra)
    }

    /// Every slot of the directory, and `end_node`, can be read.
    #[verifier::opaque]
    pub open spec fn overflow_ok(&self, header: &FlexHead, end_node: SlotNode) -> bool {
        &&& header.node_count * SLOT_SIZE <= DATA_LEN
        &&& forall|p: int|
            0 <= p <= header.node_count ==> readable(
                #[trigger] self.overflow_slots(header, end_node)[p],
                header.dir_bytes(),
            )
    }

    /// Enters a sentinel for the pending entry at `index` of the directory
    /// and hands back the slot that it pushed out.
    pub fn open_overflow(&mut self, header: &FlexHead, index: usize, key: &[u8], value: Node) -> (end_node:
        SlotNode)
        requires
            old(self).wf(header),
            index <= header.node_count,
        ensures
            final(self).overflow_ok(header, end_node),
            final(self).overflow_slots(header, end_node) == old(self).slots(
                header.node_count as int,
            ).insert(
                index as int,
                SlotNode { start: SENTINEL, end: SENTINEL, first_bytes: fingerprint(key@) as u32 },
            ),
            final(self).overflow_view(header, end_node, entry_of(key, value)) == old(
                self,
            ).entries(header).insert(index as int, entry_of(key, value)),
    {
        let ghost before = *self;
        let sentinel = SlotNode::new(SENTINEL, SENTINEL, key_fingerprint(key));
        let end_node = self.insert_stack_overflow(header, index, sentinel);
        proof {
            reveal(Flex::overflow_ok);
            before.lemma_overflow(self, header, index as int, sentinel, end_node, entry_of(key, value));
        }
        end_node
    }

    /// The parts of the directory before and behind a cut stand for the two
    /// parts of the entries, and each of their slots can be read.
    pub proof fn lemma_split_parts(
        &self,
        header: &FlexHead,
        end_node: SlotNode,
        extra: Entry,
        at: int,
    )
        requires
            0 <= at <= header.node_count,
            self.overflow_ok(header, end_node),
        ensures
            forall|i: int|
                0 <= i < at ==> readable(
                    #[trigger] self.slots(header.node_count as int).subrange(0, at)[i],
                    header.dir_bytes(),
                ),
            forall|i: int|
                0 <= i < header.node_count - at ==> readable(
                    #[trigger] self.slots(header.node_count as int).subrange(
                        at,
                        header.node_count as int,
                    )[i],
                    header.dir_bytes(),
                ),
            readable(end_node, header.dir_bytes()),
            self.overflow_entries(self.slots(header.node_count as int).subrange(0, at), extra)
                == self.overflow_view(header, end_node, extra).take(at),
            self.overflow_entries(
                self.slots(header.node_count as int).subrange(at, header.node_count as int).push(
                    end_node,
                ),
                extra,
            ) == self.overflow_view(header, end_node, extra).skip(at),
    {
        reveal(Flex::overflow_ok);
        let n = header.node_count as int;
        let dir_slots = self.slots(n);
        let dir = header.dir_bytes();
        let all = self.overflow_slots(header, end_node);
        self.lemma_overflow_parts(all, extra, at);
        assert(all.take(at) =~= dir_slots.subrange(0, at));
        assert(all.skip(at) =~= dir_slots.subrange(at, n).push(end_node));
        assert forall|i: int| 0 <= i < at implies readable(
            #[trigger] dir_slots.subrange(0, at)[i],
            dir,
        ) by {
            assert(readable(all[i], dir));
            assert(dir_slots.subrange(0, at)[i] == all[i]);
        }
        assert forall|i: int| 0 <= i < n - at implies readable(
            #[trigger] dir_slots.subrange(at, n)[i],
            dir,
        ) by {
            assert(readable(all[i + at], dir));
            assert(dir_slots.subrange(at, n)[i] == all[i + at]);
        }
        assert(readable(all[n], dir));
        assert(end_node == all[n]);
    }

    /// A fresh page that holds, in order, the entries that the slots of
    /// `range` and then `extra_node` stand for on the page `src`.
    pub fn from_range(
        range: &[SlotNode],
        src: &Flex,
        src_header: &FlexHead,
        extra_node: Option<&SlotNode>,
        extra_slot: (&[u8], Node),
        pointer: Option<Node>,
    ) -> (r: (FlexHead, Flex))
        requires
            forall|i: int|
                0 <= i < range@.len() ==> readable(#[trigger] range@[i], src_header.dir_bytes()),
            extra_node matches Some(node) ==> readable(*node, src_header.dir_bytes()),
            footprint(
                src.overflow_entries(
                    with_extra(range@, extra_node),
                    entry_of(extra_slot.0, extra_slot.1),
                ),
            ) <= DATA_LEN,
        ensures
            r.1.wf(&r.0),
            r.1.entries(&r.0) == src.overflow_entries(
                with_extra(range@, extra_node),
                entry_of(extra_slot.0, extra_slot.1),
            ),
            r.0.link() == pointer,
    {
        let ghost extra = entry_of(extra_slot.0, extra_slot.1);
        let ghost all = with_extra(range@, extra_node);
        let ghost target = src.overflow_entries(all, extra);
        let mut header = FlexHead::new(pointer);
        let mut flex = Flex::new();
        proof {
            assert(flex.entries(&header) =~= target.take(0));
        }
        let mut i: usize = 0;
        while i < range.len()
            invariant
                i <= range.len(),
                all == with_extra(range@, extra_node),
                target == src.overflow_entries(all, extra),
                extra == entry_of(extra_slot.0, extra_slot.1),
                footprint(target) <= DATA_LEN,
                forall|k: int|
                    0 <= k < range@.len() ==> readable(
                        #[trigger] range@[k],
                        src_header.dir_bytes(),
                    ),
                flex.wf(&header),
                header.node_count == i,
                header.link() == pointer,
                flex.entries(&header) == target.take(i as int),
            decreases range.len() - i,
        {
            let (key, value) = src.get_overflow_heap_entry(src_header, &range[i], extra_slot);
            proof {
                assert(all[i as int] == range@[i as int]);
                assert(target[i as int] == entry_of(key, value));
                lemma_footprint_step(target, i as int);
                flex.lemma_accounting(&header);
            }
            let count: usize = header.node_count as usize;
            flex.insert_entry(&mut header, count, key, value);
            i += 1;
            proof {
                assert(flex.entries(&header) =~= target.take(i as int));
            }
        }
        if let Some(node) = extra_node {
            let (key, value) = src.get_overflow_heap_entry(src_header, node, extra_slot);
            proof {
                assert(all[i as int] == *node);
                assert(target[i as int] == entry_of(key, value));
                lemma_footprint_step(target, i as int);
                flex.lemma_accounting(&header);
            }
            let count: usize = header.node_count as usize;
            flex.insert_entry(&mut header, count, key, value);
            proof {
                assert(flex.entries(&header) =~= target);
            }
        } else {
            proof {
                assert(target.take(i as int) =~= target);
            }
        }
        (header, flex)
    }
}

/// The slot can be read on a page whose directory takes `dir` bytes: it is a
/// sentinel, or it lies behind the directory and inside the payload area.
pub open spec fn readable(node: SlotNode, dir: int) -> bool {
    node.is_sentinel() || (dir <= node.start && node.in_bounds())
}

/// The slots of `range`, followed by `extra_node` where there is one.
pub open spec fn with_extra(range: Seq<SlotNode>, extra_node: Option<&SlotNode>) -> Seq<SlotNode> {
    match extra_node {
        Some(node) => range.push(*node),
        None => range,
    }
}

/// The first `at + 1` entries take the room of the first `at` and of entry
/// `at`, and no more than all of them.
pub proof fn lemma_footprint_step(es: Seq<Entry>, at: int)
    requires
        0 <= at < es.len(),
    ensures
        footprint(es.take(at + 1)) == footprint(es.take(at)) + SLOT_SIZE + PTR_SIZE
            + es[at].key.len(),
        footprint(es.take(at + 1)) <= footprint(es),
{
    lemma_payload_push(es.take(at), es[at]);
    assert(es.take(at).push(es[at]) =~= es.take(at + 1));
    lemma_payload_split(es, at + 1);
    lemma_payload_bounds(es.skip(at + 1));
}

/// The entry made of an executable key and address.
pub open spec fn entry_of(key: &[u8], value: Node) -> Entry {
    Entry { key: key@, value }
}

} // verus!
