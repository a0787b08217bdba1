//! The leaf page: entries of key and stored address in ascending key order,
//! with lookup, insertion and the split at the shortest separator.

use vstd::prelude::*;
use vstd::slice::{slice_subrange, slice_to_vec};
use crate::btree::Node;
use crate::flex::{
    entry_of, footprint, lemma_payload_split, payload, Entry, Flex, FlexHead, SlotNode, DATA_LEN,
    HEAD_SIZE, SLOT_SIZE, readable,
};
use crate::keys::{
    common_prefix, common_prefix_len, key_eq, key_fingerprint, key_lt, lemma_fingerprint_order,
    lemma_lex_irreflexive, lemma_lex_total,
    lemma_lex_transitive, lemma_min_separator, lex_lt, min_separator,
};
use crate::{PAGE_SIZE, PTR_SIZE};

verus! {

/// The keys ascend strictly.
#[verifier::opaque]
pub open spec fn sorted(es: Seq<Entry>) -> bool {
    forall|i: int, j: int|
        #![trigger es[i], es[j]]
        0 <= i < j < es.len() ==> lex_lt(es[i].key, es[j].key)
}

/// Some entry holds the key.
pub open spec fn has_key(es: Seq<Entry>, key: Seq<u8>) -> bool {
    exists|i: int| 0 <= i < es.len() && (#[trigger] es[i]).key == key
}

/// First position at or after `i` whose key is not smaller than `key`.
pub open spec fn upper_bound_from(es: Seq<Entry>, key: Seq<u8>, i: int) -> int
    decreases es.len() - i,
{
    if 0 <= i < es.len() && lex_lt(es[i].key, key) {
        upper_bound_from(es, key, i + 1)
    } else {
        i
    }
}

/// Index of the first entry whose key is not smaller than `key`, the number
/// of entries where there is none.
pub open spec fn upper_bound(es: Seq<Entry>, key: Seq<u8>) -> int {
    upper_bound_from(es, key, 0)
}

/// The address stored under the key, if any.
pub open spec fn lookup(es: Seq<Entry>, key: Seq<u8>) -> Option<Node> {
    let u = upper_bound(es, key);
    if u < es.len() && es[u].key == key {
        Some(es[u].value)
    } else {
        None
    }
}

/// The entries after the entry was offered: unchanged where the key is
/// already held, else with the entry at its place in the order.
pub open spec fn inserted(es: Seq<Entry>, e: Entry) -> Seq<Entry> {
    if has_key(es, e.key) {
        es
    } else {
        es.insert(upper_bound(es, e.key), e)
    }
}

/// Length of the shortest prefix of key `j + 1` that is greater than key `j`.
pub open spec fn separator_len(es: Seq<Entry>, j: int) -> int {
    common_prefix_len(es[j].key, es[j + 1].key) + 1
}

/// Where a leaf that holds one entry too many is cut: right behind the
/// middle, or one further where that gives a shorter separator.
pub open spec fn leaf_split_index(es: Seq<Entry>) -> int {
    let mid = es.len() as int / 2;
    if mid + 1 < es.len() && separator_len(es, mid) < separator_len(es, mid - 1) {
        mid + 1
    } else {
        mid
    }
}

/// The separator that the cut sends up: the shortest prefix of the first
/// key of the right half that is greater than the last key of the left half.
pub open spec fn leaf_separator(es: Seq<Entry>) -> Seq<u8> {
    let s = leaf_split_index(es);
    min_separator(es[s - 1].key, es[s].key)
}

/// Both halves of the cut fit into a page.
pub open spec fn leaf_split_fits(es: Seq<Entry>) -> bool {
    &&& es.len() >= 2
    &&& footprint(es.take(leaf_split_index(es))) <= DATA_LEN
    &&& footprint(es.skip(leaf_split_index(es))) <= DATA_LEN
}

proof fn lemma_upper_bound_from(es: Seq<Entry>, key: Seq<u8>, i: int)
    requires
        0 <= i <= es.len(),
        forall|j: int| 0 <= j < i ==> lex_lt((#[trigger] es[j]).key, key),
    ensures
        i <= upper_bound_from(es, key, i) <= es.len(),
        forall|j: int|
            0 <= j < upper_bound_from(es, key, i) ==> lex_lt((#[trigger] es[j]).key, key),
        upper_bound_from(es, key, i) < es.len() ==> !lex_lt(
            es[upper_bound_from(es, key, i)].key,
            key,
        ),
    decreases es.len() - i,
{
    if i < es.len() && lex_lt(es[i].key, key) {
        lemma_upper_bound_from(es, key, i + 1);
    }
}

/// What the upper bound is: every entry before it is smaller than the key,
/// and the entry at it is not.
pub proof fn lemma_upper_bound(es: Seq<Entry>, key: Seq<u8>)
    ensures
        0 <= upper_bound(es, key) <= es.len(),
        forall|j: int| 0 <= j < upper_bound(es, key) ==> lex_lt((#[trigger] es[j]).key, key),
        upper_bound(es, key) < es.len() ==> !lex_lt(es[upper_bound(es, key)].key, key),
{
    lemma_upper_bound_from(es, key, 0);
}

/// Any position that has the two properties of the upper bound is the upper
/// bound.
pub proof fn lemma_upper_bound_unique(es: Seq<Entry>, key: Seq<u8>, n: int)
    requires
        0 <= n <= es.len(),
        forall|j: int| 0 <= j < n ==> lex_lt((#[trigger] es[j]).key, key),
        n < es.len() ==> !lex_lt(es[n].key, key),
    ensures
        upper_bound(es, key) == n,
{
    lemma_upper_bound(es, key);
    let u = upper_bound(es, key);
    if u < n {
        assert(lex_lt(es[u].key, key));
    } else if n < u {
        assert(lex_lt(es[n].key, key));
    }
}

/// In a sorted page a key can only stand at its upper bound.
pub proof fn lemma_sorted_position(es: Seq<Entry>, key: Seq<u8>, i: int)
    requires
        sorted(es),
        0 <= i < es.len(),
        es[i].key == key,
    ensures
        upper_bound(es, key) == i,
        lookup(es, key) == Some(es[i].value),
{
    reveal(sorted);
    lemma_lex_irreflexive(key);
    assert forall|j: int| 0 <= j < i implies lex_lt((#[trigger] es[j]).key, key) by {
        assert(lex_lt(es[j].key, es[i].key));
    }
    lemma_upper_bound_unique(es, key, i);
}

/// In a sorted page `lookup` finds the key exactly where some entry holds it.
pub proof fn lemma_lookup(es: Seq<Entry>, key: Seq<u8>)
    requires
        sorted(es),
    ensures
        lookup(es, key) is Some <==> has_key(es, key),
        forall|i: int|
            0 <= i < es.len() && (#[trigger] es[i]).key == key ==> lookup(es, key) == Some(
                es[i].value,
            ),
{
    lemma_upper_bound(es, key);
    assert forall|i: int| 0 <= i < es.len() && (#[trigger] es[i]).key == key implies lookup(
        es,
        key,
    ) == Some(es[i].value) by {
        lemma_sorted_position(es, key, i);
    }
    if lookup(es, key) is Some {
        assert(es[upper_bound(es, key)].key == key);
    }
}

/// Entering a new key at its upper bound keeps the page sorted.
pub proof fn lemma_sorted_insert(es: Seq<Entry>, e: Entry)
    requires
        sorted(es),
        !has_key(es, e.key),
    ensures
        sorted(es.insert(upper_bound(es, e.key), e)),
{
    reveal(sorted);
    lemma_upper_bound(es, e.key);
    let u = upper_bound(es, e.key);
    let out = es.insert(u, e);
    if u < es.len() {
        assert(es[u].key != e.key);
        if !lex_lt(e.key, es[u].key) {
            lemma_lex_total(e.key, es[u].key);
        }
    }
    assert forall|i: int, j: int| 0 <= i < j < out.len() implies lex_lt(
        out[i].key,
        out[j].key,
    ) by {
        if j < u {
            assert(lex_lt(es[i].key, es[j].key));
        } else if j == u {
            assert(lex_lt(es[i].key, e.key));
        } else if i < u {
            assert(lex_lt(es[i].key, e.key));
            if j - 1 > u {
                assert(lex_lt(es[u].key, es[j - 1].key));
                lemma_lex_transitive(e.key, es[u].key, es[j - 1].key);
            }
            lemma_lex_transitive(es[i].key, e.key, es[j - 1].key);
        } else if i == u {
            if j - 1 > u {
                assert(lex_lt(es[u].key, es[j - 1].key));
                lemma_lex_transitive(e.key, es[u].key, es[j - 1].key);
            }
        } else {
            assert(lex_lt(es[i - 1].key, es[j - 1].key));
        }
    }
}

/// After a new key was entered, `lookup` finds it with its address and
/// finds every other key as before.
pub proof fn lemma_lookup_inserted(es: Seq<Entry>, e: Entry, key: Seq<u8>)
    requires
        sorted(es),
    ensures
        sorted(inserted(es, e)),
        lookup(inserted(es, e), key) == if key == e.key && !has_key(es, e.key) {
            Some(e.value)
        } else {
            lookup(es, key)
        },
{
    lemma_lookup(es, key);
    if !has_key(es, e.key) {
        lemma_sorted_insert(es, e);
        lemma_upper_bound(es, e.key);
        let u = upper_bound(es, e.key);
        let out = es.insert(u, e);
        lemma_lookup(out, key);
        if key == e.key {
            assert(out[u] == e);
        } else if has_key(es, key) {
            let i = choose|i: int| 0 <= i < es.len() && (#[trigger] es[i]).key == key;
            let i2 = if i < u {
                i
            } else {
                i + 1
            };
            assert(out[i2] == es[i]);
        } else if has_key(out, key) {
            let i = choose|i: int| 0 <= i < out.len() && (#[trigger] out[i]).key == key;
            let i0 = if i < u {
                i
            } else {
                i - 1
            };
            assert(es[i0] == out[i]);
        }
    }
}

/// The cut of a sorted page that holds at least two entries leaves both
/// halves non-empty and sorted, and the separator lies above every key of
/// the left half and not above any key of the right half.
pub proof fn lemma_leaf_split(es: Seq<Entry>)
    requires
        sorted(es),
        es.len() >= 2,
    ensures
        0 < leaf_split_index(es) < es.len(),
        sorted(es.take(leaf_split_index(es))),
        sorted(es.skip(leaf_split_index(es))),
        forall|i: int|
            0 <= i < leaf_split_index(es) ==> lex_lt((#[trigger] es[i]).key, leaf_separator(es)),
        forall|i: int|
            leaf_split_index(es) <= i < es.len() ==> !lex_lt(
                (#[trigger] es[i]).key,
                leaf_separator(es),
            ),
        footprint(es.take(leaf_split_index(es))) + footprint(es.skip(leaf_split_index(es)))
            == footprint(es),
{
    reveal(sorted);
    let s = leaf_split_index(es);
    let sep = leaf_separator(es);
    assert(lex_lt(es[s - 1].key, es[s].key));
    lemma_min_separator(es[s - 1].key, es[s].key);
    assert forall|i: int| 0 <= i < s implies lex_lt((#[trigger] es[i]).key, sep) by {
        if i < s - 1 {
            assert(lex_lt(es[i].key, es[s - 1].key));
            lemma_lex_transitive(es[i].key, es[s - 1].key, sep);
        }
    }
    assert forall|i: int| s <= i < es.len() implies !lex_lt((#[trigger] es[i]).key, sep) by {
        if lex_lt(es[i].key, sep) {
            if i > s {
                assert(lex_lt(es[s].key, es[i].key));
                lemma_lex_transitive(es[s].key, es[i].key, sep);
            }
        }
    }
    let left = es.take(s);
    let right = es.skip(s);
    assert forall|i: int, j: int| 0 <= i < j < left.len() implies lex_lt(
        left[i].key,
        left[j].key,
    ) by {
        assert(lex_lt(es[i].key, es[j].key));
    }
    assert forall|i: int, j: int| 0 <= i < j < right.len() implies lex_lt(
        right[i].key,
        right[j].key,
    ) by {
        assert(lex_lt(es[i + s].key, es[j + s].key));
    }
    lemma_payload_split(es, s);
}

/// Two runs of entries with the same keys are cut at the same place and
/// their halves take the same room.
pub proof fn lemma_same_room(a: Seq<Entry>, b: Seq<Entry>)
    requires
        a.len() == b.len(),
        forall|i: int| 0 <= i < a.len() ==> (#[trigger] a[i]).key == b[i].key,
    ensures
        leaf_split_index(a) == leaf_split_index(b),
        leaf_split_fits(a) == leaf_split_fits(b),
        footprint(a) == footprint(b),
{
    lemma_same_payload(a, b);
    if a.len() >= 2 {
        let mid = a.len() as int / 2;
        assert(a[mid - 1].key == b[mid - 1].key);
        assert(a[mid].key == b[mid].key);
        if mid + 1 < a.len() {
            assert(a[mid + 1].key == b[mid + 1].key);
        }
        let s = leaf_split_index(a);
        lemma_same_payload(a.take(s), b.take(s));
        lemma_same_payload(a.skip(s), b.skip(s));
    }
}

/// Two runs of entries with the same keys take the same room in the heap.
pub proof fn lemma_same_payload(a: Seq<Entry>, b: Seq<Entry>)
    requires
        a.len() == b.len(),
        forall|i: int| 0 <= i < a.len() ==> (#[trigger] a[i]).key == b[i].key,
    ensures
        payload(a) == payload(b),
    decreases a.len(),
{
    if a.len() > 0 {
        lemma_same_payload(a.drop_last(), b.drop_last());
    }
}

/// One leaf page.
#[derive(Clone, Copy, Debug)]
pub struct SlottedLeaf {
    header: FlexHead,
    data: Flex,
}

impl SlottedLeaf {
    /// The entries of the page in key order.
    pub closed spec fn view(&self) -> Seq<Entry> {
        self.data.entries(&self.header)
    }

    /// Address of the next leaf in key order, if there is one.
    pub closed spec fn next(&self) -> Option<Node> {
        self.header.link()
    }

    /// The bytes of the payload area.
    pub closed spec fn bytes(&self) -> Seq<u8> {
        self.data@
    }

    /// Bytes between the directory and the heap.
    pub closed spec fn free(&self) -> int {
        self.header.unused_bytes()
    }

    /// Directory and heap are laid out as a page should be.
    pub closed spec fn layout_ok(&self) -> bool {
        self.data.wf(&self.header)
    }

    /// The page is laid out as it should be and its keys ascend strictly.
    pub open spec fn wf(&self) -> bool {
        self.layout_ok() && sorted(self@)
    }

    /// The page has room for the key: it holds it, or can take it as it
    /// is, or can be cut so that both halves fit.
    pub open spec fn accepts(&self, key: Seq<u8>) -> bool {
        ||| has_key(self@, key)
        ||| footprint(self@) + key.len() + PTR_SIZE + SLOT_SIZE <= DATA_LEN
        ||| leaf_split_fits(self@.insert(upper_bound(self@, key), Entry { key, value: 0 }))
    }

    /// Free space, directory and heap make up the payload area, and the
    /// heap holds the entries and nothing else.
    pub proof fn lemma_accounting(&self)
        requires
            self.layout_ok(),
        ensures
            self.free() + self@.len() * SLOT_SIZE + payload(self@) == DATA_LEN,
            self.free() >= 0,
    {
        self.data.lemma_accounting(&self.header);
    }

    pub fn new() -> (r: Self)
        ensures
            r.wf(),
            r@ == Seq::<Entry>::empty(),
            r.next() is None,
    {
        let r = Self { header: FlexHead::new(None), data: Flex::new() };
        proof {
            reveal(sorted);
            assert(r@ =~= Seq::<Entry>::empty());
        }
        r
    }

    fn new_from_range(
        range: &[SlotNode],
        src: &Self,
        extra_node: Option<&SlotNode>,
        extra_slot: (&[u8], Node),
    ) -> (r: Self)
        requires
            forall|i: int|
                0 <= i < range@.len() ==> readable(#[trigger] range@[i], src.header.dir_bytes()),
            extra_node matches Some(node) ==> readable(*node, src.header.dir_bytes()),
            footprint(
                src.data.overflow_entries(
                    crate::flex::with_extra(range@, extra_node),
                    entry_of(extra_slot.0, extra_slot.1),
                ),
            ) <= DATA_LEN,
        ensures
            r.layout_ok(),
            r@ == src.data.overflow_entries(
                crate::flex::with_extra(range@, extra_node),
                entry_of(extra_slot.0, extra_slot.1),
            ),
            r.next() is None,
    {
        let (header, data) = Flex::from_range(
            range,
            &src.data,
            &src.header,
            extra_node,
            extra_slot,
            None,
        );
        Self { header, data }
    }

    /// Number of entries.
    pub fn size(&self) -> (n: usize)
        ensures
            n == self@.len(),
    {
        self.header.node_count as usize
    }

    /// Address of the next leaf in key order, if there is one.
    pub fn next_leaf(&self) -> (next: Option<Node>)
        ensures
            next == self.next(),
    {
        self.header.get_link()
    }

    /// Bytes between the directory and the heap.
    pub fn unused_bytes(&self) -> (n: usize)
        requires
            self.layout_ok(),
        ensures
            n == self.free(),
            n == DATA_LEN - footprint(self@),
    {
        proof {
            self.data.lemma_accounting(&self.header);
        }
        self.header.key_pos as usize - self.header.node_count as usize * SLOT_SIZE
    }

    /// Bytes that the entries take in the heap.
    pub fn payload_bytes(&self) -> (n: usize)
        requires
            self.layout_ok(),
        ensures
            n == payload(self@),
    {
        DATA_LEN - self.header.key_pos as usize
    }

    pub fn key_at(&self, index: usize) -> (key: &[u8])
        requires
            self.layout_ok(),
            index < self@.len(),
        ensures
            key@ == self@[index as int].key,
    {
        self.data.key_at(&self.header, index)
    }

    pub fn value_at(&self, index: usize) -> (value: Node)
        requires
            self.layout_ok(),
            index < self@.len(),
        ensures
            value == self@[index as int].value,
    {
        self.data.value_at(&self.header, index)
    }

    /// Whether one more entry with this key fits between directory and heap.
    pub fn can_fit(&self, key: &[u8]) -> (fits: bool)
        requires
            self.layout_ok(),
        ensures
            fits == (footprint(self@) + key.len() + PTR_SIZE + SLOT_SIZE <= DATA_LEN),
    {
        let unused: usize = self.unused_bytes();
        unused >= PTR_SIZE + SLOT_SIZE && key.len() <= unused - PTR_SIZE - SLOT_SIZE
    }

    /// The byte at offset `at` of the page, the header counted in.
    pub fn get_raw(&self, at: u16) -> (b: &u8)
        requires
            HEAD_SIZE <= at < PAGE_SIZE,
        ensures
            *b == self.bytes()[at - HEAD_SIZE],
    {
        self.data.get_raw(at as usize - HEAD_SIZE)
    }

    /// Index of the first entry whose key is not smaller than `key`. A slot
    /// whose fingerprint is smaller than that of `key` is passed over
    /// without a look at its key.
    pub fn get_upper_bound(&self, key: &[u8]) -> (index: usize)
        requires
            self.layout_ok(),
        ensures
            index == upper_bound(self@, key@),
    {
        let n: usize = self.header.node_count as usize;
        let hint: u32 = key_fingerprint(key);
        let mut slot_nr: usize = 0;
        while slot_nr < n
            invariant
                slot_nr <= n,
                n == self.header.node_count,
                self.layout_ok(),
                hint == crate::keys::fingerprint(key@),
                forall|j: int| 0 <= j < slot_nr ==> lex_lt((#[trigger] self@[j]).key, key@),
            decreases n - slot_nr,
        {
            let node = self.data.read_slot(slot_nr);
            proof {
                assert(self.data.slot_ok(
                    self.data.slot(slot_nr as int),
                    self.header.key_pos as int,
                ));
            }
            if node.first_bytes >= hint {
                let (node_key, _) = self.data.get_heap_entry(&self.header, &node);
                if !key_lt(node_key, key) {
                    proof {
                        lemma_upper_bound_unique(self@, key@, slot_nr as int);
                    }
                    return slot_nr;
                }
            } else {
                proof {
                    lemma_fingerprint_order(self@[slot_nr as int].key, key@);
                }
            }
            slot_nr += 1;
        }
        proof {
            lemma_upper_bound_unique(self@, key@, slot_nr as int);
        }
        slot_nr
    }

    /// The shortest prefix of `key` that is greater than `last_key`, with
    /// its length, unless that length reaches `current_best`.
    pub fn get_smallest_separator<'a>(last_key: &'a [u8], key: &'a [u8], current_best: u16) -> (r:
        Option<(&'a [u8], u16)>)
        requires
            lex_lt(last_key@, key@),
        ensures
            common_prefix_len(last_key@, key@) + 1 >= current_best ==> r is None,
            common_prefix_len(last_key@, key@) + 1 < current_best ==> r is Some && r.unwrap().0@
                == min_separator(last_key@, key@) && r.unwrap().1 == common_prefix_len(
                last_key@,
                key@,
            ) + 1,
    {
        proof {
            lemma_min_separator(last_key@, key@);
        }
        let key_len: usize = key.len();
        let sep_len: usize = common_prefix(last_key, key) + 1;
        if sep_len >= current_best as usize {
            return None;
        }
        let separator = slice_subrange(key, 0, sep_len);
        Some((separator, sep_len as u16))
    }

    /// Where to cut the page extended by the pending entry, and the
    /// separator that the cut sends up. The directory holds a sentinel for
    /// the pending entry, and `overflow_node` is the slot that it pushed out.
    fn get_split<'a>(&'a self, overflow_node: &SlotNode, new_slot: (&'a [u8], Node)) -> (r: (
        usize,
        &'a [u8],
    ))
        requires
            self@.len() >= 1,
            new_slot.0@.len() <= DATA_LEN,
            self.overflow_ok(*overflow_node),
            sorted(self.overflow_view(*overflow_node, entry_of(new_slot.0, new_slot.1))),
        ensures
            r.0 == leaf_split_index(
                self.overflow_view(*overflow_node, entry_of(new_slot.0, new_slot.1)),
            ),
            r.1@ == leaf_separator(
                self.overflow_view(*overflow_node, entry_of(new_slot.0, new_slot.1)),
            ),
    {
        let n: usize = self.header.node_count as usize;
        let ghost slots = self.data.overflow_slots(&self.header, *overflow_node);
        let ghost es = self.data.overflow_entries(slots, entry_of(new_slot.0, new_slot.1));
        let midpoint: usize = (n + 1) / 2;
        proof {
            reveal(Flex::overflow_ok);
            assert(readable(slots[midpoint - 1], self.header.dir_bytes()));
            assert(readable(slots[midpoint as int], self.header.dir_bytes()));
            assert(es[midpoint - 1] == self.data.overflow_entry(
                slots[midpoint - 1],
                entry_of(new_slot.0, new_slot.1),
            ));
            assert(es[midpoint as int] == self.data.overflow_entry(
                slots[midpoint as int],
                entry_of(new_slot.0, new_slot.1),
            ));
            assert(lex_lt(es[midpoint - 1].key, es[midpoint as int].key)) by {
                reveal(sorted);
            }
            lemma_min_separator(es[midpoint - 1].key, es[midpoint as int].key);
            self.data.lemma_len();
        }
        let key = self.data.key_at_overflow(&self.header, midpoint - 1, new_slot, overflow_node);
        let next_key = self.data.key_at_overflow(&self.header, midpoint, new_slot, overflow_node);
        proof {
            assert(key@ == es[midpoint - 1].key);
            assert(next_key@ == es[midpoint as int].key);
            assert(next_key@.len() <= DATA_LEN);
        }
        let first_len: usize = common_prefix(key, next_key) + 1;
        proof {
            assert(first_len == separator_len(es, midpoint - 1));
        }
        let mut separator = slice_subrange(next_key, 0, first_len);
        let mut split_index: usize = midpoint;
        if midpoint < n {
            proof {
                assert(readable(slots[midpoint + 1], self.header.dir_bytes()));
                assert(es[midpoint + 1] == self.data.overflow_entry(
                    slots[midpoint + 1],
                    entry_of(new_slot.0, new_slot.1),
                ));
                assert(lex_lt(es[midpoint as int].key, es[midpoint + 1].key)) by {
                    reveal(sorted);
                }
            }
            let last_key = self.data.key_at_overflow(
                &self.header,
                midpoint + 1,
                new_slot,
                overflow_node,
            );
            proof {
                assert(last_key@ == es[midpoint + 1].key);
            }
            if let Some((sep, _)) = Self::get_smallest_separator(
                next_key,
                last_key,
                first_len as u16,
            ) {
                separator = sep;
                split_index = midpoint + 1;
            }
        }
        (split_index, separator)
    }

    /// The entries of the page extended by the pending entry `extra`, where
    /// the directory holds a sentinel and `end_node` is the slot pushed out.
    pub closed spec fn overflow_view(&self, end_node: SlotNode, extra: Entry) -> Seq<Entry> {
        self.data.overflow_view(&self.header, end_node, extra)
    }

    /// Every slot of the directory, and `end_node`, can be read.
    pub closed spec fn overflow_ok(&self, end_node: SlotNode) -> bool {
        self.data.overflow_ok(&self.header, end_node)
    }

    /// Builds the two halves of the page extended by the pending entry, cut
    /// at `at`.
    fn halves(&self, end_node: &SlotNode, at: usize, key: &[u8], value: Node) -> (r: (
        SlottedLeaf,
        SlottedLeaf,
    ))
        requires
            self.overflow_ok(*end_node),
            at <= self@.len(),
            footprint(self.overflow_view(*end_node, entry_of(key, value)).take(at as int))
                <= DATA_LEN,
            footprint(self.overflow_view(*end_node, entry_of(key, value)).skip(at as int))
                <= DATA_LEN,
        ensures
            r.0.layout_ok(),
            r.1.layout_ok(),
            r.0@ == self.overflow_view(*end_node, entry_of(key, value)).take(at as int),
            r.1@ == self.overflow_view(*end_node, entry_of(key, value)).skip(at as int),
            r.0.next() is None,
            r.1.next() is None,
    {
        let ghost extra = entry_of(key, value);
        proof {
            reveal(Flex::overflow_ok);
        }
        let (nodes, _) = self.data.interpret(&self.header);
        let count: usize = nodes.len();
        let left_nodes = slice_subrange(nodes.as_slice(), 0, at);
        let right_nodes = slice_subrange(nodes.as_slice(), at, count);
        proof {
            self.data.lemma_split_parts(&self.header, *end_node, extra, at as int);
        }
        let left = Self::new_from_range(left_nodes, self, None, (key, value));
        let right = Self::new_from_range(right_nodes, self, Some(end_node), (key, value));
        (left, right)
    }

    /// Sets the address of the next leaf.
    fn set_next(&mut self, next: Option<Node>)
        ensures
            final(self)@ == old(self)@,
            final(self).layout_ok() == old(self).layout_ok(),
            final(self).next() == next,
    {
        let ghost before = self.header;
        self.header.set_link(next);
        proof {
            self.data.lemma_pointer_free(&before, &self.header);
        }
    }

    /// Cuts the page, which has no room for the new key, into two: the page
    /// itself keeps the lower entries and the page handed back takes the
    /// upper ones, the new entry going where it belongs. The page itself is
    /// linked to `fresh`, the address at which the caller keeps the new
    /// page, and the new page to the old next leaf.
    pub fn split(&mut self, index: usize, key: &[u8], value: Node, fresh: Node) -> (r: (
        Vec<u8>,
        SlottedLeaf,
    ))
        requires
            old(self).wf(),
            index == upper_bound(old(self)@, key@),
            !has_key(old(self)@, key@),
            leaf_split_fits(old(self)@.insert(index as int, entry_of(key, value))),
        ensures
            final(self).wf(),
            r.1.wf(),
            ({
                let es = old(self)@.insert(index as int, entry_of(key, value));
                &&& final(self)@ == es.take(leaf_split_index(es))
                &&& r.1@ == es.skip(leaf_split_index(es))
                &&& r.0@ == leaf_separator(es)
            }),
            final(self).next() == Some(fresh),
            r.1.next() == old(self).next(),
    {
        let ghost extra = entry_of(key, value);
        let ghost es = self@.insert(index as int, extra);
        proof {
            lemma_upper_bound(self@, key@);
            lemma_sorted_insert(self@, extra);
            lemma_leaf_split(es);
            let s = leaf_split_index(es);
            if index < s {
                crate::flex::lemma_payload_member(es.take(s), index as int);
            } else {
                crate::flex::lemma_payload_member(es.skip(s), index - s);
            }
            assert(key@.len() <= DATA_LEN);
        }
        let next = self.header.get_link();
        let end_node = self.data.open_overflow(&self.header, index, key, value);
        let (at, separator) = self.get_split(&end_node, (key, value));
        let separator = slice_to_vec(separator);
        let (left, mut right) = self.halves(&end_node, at, key, value);
        right.set_next(next);
        *self = left;
        self.set_next(Some(fresh));
        (separator, right)
    }

    /// Offers the entry to the page. A key that the page holds already
    /// keeps its address. A new key is entered at its place where the page
    /// has room; else the page is cut as `split` does, and the separator
    /// and the new page are handed back.
    pub fn offer(&mut self, key: &[u8], value: Node, fresh: Node) -> (r: Option<
        (Vec<u8>, SlottedLeaf),
    >)
        requires
            old(self).wf(),
            old(self).accepts(key@),
        ensures
            final(self).wf(),
            r is None <==> has_key(old(self)@, key@) || footprint(old(self)@) + key@.len()
                + PTR_SIZE + SLOT_SIZE <= DATA_LEN,
            r is None ==> final(self)@ == inserted(old(self)@, entry_of(key, value))
                && final(self).next() == old(self).next(),
            r matches Some(cut) ==> ({
                let es = old(self)@.insert(
                    upper_bound(old(self)@, key@),
                    entry_of(key, value),
                );
                &&& cut.1.wf()
                &&& final(self)@ == es.take(leaf_split_index(es))
                &&& cut.1@ == es.skip(leaf_split_index(es))
                &&& cut.0@ == leaf_separator(es)
                &&& final(self).next() == Some(fresh)
                &&& cut.1.next() == old(self).next()
            }),
    {
        proof {
            lemma_lookup(self@, key@);
            lemma_upper_bound(self@, key@);
        }
        let index = self.get_upper_bound(key);
        if index < self.size() && key_eq(self.key_at(index), key) {
            return None;
        }
        proof {
            if has_key(self@, key@) {
                let i = choose|i: int| 0 <= i < self@.len() && (#[trigger] self@[i]).key == key@;
                lemma_sorted_position(self@, key@, i);
            }
            lemma_sorted_insert(self@, entry_of(key, value));
        }
        if self.can_fit(key) {
            self.data.insert_entry(&mut self.header, index, key, value);
            return None;
        }
        proof {
            let a = self@.insert(index as int, Entry { key: key@, value: 0 });
            let b = self@.insert(index as int, entry_of(key, value));
            lemma_same_room(a, b);
        }
        Some(self.split(index, key, value, fresh))
    }

    /// The address stored under the key, if the page holds the key.
    pub fn get(&self, key: &[u8]) -> (r: Option<Node>)
        requires
            self.wf(),
        ensures
            r == lookup(self@, key@),
            r is Some <==> has_key(self@, key@),
            r matches Some(v) ==> exists|i: int|
                0 <= i < self@.len() && #[trigger] self@[i] == entry_of(key, v),
    {
        proof {
            lemma_lookup(self@, key@);
            lemma_upper_bound(self@, key@);
        }
        let index = self.get_upper_bound(key);
        if index == self.size() {
            return None;
        }
        let (entry_key, entry_value) = self.data.entry_at(&self.header, index);
        if key_eq(entry_key, key) {
            proof {
                assert(self@[index as int] == entry_of(key, entry_value));
            }
            Some(entry_value)
        } else {
            None
        }
    }
}

} // verus!
