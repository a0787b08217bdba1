//! The branch page: separators in ascending order, each with the child that
//! holds the keys below it, and the rightmost child in the header.

use vstd::prelude::*;
use vstd::slice::{slice_subrange, slice_to_vec};
use crate::btree::Node;
use crate::flex::{
    entry_of, footprint, lemma_payload_insert, lemma_payload_split, payload, readable, Entry, Flex,
    FlexHead, SlotNode, DATA_LEN, HEAD_SIZE, SLOT_SIZE,
};
use crate::keys::{key_fingerprint, key_lt, lemma_fingerprint_order, lex_lt};
use crate::slotted_leaf::{lemma_same_payload, sorted};
use crate::{PAGE_SIZE, PTR_SIZE};

verus! {

/// First position at or after `i` whose separator is greater than `key`.
pub open spec fn route_from(es: Seq<Entry>, key: Seq<u8>, i: int) -> int
    decreases es.len() - i,
{
    if 0 <= i < es.len() && !lex_lt(key, es[i].key) {
        route_from(es, key, i + 1)
    } else {
        i
    }
}

/// Index of the child that a key belongs to: the first separator greater
/// than the key, the number of separators where there is none.
pub open spec fn route(es: Seq<Entry>, key: Seq<u8>) -> int {
    route_from(es, key, 0)
}

/// Where a branch that holds one separator too many is cut: the entry at
/// this index goes up, those before it stay below on the left and those
/// behind it on the right.
pub open spec fn branch_split_index(es: Seq<Entry>) -> int {
    es.len() as int / 2
}

/// Both halves of the cut hold a separator and fit into a page.
pub open spec fn branch_split_fits(es: Seq<Entry>) -> bool {
    &&& es.len() >= 3
    &&& footprint(es.take(branch_split_index(es))) <= DATA_LEN
    &&& footprint(es.skip(branch_split_index(es) + 1)) <= DATA_LEN
}

proof fn lemma_route_from(es: Seq<Entry>, key: Seq<u8>, i: int)
    requires
        0 <= i <= es.len(),
        forall|j: int| 0 <= j < i ==> !lex_lt(key, (#[trigger] es[j]).key),
    ensures
        i <= route_from(es, key, i) <= es.len(),
        forall|j: int| 0 <= j < route_from(es, key, i) ==> !lex_lt(key, (#[trigger] es[j]).key),
        route_from(es, key, i) < es.len() ==> lex_lt(key, es[route_from(es, key, i)].key),
    decreases es.len() - i,
{
    if i < es.len() && !lex_lt(key, es[i].key) {
        lemma_route_from(es, key, i + 1);
    }
}

/// What the route is: no separator before it is greater than the key, and
/// the separator at it is.
pub proof fn lemma_route(es: Seq<Entry>, key: Seq<u8>)
    ensures
        0 <= route(es, key) <= es.len(),
        forall|j: int| 0 <= j < route(es, key) ==> !lex_lt(key, (#[trigger] es[j]).key),
        route(es, key) < es.len() ==> lex_lt(key, es[route(es, key)].key),
{
    lemma_route_from(es, key, 0);
}

/// Any position that has the two properties of the route is the route.
pub proof fn lemma_route_unique(es: Seq<Entry>, key: Seq<u8>, n: int)
    requires
        0 <= n <= es.len(),
        forall|j: int| 0 <= j < n ==> !lex_lt(key, (#[trigger] es[j]).key),
        n < es.len() ==> lex_lt(key, es[n].key),
    ensures
        route(es, key) == n,
{
    lemma_route(es, key);
    let u = route(es, key);
    if u < n {
        assert(!lex_lt(key, es[u].key));
    } else if n < u {
        assert(!lex_lt(key, es[n].key));
    }
}

/// The cut of a sorted run of at least three separators leaves both halves
/// non-empty and sorted, with the separator that goes up above every
/// separator of the left half and below every one of the right half; what
/// the halves and the separator take together is what the run took.
pub proof fn lemma_branch_split(es: Seq<Entry>)
    requires
        sorted(es),
        es.len() >= 3,
    ensures
        0 < branch_split_index(es),
        branch_split_index(es) + 1 < es.len(),
        sorted(es.take(branch_split_index(es))),
        sorted(es.skip(branch_split_index(es) + 1)),
        forall|i: int|
            0 <= i < branch_split_index(es) ==> lex_lt(
                (#[trigger] es[i]).key,
                es[branch_split_index(es)].key,
            ),
        forall|i: int|
            branch_split_index(es) < i < es.len() ==> lex_lt(
                es[branch_split_index(es)].key,
                (#[trigger] es[i]).key,
            ),
        payload(es.take(branch_split_index(es))) + payload(es.skip(branch_split_index(es) + 1))
            + PTR_SIZE + es[branch_split_index(es)].key.len() == payload(es),
        es.take(branch_split_index(es)).len() + es.skip(branch_split_index(es) + 1).len() + 1
            == es.len(),
{
    reveal(sorted);
    let m = branch_split_index(es);
    let left = es.take(m);
    let right = es.skip(m + 1);
    assert forall|i: int, j: int| 0 <= i < j < left.len() implies lex_lt(
        left[i].key,
        left[j].key,
    ) by {
        assert(lex_lt(es[i].key, es[j].key));
    }
    assert forall|i: int, j: int| 0 <= i < j < right.len() implies lex_lt(
        right[i].key,
        right[j].key,
    ) by {
        assert(lex_lt(es[i + m + 1].key, es[j + m + 1].key));
    }
    assert forall|i: int| 0 <= i < m implies lex_lt((#[trigger] es[i]).key, es[m].key) by {
        assert(lex_lt(es[i].key, es[m].key));
    }
    assert forall|i: int| m < i < es.len() implies lex_lt(es[m].key, (#[trigger] es[i]).key) by {
        assert(lex_lt(es[m].key, es[i].key));
    }
    lemma_payload_split(es, m);
    lemma_payload_split(es.skip(m), 1);
    assert(es.skip(m).skip(1) =~= es.skip(m + 1));
    lemma_payload_insert(Seq::<Entry>::empty(), 0, es[m]);
    assert(Seq::<Entry>::empty().insert(0, es[m]) =~= es.skip(m).take(1));
}

/// One branch page.
#[derive(Clone, Copy, Debug)]
pub struct SlottedBranch {
    header: FlexHead,
    data: Flex,
}

impl SlottedBranch {
    /// The separators in order, each with the child to its left.
    pub closed spec fn view(&self) -> Seq<Entry> {
        self.data.entries(&self.header)
    }

    /// The rightmost child.
    pub closed spec fn tail(&self) -> Option<Node> {
        self.header.link()
    }

    /// The bytes of the payload area.
    pub closed spec fn bytes(&self) -> Seq<u8> {
        self.data@
    }

    /// Bytes between the directory and the heap.
    pub closed spec fn free(&self) -> int {
        self.header.unused_bytes()
    }

    /// Directory and heap are laid out as a page should be.
    pub closed spec fn layout_ok(&self) -> bool {
        self.data.wf(&self.header)
    }

    /// The page is laid out as it should be, holds at least one separator
    /// and a rightmost child, and its separators ascend strictly.
    pub open spec fn wf(&self) -> bool {
        &&& self.layout_ok()
        &&& sorted(self@)
        &&& self@.len() >= 1
        &&& self.tail() is Some
    }

    /// Child `i` of the page: the one beside separator `i`, or the
    /// rightmost one behind the last separator.
    pub open spec fn child(&self, i: int) -> Node {
        if 0 <= i < self@.len() {
            self@[i].value
        } else {
            self.tail().unwrap()
        }
    }

    /// One more separator of this length fits between directory and heap.
    pub open spec fn fits(&self, key: Seq<u8>) -> bool {
        footprint(self@) + key.len() + PTR_SIZE + SLOT_SIZE <= DATA_LEN
    }

    /// Free space, directory and heap make up the payload area, and the
    /// heap holds the entries and nothing else.
    pub proof fn lemma_accounting(&self)
        requires
            self.layout_ok(),
        ensures
            self.free() + self@.len() * SLOT_SIZE + payload(self@) == DATA_LEN,
            self.free() >= 0,
    {
        self.data.lemma_accounting(&self.header);
    }

    /// A branch with one separator between two children.
    pub fn new(left: Node, right: Node, separator: &[u8]) -> (r: Self)
        requires
            separator@.len() + PTR_SIZE + SLOT_SIZE <= DATA_LEN,
        ensures
            r.wf(),
            r@ == seq![entry_of(separator, left)],
            r.tail() == Some(right),
    {
        let mut new_self = Self { header: FlexHead::new(Some(right)), data: Flex::new() };
        new_self.data.insert_entry(&mut new_self.header, 0, separator, left);
        proof {
            reveal(sorted);
            assert(new_self@ =~= seq![entry_of(separator, left)]);
        }
        new_self
    }

    fn new_from_range(
        range: &[SlotNode],
        src: &Self,
        right: Option<Node>,
        extra_node: Option<&SlotNode>,
        extra_slot: (&[u8], Node),
    ) -> (r: Self)
        requires
            forall|i: int|
                0 <= i < range@.len() ==> readable(#[trigger] range@[i], src.header.dir_bytes()),
            extra_node matches Some(node) ==> readable(*node, src.header.dir_bytes()),
            footprint(
                src.data.overflow_entries(
                    crate::flex::with_extra(range@, extra_node),
                    entry_of(extra_slot.0, extra_slot.1),
                ),
            ) <= DATA_LEN,
        ensures
            r.layout_ok(),
            r@ == src.data.overflow_entries(
                crate::flex::with_extra(range@, extra_node),
                entry_of(extra_slot.0, extra_slot.1),
            ),
            r.tail() == right,
    {
        let (header, data) = Flex::from_range(
            range,
            &src.data,
            &src.header,
            extra_node,
            extra_slot,
            right,
        );
        Self { header, data }
    }

    /// Number of separators.
    pub fn size(&self) -> (n: usize)
        ensures
            n == self@.len(),
    {
        self.header.node_count as usize
    }

    /// Bytes between the directory and the heap.
    pub fn unused_bytes(&self) -> (n: usize)
        requires
            self.layout_ok(),
        ensures
            n == self.free(),
            n == DATA_LEN - footprint(self@),
    {
        proof {
            self.data.lemma_accounting(&self.header);
        }
        self.header.key_pos as usize - self.header.node_count as usize * SLOT_SIZE
    }

    /// Bytes that the entries take in the heap.
    pub fn payload_bytes(&self) -> (n: usize)
        requires
            self.layout_ok(),
        ensures
            n == payload(self@),
    {
        DATA_LEN - self.header.key_pos as usize
    }

    pub fn key_at(&self, index: usize) -> (key: &[u8])
        requires
            self.layout_ok(),
            index < self@.len(),
        ensures
            key@ == self@[index as int].key,
    {
        self.data.key_at(&self.header, index)
    }

    /// Child `index` of the page.
    pub fn child_at(&self, index: usize) -> (child: Node)
        requires
            self.layout_ok(),
            self.tail() is Some,
            index <= self@.len(),
        ensures
            child == self.child(index as int),
    {
        if index == self.header.node_count as usize {
            match self.header.get_link() {
                Some(tail) => tail,
                None => 0,
            }
        } else {
            self.data.value_at(&self.header, index)
        }
    }

    /// Whether one more separator of this length fits between directory
    /// and heap.
    pub fn can_fit(&self, key: &[u8]) -> (fits: bool)
        requires
            self.layout_ok(),
        ensures
            fits == self.fits(key@),
    {
        let unused: usize = self.unused_bytes();
        unused >= PTR_SIZE + SLOT_SIZE && key.len() <= unused - PTR_SIZE - SLOT_SIZE
    }

    /// The byte at offset `at` of the page, the header counted in.
    pub fn get_raw(&self, at: u16) -> (b: &u8)
        requires
            HEAD_SIZE <= at < PAGE_SIZE,
        ensures
            *b == self.bytes()[at - HEAD_SIZE],
    {
        self.data.get_raw(at as usize - HEAD_SIZE)
    }

    /// Index of the child that the key belongs to. A slot whose fingerprint
    /// is smaller than that of `key` is passed over.
    pub fn get_upper_bound(&self, key: &[u8]) -> (index: usize)
        requires
            self.layout_ok(),
        ensures
            index == route(self@, key@),
            index <= self@.len(),
    {
        let n: usize = self.header.node_count as usize;
        let hint: u32 = key_fingerprint(key);
        let mut slot_nr: usize = 0;
        while slot_nr < n
            invariant
                slot_nr <= n,
                n == self.header.node_count,
                self.layout_ok(),
                hint == crate::keys::fingerprint(key@),
                forall|j: int| 0 <= j < slot_nr ==> !lex_lt(key@, (#[trigger] self@[j]).key),
            decreases n - slot_nr,
        {
            let node = self.data.read_slot(slot_nr);
            proof {
                assert(self.data.slot_ok(
                    self.data.slot(slot_nr as int),
                    self.header.key_pos as int,
                ));
            }
            let (node_key, _) = self.data.get_heap_entry(&self.header, &node);
            if node.first_bytes >= hint {
                if key_lt(key, node_key) {
                    proof {
                        lemma_route_unique(self@, key@, slot_nr as int);
                    }
                    return slot_nr;
                }
            } else {
                proof {
                    lemma_fingerprint_order(self@[slot_nr as int].key, key@);
                    crate::keys::lemma_lex_asymmetric(self@[slot_nr as int].key, key@);
                }
            }
            slot_nr += 1;
        }
        proof {
            lemma_route_unique(self@, key@, slot_nr as int);
        }
        slot_nr
    }

    /// Makes `value` child `index` of the page and returns the child that
    /// stood there.
    pub fn fix_leaf_insert(&mut self, index: usize, value: Node) -> (r: Node)
        requires
            old(self).layout_ok(),
            old(self).tail() is Some,
            index <= old(self)@.len(),
        ensures
            final(self).layout_ok(),
            r == old(self).child(index as int),
            index < old(self)@.len() ==> final(self).tail() == old(self).tail() && final(self)@
                == old(self)@.update(
                index as int,
                Entry { key: old(self)@[index as int].key, value },
            ),
            index == old(self)@.len() ==> final(self).tail() == Some(value) && final(self)@
                == old(self)@,
    {
        if self.header.node_count as usize > index {
            self.data.swap_ptr_at(&self.header, index, value)
        } else {
            let ghost before = self.header;
            let old_tail = match self.header.get_link() {
                Some(tail) => tail,
                None => 0,
            };
            self.header.set_link(Some(value));
            proof {
                self.data.lemma_pointer_free(&before, &self.header);
            }
            old_tail
        }
    }

    /// The entries of the page extended by the pending entry `extra`, where
    /// the directory holds a sentinel and `end_node` is the slot pushed out.
    pub closed spec fn overflow_view(&self, end_node: SlotNode, extra: Entry) -> Seq<Entry> {
        self.data.overflow_view(&self.header, end_node, extra)
    }

    /// Every slot of the directory, and `end_node`, can be read.
    pub closed spec fn overflow_ok(&self, end_node: SlotNode) -> bool {
        self.data.overflow_ok(&self.header, end_node)
    }

    /// Where to cut the page extended by the pending entry: at the middle.
    /// The separator at the cut is the one that goes up.
    fn get_split<'a>(&'a self, overflow_node: &SlotNode, new_slot: (&'a [u8], Node)) -> (r: (
        usize,
        &'a [u8],
    ))
        requires
            self.overflow_ok(*overflow_node),
        ensures
            r.0 == branch_split_index(
                self.overflow_view(*overflow_node, entry_of(new_slot.0, new_slot.1)),
            ),
            r.1@ == self.overflow_view(*overflow_node, entry_of(new_slot.0, new_slot.1))[r.0 as int].key,
    {
        let midpoint: usize = (self.header.node_count as usize + 1) / 2;
        proof {
            reveal(Flex::overflow_ok);
            let slots = self.data.overflow_slots(&self.header, *overflow_node);
            assert(readable(slots[midpoint as int], self.header.dir_bytes()));
        }
        (midpoint, self.data.key_at_overflow(&self.header, midpoint, new_slot, overflow_node))
    }

    /// Builds the two halves of the page extended by the pending entry: the
    /// entries before `mid` with the child of entry `mid` as rightmost
    /// child, and the entries behind `mid` with the rightmost child of the
    /// page.
    fn halves(&self, end_node: &SlotNode, mid: usize, key: &[u8], value: Node) -> (r: (
        SlottedBranch,
        SlottedBranch,
    ))
        requires
            self.overflow_ok(*end_node),
            mid < self@.len(),
            footprint(self.overflow_view(*end_node, entry_of(key, value)).take(mid as int))
                <= DATA_LEN,
            footprint(self.overflow_view(*end_node, entry_of(key, value)).skip(mid + 1))
                <= DATA_LEN,
        ensures
            r.0.layout_ok(),
            r.1.layout_ok(),
            r.0@ == self.overflow_view(*end_node, entry_of(key, value)).take(mid as int),
            r.1@ == self.overflow_view(*end_node, entry_of(key, value)).skip(mid + 1),
            r.0.tail() == Some(self.overflow_view(*end_node, entry_of(key, value))[mid as int].value),
            r.1.tail() == self.tail(),
    {
        let ghost extra = entry_of(key, value);
        proof {
            reveal(Flex::overflow_ok);
        }
        let (nodes, _) = self.data.interpret(&self.header);
        let count: usize = nodes.len();
        let left_nodes = slice_subrange(nodes.as_slice(), 0, mid);
        let right_nodes = slice_subrange(nodes.as_slice(), mid + 1, count);
        proof {
            self.data.lemma_split_parts(&self.header, *end_node, extra, mid as int);
            self.data.lemma_split_parts(&self.header, *end_node, extra, mid + 1);
            let slots = self.data.overflow_slots(&self.header, *end_node);
            assert(readable(slots[mid as int], self.header.dir_bytes()));
            assert(slots[mid as int] == nodes@[mid as int]);
        }
        let (_, mid_val) = self.data.get_overflow_heap_entry(
            &self.header,
            &nodes[mid],
            (key, value),
        );
        let left = Self::new_from_range(left_nodes, self, Some(mid_val), None, (key, value));
        let right = Self::new_from_range(
            right_nodes,
            self,
            self.header.get_link(),
            Some(end_node),
            (key, value),
        );
        (left, right)
    }

    /// Enters the separator with its child at `index`. Where the page has
    /// no room it is cut at the middle: the page itself keeps the entries
    /// behind the middle one, and the middle separator is handed back with a
    /// new page that holds the entries before it and the middle child as
    /// its rightmost child.
    pub fn insert_at(&mut self, index: usize, key: &[u8], value: Node) -> (r: Option<
        (Vec<u8>, SlottedBranch),
    >)
        requires
            old(self).wf(),
            index <= old(self)@.len(),
            sorted(old(self)@.insert(index as int, entry_of(key, value))),
            old(self).fits(key@) || branch_split_fits(
                old(self)@.insert(index as int, entry_of(key, value)),
            ),
        ensures
            final(self).wf(),
            final(self).tail() == old(self).tail(),
            r is None <==> old(self).fits(key@),
            r is None ==> final(self)@ == old(self)@.insert(index as int, entry_of(key, value)),
            r matches Some(cut) ==> ({
                let es = old(self)@.insert(index as int, entry_of(key, value));
                let mid = branch_split_index(es);
                &&& cut.1.wf()
                &&& cut.1@ == es.take(mid)
                &&& cut.1.tail() == Some(es[mid].value)
                &&& cut.0@ == es[mid].key
                &&& final(self)@ == es.skip(mid + 1)
            }),
    {
        if self.can_fit(key) {
            self.data.insert_entry(&mut self.header, index, key, value);
            return None;
        }
        proof {
            lemma_branch_split(self@.insert(index as int, entry_of(key, value)));
        }
        let end_node = self.data.open_overflow(&self.header, index, key, value);
        let (mid, separator) = self.get_split(&end_node, (key, value));
        let separator = slice_to_vec(separator);
        let (left, right) = self.halves(&end_node, mid, key, value);
        *self = right;
        Some((separator, left))
    }

    /// After child `index` was cut in place and kept the lower keys, makes
    /// `value`, the page with the upper keys, child `index`, and enters the
    /// separator before it with the old child.
    pub fn insert_leaf_at(&mut self, index: usize, key: &[u8], value: Node) -> (r: Option<
        (Vec<u8>, SlottedBranch),
    >)
        requires
            old(self).wf(),
            index <= old(self)@.len(),
            sorted(old(self)@.insert(index as int, entry_of(key, old(self).child(index as int)))),
            old(self).fits(key@) || branch_split_fits(
                old(self)@.insert(index as int, entry_of(key, old(self).child(index as int))),
            ),
        ensures
            final(self).wf(),
            r is None <==> old(self).fits(key@),
            ({
                let swapped = if index < old(self)@.len() {
                    old(self)@.update(
                        index as int,
                        Entry { key: old(self)@[index as int].key, value },
                    )
                } else {
                    old(self)@
                };
                let tail = if index < old(self)@.len() {
                    old(self).tail()
                } else {
                    Some(value)
                };
                let es = swapped.insert(index as int, entry_of(key, old(self).child(index as int)));
                let mid = branch_split_index(es);
                &&& final(self).tail() == tail
                &&& r is None ==> final(self)@ == es
                &&& r matches Some(cut) ==> {
                    &&& cut.1.wf()
                    &&& cut.1@ == es.take(mid)
                    &&& cut.1.tail() == Some(es[mid].value)
                    &&& cut.0@ == es[mid].key
                    &&& final(self)@ == es.skip(mid + 1)
                }
            }),
    {
        let ghost before = *self;
        let value = self.fix_leaf_insert(index, value);
        proof {
            let e = entry_of(key, value);
            let a = before@.insert(index as int, e);
            let b = self@.insert(index as int, e);
            assert(a.len() == b.len());
            assert forall|i: int| 0 <= i < a.len() implies (#[trigger] a[i]).key == b[i].key by {}
            lemma_same_keys(a, b);
            lemma_same_keys(before@, self@);
            let mid = branch_split_index(a);
            assert(footprint(a.take(mid)) == footprint(b.take(mid)));
            assert(footprint(a.skip(mid + 1)) == footprint(b.skip(mid + 1)));
        }
        self.insert_at(index, key, value)
    }
}

/// Two runs of entries with the same keys are both sorted or both not, and
/// take the same room.
pub proof fn lemma_same_keys(a: Seq<Entry>, b: Seq<Entry>)
    requires
        a.len() == b.len(),
        forall|i: int| 0 <= i < a.len() ==> (#[trigger] a[i]).key == b[i].key,
    ensures
        sorted(a) == sorted(b),
        payload(a) == payload(b),
        footprint(a) == footprint(b),
        forall|n: int| 0 <= n <= a.len() ==> footprint(#[trigger] a.take(n)) == footprint(b.take(n)),
        forall|n: int| 0 <= n <= a.len() ==> footprint(#[trigger] a.skip(n)) == footprint(b.skip(n)),
    decreases a.len(),
{
    reveal(sorted);
    lemma_same_payload(a, b);
    if sorted(a) {
        assert forall|i: int, j: int| 0 <= i < j < b.len() implies lex_lt(b[i].key, b[j].key) by {
            assert(lex_lt(a[i].key, a[j].key));
        }
    }
    if sorted(b) {
        assert forall|i: int, j: int| 0 <= i < j < a.len() implies lex_lt(a[i].key, a[j].key) by {
            assert(lex_lt(b[i].key, b[j].key));
        }
    }
    assert forall|n: int| 0 <= n <= a.len() implies footprint(#[trigger] a.take(n)) == footprint(
        b.take(n),
    ) by {
        lemma_same_payload(a.take(n), b.take(n));
    }
    assert forall|n: int| 0 <= n <= a.len() implies footprint(#[trigger] a.skip(n)) == footprint(
        b.skip(n),
    ) by {
        lemma_same_payload(a.skip(n), b.skip(n));
    }
}

} // verus!
