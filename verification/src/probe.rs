//! Whether the pages on the way of a key have the room that its insertion
//! needs, found out without a change to any page.

use vstd::prelude::*;
use crate::btree::Node;
use crate::flex::{
    footprint, lemma_footprint_step, lemma_payload_bounds, lemma_payload_insert,
    lemma_payload_member, lemma_payload_split, Entry, DATA_LEN, SLOT_SIZE,
};
use crate::keys::{common_prefix, key_eq, lemma_min_separator, lex_lt};
use crate::laws::lemma_branch_cut_sizes;
use crate::pages::{cuts, has_room, risen, PageStore};
use crate::slotted_branch::{
    branch_split_fits, branch_split_index, SlottedBranch,
};
use crate::slotted_leaf::{
    has_key, leaf_separator, leaf_split_fits, leaf_split_index, lemma_lookup, separator_len,
    lemma_sorted_insert, lemma_sorted_position, lemma_upper_bound, sorted,
    upper_bound, SlottedLeaf,
};
use crate::PTR_SIZE;

verus! {

/// What the offer of a key would do to a page: whether the page has the
/// room that it needs, whether the page would be cut, and the length of the
/// separator that would go up from it.
#[derive(Clone, Copy, Debug, PartialEq, Eq)]
pub struct Room {
    pub ok: bool,
    pub cut: bool,
    pub sep_len: usize,
}

/// Bytes that the first `count` entries of the leaf take.
fn leaf_prefix(leaf: &SlottedLeaf, count: usize) -> (bytes: usize)
    requires
        leaf.layout_ok(),
        count <= leaf@.len(),
    ensures
        bytes == footprint(leaf@.take(count as int)),
        bytes <= DATA_LEN,
{
    let mut i: usize = 0;
    let mut sum: usize = 0;
    proof {
        leaf.lemma_accounting();
    }
    while i < count
        invariant
            i <= count <= leaf@.len(),
            leaf.layout_ok(),
            footprint(leaf@) <= DATA_LEN,
            sum == footprint(leaf@.take(i as int)),
            sum <= DATA_LEN,
        decreases count - i,
    {
        let key = leaf.key_at(i);
        proof {
            lemma_footprint_step(leaf@, i as int);
        }
        sum = sum + SLOT_SIZE + PTR_SIZE + key.len();
        i += 1;
    }
    sum
}

/// Bytes that the first `count` entries of the branch take.
fn branch_prefix(branch: &SlottedBranch, count: usize) -> (bytes: usize)
    requires
        branch.layout_ok(),
        count <= branch@.len(),
    ensures
        bytes == footprint(branch@.take(count as int)),
        bytes <= DATA_LEN,
{
    let mut i: usize = 0;
    let mut sum: usize = 0;
    proof {
        branch.lemma_accounting();
    }
    while i < count
        invariant
            i <= count <= branch@.len(),
            branch.layout_ok(),
            footprint(branch@) <= DATA_LEN,
            sum == footprint(branch@.take(i as int)),
            sum <= DATA_LEN,
        decreases count - i,
    {
        let key = branch.key_at(i);
        proof {
            lemma_footprint_step(branch@, i as int);
        }
        sum = sum + SLOT_SIZE + PTR_SIZE + key.len();
        i += 1;
    }
    sum
}

/// Key `j` of the leaf extended by `key` at `index`.
fn logical_key<'a>(leaf: &'a SlottedLeaf, index: usize, key: &'a [u8], j: usize) -> (k: &'a [u8])
    requires
        leaf.layout_ok(),
        index <= leaf@.len(),
        j <= leaf@.len(),
    ensures
        k@ == leaf@.insert(index as int, Entry { key: key@, value: 0 })[j as int].key,
{
    if j < index {
        leaf.key_at(j)
    } else if j == index {
        key
    } else {
        leaf.key_at(j - 1)
    }
}

/// The first `split` entries of a run extended by one entry take what the
/// entries of the run among them take and, where it is among them, the new
/// entry; they and the rest take what the run and the new entry take.
pub proof fn lemma_halves(old: Seq<Entry>, index: int, e: Entry, split: int)
    requires
        0 <= index <= old.len(),
        0 <= split <= old.len() + 1,
    ensures
        footprint(old.insert(index, e).take(split)) == if index >= split {
            footprint(old.take(split))
        } else {
            footprint(old.take(split - 1)) + SLOT_SIZE + PTR_SIZE + e.key.len()
        },
        footprint(old.insert(index, e).take(split)) + footprint(old.insert(index, e).skip(split))
            == footprint(old) + SLOT_SIZE + PTR_SIZE + e.key.len(),
{
    let es = old.insert(index, e);
    lemma_payload_insert(old, index, e);
    lemma_payload_split(es, split);
    if index >= split {
        assert(es.take(split) =~= old.take(split));
    } else {
        assert(es.take(split) =~= old.take(split - 1).insert(index, e));
        lemma_payload_insert(old.take(split - 1), index, e);
    }
}

/// No half of a cut fits where the new key alone does not fit into a page.
pub proof fn lemma_too_long(old: Seq<Entry>, index: int, e: Entry)
    requires
        0 <= index <= old.len(),
        e.key.len() > DATA_LEN,
    ensures
        !leaf_split_fits(old.insert(index, e)),
{
    let es = old.insert(index, e);
    if es.len() >= 2 {
        let s = leaf_split_index(es);
        if index < s {
            lemma_payload_member(es.take(s), index);
        } else {
            lemma_payload_member(es.skip(s), index - s);
        }
    }
}

/// The separator at the cut of a sorted run is one byte longer than the
/// common prefix of the keys beside the cut, and no longer than the key
/// behind the cut.
pub proof fn lemma_separator_len(es: Seq<Entry>)
    requires
        sorted(es),
        es.len() >= 2,
    ensures
        0 < leaf_split_index(es) < es.len(),
        leaf_separator(es).len() == separator_len(es, leaf_split_index(es) - 1),
        separator_len(es, es.len() as int / 2 - 1) <= es[es.len() as int / 2].key.len(),
        es.len() as int / 2 + 1 < es.len() ==> separator_len(es, es.len() as int / 2) <= es[es.len() as int
            / 2 + 1].key.len(),
{
    reveal(sorted);
    let mid = es.len() as int / 2;
    assert(lex_lt(es[mid - 1].key, es[mid].key));
    lemma_min_separator(es[mid - 1].key, es[mid].key);
    if mid + 1 < es.len() {
        assert(lex_lt(es[mid].key, es[mid + 1].key));
        lemma_min_separator(es[mid].key, es[mid + 1].key);
    }
}

/// Where the leaf extended by the new key at `index` is cut, and the
/// length of the separator that goes up.
fn leaf_cut(leaf: &SlottedLeaf, key: &[u8], index: usize) -> (r: (usize, usize))
    requires
        leaf.layout_ok(),
        index <= leaf@.len(),
        leaf@.len() >= 1,
        footprint(leaf@) <= DATA_LEN,
        key@.len() <= DATA_LEN,
        sorted(leaf@.insert(index as int, Entry { key: key@, value: 0 })),
    ensures
        r.0 == leaf_split_index(leaf@.insert(index as int, Entry { key: key@, value: 0 })),
        0 < r.0 <= leaf@.len(),
        r.1 == leaf_separator(leaf@.insert(index as int, Entry { key: key@, value: 0 })).len(),
        r.1 <= DATA_LEN,
{
    let ghost e = Entry { key: key@, value: 0 };
    let ghost es = leaf@.insert(index as int, e);
    let n = leaf.size();
    proof {
        lemma_payload_bounds(leaf@);
        lemma_separator_len(es);
    }
    let mid: usize = (n + 1) / 2;
    let before = logical_key(leaf, index, key, mid - 1);
    let middle = logical_key(leaf, index, key, mid);
    let middle_len = middle.len();
    let mut sep_len: usize = common_prefix(before, middle) + 1;
    let mut split: usize = mid;
    if mid < n {
        let behind = logical_key(leaf, index, key, mid + 1);
        let behind_len = behind.len();
        let second: usize = common_prefix(middle, behind) + 1;
        if second < sep_len {
            sep_len = second;
            split = mid + 1;
        }
    }
    proof {
        if split as int != index {
            let j = if split < index {
                split as int
            } else {
                split - 1
            };
            assert(es[split as int] == leaf@[j]);
            lemma_payload_member(leaf@, j);
        }
    }
    (split, sep_len)
}

/// Whether both parts of the leaf extended by the new key at `index` fit
/// into a page when it is cut at `split`.
fn leaf_halves_fit(leaf: &SlottedLeaf, key: &[u8], index: usize, split: usize) -> (ok: bool)
    requires
        leaf.layout_ok(),
        index <= leaf@.len(),
        0 < split <= leaf@.len(),
        key@.len() <= DATA_LEN,
    ensures
        ok == (footprint(
            leaf@.insert(index as int, Entry { key: key@, value: 0 }).take(split as int),
        ) <= DATA_LEN && footprint(
            leaf@.insert(index as int, Entry { key: key@, value: 0 }).skip(split as int),
        ) <= DATA_LEN),
{
    let ghost e = Entry { key: key@, value: 0 };
    proof {
        leaf.lemma_accounting();
        lemma_payload_bounds(leaf@);
        lemma_halves(leaf@, index as int, e, split as int);
        lemma_payload_bounds(leaf@.insert(index as int, e).skip(split as int));
    }
    let left: usize = if index >= split {
        leaf_prefix(leaf, split)
    } else {
        leaf_prefix(leaf, split - 1) + SLOT_SIZE + PTR_SIZE + key.len()
    };
    let total: usize = (DATA_LEN - leaf.unused_bytes()) + SLOT_SIZE + PTR_SIZE + key.len();
    let right: usize = total - left;
    left <= DATA_LEN && right <= DATA_LEN
}

/// What the offer of the key would do to the leaf.
pub fn leaf_room(leaf: &SlottedLeaf, key: &[u8]) -> (r: Room)
    requires
        leaf.wf(),
    ensures
        r.ok == leaf.accepts(key@),
        r.cut == (!has_key(leaf@, key@) && footprint(leaf@) + key@.len() + PTR_SIZE + SLOT_SIZE
            > DATA_LEN),
        r.ok && r.cut ==> r.sep_len == leaf_separator(
            leaf@.insert(upper_bound(leaf@, key@), Entry { key: key@, value: 0 }),
        ).len(),
        r.ok && r.cut ==> r.sep_len <= DATA_LEN,
{
    proof {
        lemma_lookup(leaf@, key@);
        lemma_upper_bound(leaf@, key@);
        leaf.lemma_accounting();
        lemma_payload_bounds(leaf@);
    }
    let index = leaf.get_upper_bound(key);
    let n = leaf.size();
    if index < n && key_eq(leaf.key_at(index), key) {
        return Room { ok: true, cut: false, sep_len: 0 };
    }
    proof {
        if has_key(leaf@, key@) {
            let i = choose|i: int| 0 <= i < leaf@.len() && (#[trigger] leaf@[i]).key == key@;
            lemma_sorted_position(leaf@, key@, i);
        }
    }
    if leaf.can_fit(key) {
        return Room { ok: true, cut: false, sep_len: 0 };
    }
    if n == 0 || key.len() > DATA_LEN {
        proof {
            if key.len() > DATA_LEN {
                lemma_too_long(leaf@, index as int, Entry { key: key@, value: 0 });
            }
        }
        return Room { ok: false, cut: true, sep_len: 0 };
    }
    proof {
        lemma_sorted_insert(leaf@, Entry { key: key@, value: 0 });
    }
    let (split, sep_len) = leaf_cut(leaf, key, index);
    let ok = leaf_halves_fit(leaf, key, index, split);
    Room { ok, cut: true, sep_len }
}

/// The halves of a branch that is cut with a new separator at `index` take
/// what its separators among them take and, where it is among them, the
/// new one; the halves and the separator that goes up take what the branch
/// and the new separator take.
pub proof fn lemma_branch_halves(old: Seq<Entry>, index: int, e: Entry)
    requires
        0 <= index <= old.len(),
        old.len() >= 2,
    ensures
        ({
            let es = old.insert(index, e);
            let mid = branch_split_index(es);
            &&& 0 < mid < old.len()
            &&& es[mid].key == if mid == index {
                e.key
            } else if mid < index {
                old[mid].key
            } else {
                old[mid - 1].key
            }
            &&& footprint(es.take(mid)) == if index >= mid {
                footprint(old.take(mid))
            } else {
                footprint(old.take(mid - 1)) + SLOT_SIZE + PTR_SIZE + e.key.len()
            }
            &&& footprint(es.take(mid)) + footprint(es.skip(mid + 1)) + SLOT_SIZE + PTR_SIZE
                + es[mid].key.len() == footprint(old) + SLOT_SIZE + PTR_SIZE + e.key.len()
        }),
{
    let es = old.insert(index, e);
    let mid = branch_split_index(es);
    lemma_halves(old, index, e, mid);
    lemma_branch_cut_sizes(old, index, e);
    lemma_payload_insert(old, index, e);
}

/// What a separator of length `sep_len` that comes up at `index` would do
/// to the branch. `sep` stands for the separator.
fn branch_room(branch: &SlottedBranch, index: usize, sep_len: usize, Ghost(sep): Ghost<
    Seq<u8>,
>) -> (r: Room)
    requires
        branch.layout_ok(),
        index <= branch@.len(),
        sep.len() == sep_len,
        sep_len <= DATA_LEN,
    ensures
        r.cut == !branch.fits(sep),
        r.ok == (branch.fits(sep) || branch_split_fits(
            branch@.insert(index as int, Entry { key: sep, value: 0 }),
        )),
        r.ok && r.cut ==> r.sep_len == branch@.insert(
            index as int,
            Entry { key: sep, value: 0 },
        )[branch_split_index(branch@.insert(index as int, Entry { key: sep, value: 0 }))].key.len(),
        r.ok && r.cut ==> r.sep_len <= DATA_LEN,
{
    proof {
        branch.lemma_accounting();
        lemma_payload_bounds(branch@);
    }
    let unused = branch.unused_bytes();
    if unused >= PTR_SIZE + SLOT_SIZE && sep_len <= unused - PTR_SIZE - SLOT_SIZE {
        return Room { ok: true, cut: false, sep_len: 0 };
    }
    let n = branch.size();
    if n < 2 {
        return Room { ok: false, cut: true, sep_len: 0 };
    }
    let ghost e = Entry { key: sep, value: 0 };
    let mid: usize = (n + 1) / 2;
    proof {
        lemma_branch_halves(branch@, index as int, e);
        if mid < index {
            lemma_payload_member(branch@, mid as int);
        } else if mid > index {
            lemma_payload_member(branch@, mid - 1);
        }
        lemma_payload_bounds(branch@.insert(index as int, e).skip(mid + 1));
    }
    let median_len: usize = if mid == index {
        sep_len
    } else if mid < index {
        branch.key_at(mid).len()
    } else {
        branch.key_at(mid - 1).len()
    };
    let left: usize = if index >= mid {
        branch_prefix(branch, mid)
    } else {
        branch_prefix(branch, mid - 1) + SLOT_SIZE + PTR_SIZE + sep_len
    };
    let total: usize = (DATA_LEN - unused) + SLOT_SIZE + PTR_SIZE + sep_len;
    let right: usize = total - left - SLOT_SIZE - PTR_SIZE - median_len;
    Room { ok: left <= DATA_LEN && right <= DATA_LEN, cut: true, sep_len: median_len }
}

impl SlottedBranch {
    /// What the offer of the key would do to the subtree under the branch
    /// at `at`, which stands `height` levels above the leaves.
    pub fn room(pages: &PageStore, at: Node, key: &[u8], height: usize) -> (r: Room)
        requires
            pages.inv(),
            height >= 1,
            pages.state().holds(at, height as nat),
        ensures
            r.ok == has_room(pages.state(), at, height as nat, key@),
            r.ok ==> r.cut == cuts(pages.state(), at, height as nat, key@),
            r.ok && r.cut ==> r.sep_len == risen(pages.state(), at, height as nat, key@).len(),
            r.ok && r.cut ==> r.sep_len <= DATA_LEN,
        decreases height,
    {
        let ghost s = pages.state();
        proof {
            pages.lemma_child_holds(at, height as nat, 0);
        }
        let branch = pages.branch(at);
        let index = branch.get_upper_bound(key);
        proof {
            pages.lemma_child_holds(at, height as nat, index as int);
        }
        let child = branch.child_at(index);
        let below = if height == 1 {
            proof {
                pages.lemma_leaf_wf(child);
            }
            leaf_room(pages.leaf(child), key)
        } else {
            Self::room(pages, child, key, height - 1)
        };
        proof {
            assert(has_room(s, at, height as nat, key@) == (has_room(
                s,
                child,
                (height - 1) as nat,
                key@,
            ) && (cuts(s, child, (height - 1) as nat, key@) ==> branch.fits(
                risen(s, child, (height - 1) as nat, key@),
            ) || branch_split_fits(
                branch@.insert(
                    index as int,
                    Entry { key: risen(s, child, (height - 1) as nat, key@), value: 0 },
                ),
            ))));
        }
        proof {
            assert(cuts(s, at, height as nat, key@) == (cuts(s, child, (height - 1) as nat, key@)
                && !branch.fits(risen(s, child, (height - 1) as nat, key@))));
            if height == 1 {
                assert(below.cut == cuts(s, child, 0, key@));
                assert(has_room(s, child, 0, key@) == pages.state().leaves[child as int].accepts(
                    key@,
                ));
            }
        }
        if !below.ok {
            return Room { ok: false, cut: false, sep_len: 0 };
        }
        if !below.cut {
            return Room { ok: true, cut: false, sep_len: 0 };
        }
        branch_room(
            branch,
            index,
            below.sep_len,
            Ghost(risen(s, child, (height - 1) as nat, key@)),
        )
    }
}

} // verus!
