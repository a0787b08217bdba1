//! A length of keys up to which every insertion finds room: a page whose
//! keys are no longer than that can always be cut into two halves that fit.

use vstd::prelude::*;
use crate::flex::{
    footprint, lemma_payload_bounds, lemma_payload_insert,
    lemma_payload_split, Entry, DATA_LEN, SLOT_SIZE,
};
use crate::slotted_branch::{branch_split_fits, branch_split_index};
use crate::slotted_leaf::{leaf_split_fits, leaf_split_index};
use crate::PTR_SIZE;

verus! {

/// A key of at most this length is short. A cut goes by the number of
/// entries, not by their size, so a half of a cut can outgrow a page where
/// keys are long; among short keys it cannot. A tree takes longer keys too,
/// wherever the pages on their way have room.
pub const MAX_KEY_LEN: usize = 224;

/// Every key is short.
pub open spec fn short_keys(es: Seq<Entry>) -> bool {
    forall|i: int| 0 <= i < es.len() ==> (#[trigger] es[i]).key.len() <= MAX_KEY_LEN
}

/// Entries with short keys take at most 240 bytes each, and any entry takes
/// at least 16.
pub proof fn lemma_footprint_range(es: Seq<Entry>)
    ensures
        footprint(es) >= 16 * es.len(),
        short_keys(es) ==> footprint(es) <= 240 * es.len(),
    decreases es.len(),
{
    lemma_payload_bounds(es);
    if es.len() > 0 && short_keys(es) {
        let rest = es.drop_last();
        assert forall|i: int| 0 <= i < rest.len() implies (#[trigger] rest[i]).key.len()
            <= MAX_KEY_LEN by {
            assert(rest[i] == es[i]);
        }
        lemma_footprint_range(rest);
        assert(es.last() == es[es.len() - 1]);
    }
}

/// A part of a run of entries takes no more room than the run.
pub proof fn lemma_footprint_part(es: Seq<Entry>, from: int, to: int)
    requires
        0 <= from <= to <= es.len(),
    ensures
        footprint(es.subrange(from, to)) <= footprint(es),
{
    lemma_payload_split(es, to);
    lemma_payload_split(es.take(to), from);
    lemma_payload_bounds(es.skip(to));
    lemma_payload_bounds(es.take(to).take(from));
    assert(es.take(to).skip(from) =~= es.subrange(from, to));
}

/// A page with short keys that has no room for one more short key is cut
/// into parts that fit: a part at either end of the page extended by the
/// new entry fits where it holds at most two entries more than the rest.
pub proof fn lemma_part_fits(old: Seq<Entry>, at: int, e: Entry, from: int, to: int)
    requires
        short_keys(old),
        e.key.len() <= MAX_KEY_LEN,
        footprint(old) <= DATA_LEN,
        0 <= at <= old.len(),
        0 <= from <= to <= old.len() + 1,
        from == 0 || to == old.len() + 1,
        to - from <= old.len() + 1 - (to - from) + 2,
    ensures
        footprint(old.insert(at, e).subrange(from, to)) <= DATA_LEN,
{
    let es = old.insert(at, e);
    let part = es.subrange(from, to);
    let n = old.len() as int;
    if at < from {
        assert(part =~= old.subrange(from - 1, to - 1));
        lemma_footprint_part(old, from - 1, to - 1);
    } else if at >= to {
        assert(part =~= old.subrange(from, to));
        lemma_footprint_part(old, from, to);
    } else {
        lemma_payload_insert(old, at, e);
        assert forall|i: int| 0 <= i < part.len() implies (#[trigger] part[i]).key.len()
            <= MAX_KEY_LEN by {
            let j = i + from;
            if j < at {
                assert(part[i] == old[j]);
            } else if j > at {
                assert(part[i] == old[j - 1]);
            }
        }
        lemma_footprint_range(part);
        if from == 0 {
            let rest = es.skip(to);
            lemma_payload_split(es, to);
            assert(es.take(to) =~= part);
            lemma_footprint_range(rest);
        } else {
            let rest = es.take(from);
            lemma_payload_split(es, from);
            assert(es.skip(from) =~= part);
            lemma_footprint_range(rest);
        }
    }
}

/// A leaf with short keys accepts any short key: where the key is new and
/// the page has no room, both halves of the cut fit.
pub proof fn lemma_leaf_room(old: Seq<Entry>, at: int, e: Entry)
    requires
        short_keys(old),
        e.key.len() <= MAX_KEY_LEN,
        footprint(old) <= DATA_LEN,
        0 <= at <= old.len(),
        footprint(old) + e.key.len() + PTR_SIZE + SLOT_SIZE > DATA_LEN,
    ensures
        leaf_split_fits(old.insert(at, e)),
{
    let es = old.insert(at, e);
    lemma_footprint_range(old);
    let s = leaf_split_index(es);
    lemma_part_fits(old, at, e, 0, s);
    lemma_part_fits(old, at, e, s, es.len() as int);
    assert(es.subrange(0, s) =~= es.take(s));
    assert(es.subrange(s, es.len() as int) =~= es.skip(s));
}

/// A branch with short separators that has no room for one more short
/// separator holds enough of them to be cut, and both halves of the cut fit.
pub proof fn lemma_branch_room(old: Seq<Entry>, at: int, e: Entry)
    requires
        short_keys(old),
        e.key.len() <= MAX_KEY_LEN,
        footprint(old) <= DATA_LEN,
        0 <= at <= old.len(),
        footprint(old) + e.key.len() + PTR_SIZE + SLOT_SIZE > DATA_LEN,
    ensures
        branch_split_fits(old.insert(at, e)),
{
    let es = old.insert(at, e);
    lemma_footprint_range(old);
    let m = branch_split_index(es);
    lemma_part_fits(old, at, e, 0, m);
    lemma_part_fits(old, at, e, m + 1, es.len() as int);
    assert(es.subrange(0, m) =~= es.take(m));
    assert(es.subrange(m + 1, es.len() as int) =~= es.skip(m + 1));
}

/// The halves of a run of entries with short keys have short keys.
pub proof fn lemma_short_parts(es: Seq<Entry>, from: int, to: int)
    requires
        short_keys(es),
        0 <= from <= to <= es.len(),
    ensures
        short_keys(es.subrange(from, to)),
{
    let part = es.subrange(from, to);
    assert forall|i: int| 0 <= i < part.len() implies (#[trigger] part[i]).key.len()
        <= MAX_KEY_LEN by {
        assert(part[i] == es[i + from]);
    }
}

/// Entering a short key keeps the keys short.
pub proof fn lemma_short_insert(es: Seq<Entry>, at: int, e: Entry)
    requires
        short_keys(es),
        0 <= at <= es.len(),
        e.key.len() <= MAX_KEY_LEN,
    ensures
        short_keys(es.insert(at, e)),
{
    let out = es.insert(at, e);
    assert forall|i: int| 0 <= i < out.len() implies (#[trigger] out[i]).key.len()
        <= MAX_KEY_LEN by {
        if i < at {
            assert(out[i] == es[i]);
        } else if i > at {
            assert(out[i] == es[i - 1]);
        }
    }
}

} // verus!
