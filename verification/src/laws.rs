//! What holds of every store that is in order: the tree is balanced, keys
//! and separators are ordered across pages, every page accounts for its
//! bytes, and an entry that was offered is held.

use vstd::prelude::*;
use crate::PTR_SIZE;
use crate::btree::Node;
use crate::flex::{DATA_LEN, Entry, SLOT_SIZE, lemma_payload_insert, lemma_payload_split, payload};
use crate::keys::{
    lemma_lex_asymmetric,
    lemma_lex_irreflexive,
    lemma_lex_lt_le,
    lemma_lex_transitive,
    lex_lt,
};
use crate::pages::{
    Pending, State, child_of, child_span, cut_count, cuts, has_room, inside, offered, risen,
    value_of,
};
use crate::room::{
    MAX_KEY_LEN, lemma_branch_room, lemma_leaf_room, lemma_short_insert, short_keys,
};
use crate::slotted_branch::{lemma_route, route};
use crate::slotted_leaf::{
    lemma_leaf_split,
    lemma_lookup,
    lemma_sorted_insert,
    lemma_upper_bound,
    lookup,
    upper_bound,
};
use crate::upkeep::lemma_route_span;
use crate::keys::lemma_min_separator;
use crate::slotted_branch::branch_split_index;
use crate::slotted_leaf::{has_key, leaf_split_index, sorted};
use crate::upkeep::lemma_child_within;

verus! {

/// The subtree under the page at `at`, which stands `height` levels above
/// the leaves, is balanced: every way down from the page passes `height`
/// branches and ends at a leaf.
pub open spec fn balanced(s: State, at: Node, height: nat) -> bool
    decreases height,
{
    if height == 0 {
        at < s.leaves.len()
    } else {
        &&& at < s.branches.len()
        &&& forall|i: int|
            0 <= i <= s.branches[at as int]@.len() ==> balanced(
                s,
                #[trigger] s.branches[at as int].child(i),
                (height - 1) as nat,
            )
    }
}

/// The subtree that stands `height` levels above the leaves does not reach
/// up to the parent of the pending page, if there is a pending page.
pub open spec fn below_pending(s: State, height: nat, exc: Option<Pending>) -> bool {
    exc matches Some(p) ==> if p.leaf {
        height == 0
    } else {
        p.at < s.levels.len() && height <= s.levels[p.at as int]
    }
}

/// Some page of the subtree under the page at `at` holds the key, as the
/// key of an entry or as a separator.
pub open spec fn key_under(s: State, at: Node, height: nat, key: Seq<u8>) -> bool
    decreases height,
{
    if height == 0 {
        has_key(s.leaves[at as int]@, key)
    } else {
        ||| has_key(s.branches[at as int]@, key)
        ||| exists|i: int|
            0 <= i <= s.branches[at as int]@.len() && key_under(
                s,
                #[trigger] s.branches[at as int].child(i),
                (height - 1) as nat,
                key,
            )
    }
}

impl State {
    /// In a store that is in order every subtree is balanced.
    pub proof fn lemma_balanced(self, at: Node, height: nat, exc: Option<Pending>)
        requires
            self.inv_with(exc),
            below_pending(self, height, exc),
            self.holds(at, height),
        ensures
            balanced(self, at, height),
        decreases height,
    {
        if height > 0 {
            let page = self.branches[at as int];
            assert forall|i: int| 0 <= i <= page@.len() implies balanced(
                self,
                #[trigger] page.child(i),
                (height - 1) as nat,
            ) by {
                self.lemma_child_under(at, height, i, exc);
                self.lemma_balanced(page.child(i), (height - 1) as nat, exc);
            }
        }
    }

    /// A branch of a store that is in order is a sorted page whose
    /// separators lie inside its span, and its child `i` is a page one
    /// level below that answers for the span between the separators beside
    /// it.
    pub proof fn lemma_child(self, at: Node, height: nat, i: int)
        requires
            self.inv(),
            height >= 1,
            self.holds(at, height),
            0 <= i <= self.branches[at as int]@.len(),
        ensures
            self.branches[at as int].wf(),
            inside(self.branches[at as int]@, self.branch_spans[at as int]),
            self.holds(self.branches[at as int].child(i), (height - 1) as nat),
            self.span_at(self.branches[at as int].child(i), (height - 1) as nat) == child_span(
                self.branches[at as int]@,
                self.branch_spans[at as int],
                i,
            ),
    {
        self.lemma_child_under(at, height, i, None);
    }

    /// As `lemma_child`, in a store with a pending page, for a branch that
    /// does not stand above the pending page.
    pub proof fn lemma_child_under(self, at: Node, height: nat, i: int, exc: Option<Pending>)
        requires
            self.inv_with(exc),
            below_pending(self, height, exc),
            height >= 1,
            self.holds(at, height),
            0 <= i <= self.branches[at as int]@.len(),
        ensures
            self.branches[at as int].wf(),
            inside(self.branches[at as int]@, self.branch_spans[at as int]),
            self.holds(self.branches[at as int].child(i), (height - 1) as nat),
            self.span_at(self.branches[at as int].child(i), (height - 1) as nat) == child_span(
                self.branches[at as int]@,
                self.branch_spans[at as int],
                i,
            ),
    {
        reveal(State::branch_ok);
        let page = self.branches[at as int];
        assert(self.branch_ok(at as int, exc));
        assert(self.child_ok(
            self.levels[at as int],
            child_of(page@, page.tail().unwrap(), i),
            child_span(page@, self.branch_spans[at as int], i),
            exc,
        ));
    }

    /// No page is the child of two branches, or twice the child of one:
    /// going down from a page, every page below it is met once.
    pub proof fn lemma_one_parent(self, p: Node, i: int, b: Node, j: int, height: nat)
        requires
            self.inv(),
            height >= 1,
            self.holds(p, height),
            self.holds(b, height),
            0 <= i <= self.branches[p as int]@.len(),
            0 <= j <= self.branches[b as int]@.len(),
            self.branches[p as int].child(i) == self.branches[b as int].child(j),
        ensures
            b == p,
            j == i,
    {
        reveal(sorted);
        let ep = self.branches[p as int]@;
        let eb = self.branches[b as int]@;
        let sp = self.branch_spans[p as int];
        let sb = self.branch_spans[b as int];
        self.lemma_child(p, height, i);
        self.lemma_child(b, height, j);
        let span = child_span(ep, sp, i);
        assert(child_span(eb, sb, j) == span);
        lemma_child_within(ep, sp, i);
        lemma_child_within(eb, sb, j);
        if b != p {
            if b < p {
                assert(self.branch_spans[b as int].apart(self.branch_spans[p as int]));
            } else {
                assert(self.branch_spans[p as int].apart(self.branch_spans[b as int]));
            }
            span.lemma_holds_lo();
            span.lemma_within(sp, span.lo);
            span.lemma_within(sb, span.lo);
            sp.lemma_apart(sb, span.lo);
        } else if j != i {
            let lo = if j < i {
                j
            } else {
                i
            };
            let hi = if j < i {
                i
            } else {
                j
            };
            assert(span.hi == Some(ep[lo].key));
            assert(span.lo == ep[hi - 1].key);
            lemma_lex_irreflexive(ep[lo].key);
            if lo < hi - 1 {
                assert(lex_lt(ep[lo].key, ep[hi - 1].key));
                lemma_lex_asymmetric(ep[lo].key, ep[hi - 1].key);
            }
        }
    }

    /// Each page of a store that is in order is laid out as a page should
    /// be: free space, directory and heap make up the payload area, and
    /// the heap holds the entries and nothing else.
    pub proof fn lemma_accounting(self, leaf: bool, at: Node)
        requires
            self.inv(),
            if leaf {
                at < self.leaves.len()
            } else {
                at < self.branches.len()
            },
        ensures
            leaf ==> self.leaves[at as int].free() + self.leaves[at as int]@.len() * SLOT_SIZE
                + payload(self.leaves[at as int]@) == DATA_LEN,
            !leaf ==> self.branches[at as int].free() + self.branches[at as int]@.len()
                * SLOT_SIZE + payload(self.branches[at as int]@) == DATA_LEN,
    {
        reveal(State::leaf_ok);
        reveal(State::branch_ok);
        if leaf {
            assert(self.leaf_ok(at as int));
            self.leaves[at as int].lemma_accounting();
        } else {
            assert(self.branch_ok(at as int, None));
            self.branches[at as int].lemma_accounting();
        }
    }

    /// Every key held under a page lies in the span of the page.
    pub proof fn lemma_keys_in_span(
        self,
        at: Node,
        height: nat,
        key: Seq<u8>,
        exc: Option<Pending>,
    )
        requires
            self.inv_with(exc),
            below_pending(self, height, exc),
            self.holds(at, height),
            key_under(self, at, height, key),
        ensures
            self.span_at(at, height).contains(key),
        decreases height,
    {
        if height == 0 {
            reveal(State::leaf_ok);
            assert(self.leaf_ok(at as int));
            let page = self.leaves[at as int];
            let i = choose|i: int| 0 <= i < page@.len() && (#[trigger] page@[i]).key == key;
            assert(self.leaf_spans[at as int].contains(page@[i].key));
        } else {
            let page = self.branches[at as int];
            let span = self.branch_spans[at as int];
            self.lemma_child_under(at, height, 0, exc);
            if has_key(page@, key) {
                let i = choose|i: int| 0 <= i < page@.len() && (#[trigger] page@[i]).key == key;
                lemma_child_within(page@, span, i);
                lemma_child_within(page@, span, i + 1);
                let lower = child_span(page@, span, i);
                let upper = child_span(page@, span, i + 1);
                lemma_lex_irreflexive(key);
                upper.lemma_within(span, key);
            } else {
                let i = choose|i: int|
                    0 <= i <= page@.len() && key_under(
                        self,
                        #[trigger] page.child(i),
                        (height - 1) as nat,
                        key,
                    );
                self.lemma_child_under(at, height, i, exc);
                self.lemma_keys_in_span(page.child(i), (height - 1) as nat, key, exc);
                lemma_child_within(page@, span, i);
                child_span(page@, span, i).lemma_within(span, key);
            }
        }
    }

    /// The separators of a branch ascend strictly, and separator `i` lies
    /// above every key held under the children up to `i` and not above any
    /// key held under the children behind `i`.
    pub proof fn lemma_separator_order(
        self,
        at: Node,
        height: nat,
        i: int,
        j: int,
        key: Seq<u8>,
        exc: Option<Pending>,
    )
        requires
            self.inv_with(exc),
            below_pending(self, height, exc),
            height >= 1,
            self.holds(at, height),
            0 <= i < self.branches[at as int]@.len(),
            0 <= j <= self.branches[at as int]@.len(),
            key_under(self, self.branches[at as int].child(j), (height - 1) as nat, key),
        ensures
            i + 1 < self.branches[at as int]@.len() ==> lex_lt(
                self.branches[at as int]@[i].key,
                self.branches[at as int]@[i + 1].key,
            ),
            j <= i ==> lex_lt(key, self.branches[at as int]@[i].key),
            j > i ==> !lex_lt(key, self.branches[at as int]@[i].key),
    {
        reveal(sorted);
        let page = self.branches[at as int];
        let es = page@;
        self.lemma_child_under(at, height, j, exc);
        self.lemma_keys_in_span(page.child(j), (height - 1) as nat, key, exc);
        if j <= i {
            if j < i {
                assert(lex_lt(es[j].key, es[i].key));
                lemma_lex_transitive(key, es[j].key, es[i].key);
            }
        } else {
            if j - 1 > i {
                assert(lex_lt(es[i].key, es[j - 1].key));
                if lex_lt(key, es[i].key) {
                    lemma_lex_transitive(key, es[i].key, es[j - 1].key);
                }
            }
        }
        if i + 1 < es.len() {
            assert(lex_lt(es[i].key, es[i + 1].key));
        }
    }

    /// The keys of a leaf ascend strictly, and each of them lies below
    /// every key of the leaf that its sibling link leads to.
    pub proof fn lemma_leaf_order(self, at: Node, i: int, j: int, exc: Option<Pending>)
        requires
            self.inv_with(exc),
            at < self.leaves.len(),
            0 <= i < self.leaves[at as int]@.len(),
        ensures
            sorted(self.leaves[at as int]@),
            i + 1 < self.leaves[at as int]@.len() ==> lex_lt(
                self.leaves[at as int]@[i].key,
                self.leaves[at as int]@[i + 1].key,
            ),
            self.leaves[at as int].next() matches Some(next) ==> next < self.leaves.len() && (0
                <= j < self.leaves[next as int]@.len() ==> lex_lt(
                self.leaves[at as int]@[i].key,
                self.leaves[next as int]@[j].key,
            )),
    {
        reveal(State::leaf_ok);
        reveal(sorted);
        let page = self.leaves[at as int];
        assert(self.leaf_ok(at as int));
        if i + 1 < page@.len() {
            assert(lex_lt(page@[i].key, page@[i + 1].key));
        }
        if page.next() is Some {
            let next = page.next().unwrap();
            assert(self.leaf_ok(next as int));
            let other = self.leaves[next as int];
            if 0 <= j < other@.len() {
                let end = self.leaf_spans[at as int].hi.unwrap();
                assert(self.leaf_spans[at as int].contains(page@[i].key));
                assert(self.leaf_spans[next as int].contains(other@[j].key));
                lemma_lex_lt_le(page@[i].key, end, other@[j].key);
            }
        }
    }
}

/// The two halves of a leaf that was cut hold together one entry more than
/// the leaf held, and their heaps take what its heap took and the new key
/// with its address.
pub proof fn lemma_leaf_cut_sizes(old: Seq<Entry>, at: int, e: Entry)
    requires
        0 <= at <= old.len(),
        old.len() >= 1,
    ensures
        ({
            let es = old.insert(at, e);
            let left = es.take(leaf_split_index(es));
            let right = es.skip(leaf_split_index(es));
            &&& left.len() + right.len() == old.len() + 1
            &&& payload(left) + payload(right) == payload(
                old,
            ) + PTR_SIZE + e.key.len()
        }),
{
    let es = old.insert(at, e);
    lemma_payload_insert(old, at, e);
    lemma_payload_split(es, leaf_split_index(es));
}

/// The two halves of a branch that was cut hold together as many
/// separators as the branch held, the one that went up not counted, and
/// their heaps and the separator that went up with its child take what
/// the heap of the branch took and the new separator with its child.
pub proof fn lemma_branch_cut_sizes(old: Seq<Entry>, at: int, e: Entry)
    requires
        0 <= at <= old.len(),
        old.len() >= 2,
    ensures
        ({
            let es = old.insert(at, e);
            let mid = branch_split_index(es);
            let left = es.take(mid);
            let right = es.skip(mid + 1);
            &&& left.len() + right.len() == old.len()
            &&& payload(left) + payload(right) + PTR_SIZE
                + es[mid].key.len() == payload(old) + PTR_SIZE + e.key.len()
        }),
{
    let es = old.insert(at, e);
    let mid = branch_split_index(es);
    lemma_payload_insert(old, at, e);
    lemma_payload_split(es, mid);
    lemma_payload_split(es.skip(mid), 1);
    assert(es.skip(mid).skip(1) =~= es.skip(mid + 1));
    lemma_payload_insert(Seq::<Entry>::empty(), 0, es[mid]);
    assert(Seq::<Entry>::empty().insert(0, es[mid]) =~= es.skip(mid).take(1));
}

/// After an entry was offered, its key is held: with the address it had
/// where it was held before, else with the address offered. Every other
/// key is held as before.
pub proof fn lemma_offered(content: Map<Seq<u8>, Node>, key: Seq<u8>, value: Node, other: Seq<u8>)
    ensures
        value_of(offered(content, key, value), key) == if content.contains_key(key) {
            Some(content[key])
        } else {
            Some(value)
        },
        other != key ==> value_of(offered(content, key, value), other) == value_of(content, other),
{
}

/// Offering an entry a second time changes nothing, whatever address comes
/// with it: the key is entered once, and the first address stays.
pub proof fn lemma_offered_twice(content: Map<Seq<u8>, Node>, key: Seq<u8>, first: Node, second: Node)
    ensures
        offered(offered(content, key, first), key, second) == offered(content, key, first),
        offered(offered(content, key, first), key, second).dom() == content.dom().insert(key),
{
    assert(offered(content, key, first).dom() =~= content.dom().insert(key));
}

impl State {
    /// Every key of every page is short.
    pub open spec fn all_short(self) -> bool {
        &&& forall|a: int| 0 <= a < self.leaves.len() ==> short_keys(#[trigger] self.leaves[a]@)
        &&& forall|b: int|
            0 <= b < self.branches.len() ==> short_keys(#[trigger] self.branches[b]@)
    }

    /// A key that the store holds is inserted without a cut, and the pages
    /// on its way have the room for that.
    pub proof fn lemma_held_key(self, at: Node, height: nat, key: Seq<u8>)
        requires
            self.inv(),
            self.holds(at, height),
            self.span_at(at, height).contains(key),
            self.content.contains_key(key),
        ensures
            has_room(self, at, height, key),
            !cuts(self, at, height, key),
            cut_count(self, at, height, key) == 0,
        decreases height,
    {
        if height == 0 {
            reveal(State::leaf_ok);
            assert(self.leaf_ok(at as int));
            let page = self.leaves[at as int];
            assert(lookup(page@, key) == value_of(self.content, key));
            lemma_lookup(page@, key);
        } else {
            let page = self.branches[at as int];
            let i = route(page@, key);
            lemma_route_span(page@, self.branch_spans[at as int], key);
            self.lemma_child(at, height, i);
            self.lemma_held_key(page.child(i), (height - 1) as nat, key);
        }
    }

    /// Where every key of the store is short, the pages on the way of a
    /// short key have the room that its insertion needs, and the separator
    /// that goes up from a page that is cut is short.
    pub proof fn lemma_short_room(self, at: Node, height: nat, key: Seq<u8>)
        requires
            self.inv(),
            self.holds(at, height),
            self.all_short(),
            key.len() <= MAX_KEY_LEN,
        ensures
            has_room(self, at, height, key),
            cuts(self, at, height, key) ==> risen(self, at, height, key).len() <= MAX_KEY_LEN,
        decreases height,
    {
        if height == 0 {
            reveal(State::leaf_ok);
            assert(self.leaf_ok(at as int));
            let page = self.leaves[at as int];
            let es = page@;
            let e = Entry { key, value: 0 };
            page.lemma_accounting();
            lemma_upper_bound(es, key);
            let u = upper_bound(es, key);
            if cuts(self, at, 0, key) {
                lemma_leaf_room(es, u, e);
                let out = es.insert(u, e);
                lemma_sorted_insert(es, e);
                lemma_leaf_split(out);
                lemma_short_insert(es, u, e);
                let s = leaf_split_index(out);
                assert(lex_lt(out[s - 1].key, out[s].key)) by {
                    reveal(sorted);
                }
                lemma_min_separator(out[s - 1].key, out[s].key);
            }
        } else {
            let page = self.branches[at as int];
            let i = route(page@, key);
            lemma_route(page@, key);
            self.lemma_child(at, height, i);
            let child = page.child(i);
            let below = (height - 1) as nat;
            self.lemma_short_room(child, below, key);
            if cuts(self, child, below, key) {
                let sep = risen(self, child, below, key);
                let e = Entry { key: sep, value: 0 };
                reveal(State::branch_ok);
                assert(self.branch_ok(at as int, None));
                page.lemma_accounting();
                if !page.fits(sep) {
                    lemma_branch_room(page@, i, e);
                }
                lemma_short_insert(page@, i, e);
            }
        }
    }
}

/// The content after the entries of a run were offered one after the other.
pub open spec fn offered_run(content: Map<Seq<u8>, Node>, run: Seq<Entry>) -> Map<Seq<u8>, Node>
    decreases run.len(),
{
    if run.len() == 0 {
        content
    } else {
        offered(offered_run(content, run.drop_last()), run.last().key, run.last().value)
    }
}

/// A key that is held before a run of offers is held after it with the
/// address that it had.
pub proof fn lemma_run_keeps(content: Map<Seq<u8>, Node>, run: Seq<Entry>, key: Seq<u8>)
    requires
        content.contains_key(key),
    ensures
        offered_run(content, run).contains_key(key),
        offered_run(content, run)[key] == content[key],
    decreases run.len(),
{
    if run.len() > 0 {
        lemma_run_keeps(content, run.drop_last(), key);
    }
}

/// A key that is not held before a run of offers and is not offered in it
/// is not held after it.
pub proof fn lemma_run_absent(content: Map<Seq<u8>, Node>, run: Seq<Entry>, key: Seq<u8>)
    requires
        !content.contains_key(key),
        forall|j: int| 0 <= j < run.len() ==> (#[trigger] run[j]).key != key,
    ensures
        !offered_run(content, run).contains_key(key),
    decreases run.len(),
{
    if run.len() > 0 {
        let rest = run.drop_last();
        assert forall|j: int| 0 <= j < rest.len() implies (#[trigger] rest[j]).key != key by {
            assert(rest[j] == run[j]);
        }
        lemma_run_absent(content, rest, key);
        assert(run.last() == run[run.len() - 1]);
    }
}

/// After any run of offers every key of the run is held: with the address
/// that it had where it was held before the run, else with the address
/// that came with it first.
pub proof fn lemma_run_found(content: Map<Seq<u8>, Node>, run: Seq<Entry>, i: int)
    requires
        0 <= i < run.len(),
    ensures
        offered_run(content, run).contains_key(run[i].key),
        content.contains_key(run[i].key) ==> offered_run(content, run)[run[i].key]
            == content[run[i].key],
        !content.contains_key(run[i].key) && (forall|j: int|
            0 <= j < i ==> (#[trigger] run[j]).key != run[i].key) ==> offered_run(
            content,
            run,
        )[run[i].key] == run[i].value,
    decreases run.len(),
{
    let rest = run.drop_last();
    let key = run[i].key;
    if content.contains_key(key) {
        lemma_run_keeps(content, run, key);
    } else if i == run.len() - 1 {
        if forall|j: int| 0 <= j < i ==> (#[trigger] run[j]).key != key {
            assert forall|j: int| 0 <= j < rest.len() implies (#[trigger] rest[j]).key != key by {
                assert(rest[j] == run[j]);
            }
            lemma_run_absent(content, rest, key);
        }
    } else {
        assert(rest[i] == run[i]);
        if forall|j: int| 0 <= j < i ==> (#[trigger] run[j]).key != key {
            assert forall|j: int| 0 <= j < i implies (#[trigger] rest[j]).key != key by {
                assert(rest[j] == run[j]);
            }
        }
        lemma_run_found(content, rest, i);
    }
}

} // verus!
