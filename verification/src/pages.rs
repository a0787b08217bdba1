//! The page store: every page of a tree, leaves and branches apart, each
//! under the address by which its parent holds it, together with the key
//! span that each page answers for, and the insertion and lookup that go
//! down through the pages.

use vstd::prelude::*;
use crate::PTR_SIZE;
use crate::btree::{InsertResultIntern, Node};
use crate::census::{
    absorbed_count,
    inserted_count,
    kept_aside,
    kids_pages,
    lemma_count_cut,
    lemma_count_kept,
    lemma_insert_count,
    pages_under,
};
use crate::flex::{DATA_LEN, Entry, SLOT_SIZE, entry_of, footprint};
use crate::keys::lex_lt;
use crate::slotted_branch::{
    SlottedBranch, branch_split_fits, branch_split_index, lemma_same_keys, route,
};
use crate::room::MAX_KEY_LEN;
use crate::upkeep::{
    absorbed_tail, lemma_separator_of_keys, lemma_short_after_branch, lemma_short_after_leaf,
};
use crate::slotted_leaf::{
    SlottedLeaf,
    has_key,
    inserted,
    leaf_separator,
    leaf_split_index,
    lemma_upper_bound,
    lookup,
    upper_bound,
};
use crate::span::Span;
use crate::upkeep::{
    absorbed,
    lemma_absorbed,
    lemma_absorbed_cut,
    lemma_grown,
    lemma_kept,
    lemma_kept_more,
    lemma_leaf_cut,
    lemma_leaf_updated,
    lemma_ready,
    lemma_route_span,
    ready_to_absorb,
};

verus! {

/// A page that was cut in place while its parent still takes it for the
/// page that answers for the whole of `span`.
pub struct Pending {
    pub leaf: bool,
    pub at: Node,
    pub span: Span,
}

/// The address stored under the key, if any.
pub open spec fn value_of(content: Map<Seq<u8>, Node>, key: Seq<u8>) -> Option<Node> {
    if content.contains_key(key) {
        Some(content[key])
    } else {
        None
    }
}

/// The content after the entry was offered: a key that is held keeps its
/// address, a new key is entered with its address.
pub open spec fn offered(content: Map<Seq<u8>, Node>, key: Seq<u8>, value: Node) -> Map<
    Seq<u8>,
    Node,
> {
    if content.contains_key(key) {
        content
    } else {
        content.insert(key, value)
    }
}

/// Child `i` of a branch with these separators and this rightmost child.
pub open spec fn child_of(es: Seq<Entry>, tail: Node, i: int) -> Node {
    if 0 <= i < es.len() {
        es[i].value
    } else {
        tail
    }
}

/// The span that child `i` of a branch answers for: from the separator
/// before it, or the lower end of the branch, up to its own separator, or
/// the upper end of the branch.
pub open spec fn child_span(es: Seq<Entry>, span: Span, i: int) -> Span {
    Span {
        lo: if i <= 0 {
            span.lo
        } else {
            es[i - 1].key
        },
        hi: if i < es.len() {
            Some(es[i].key)
        } else {
            span.hi
        },
    }
}

/// Every separator lies strictly inside the span.
pub open spec fn inside(es: Seq<Entry>, span: Span) -> bool {
    &&& lex_lt(span.lo, es[0].key)
    &&& span.hi matches Some(h) ==> lex_lt(es[es.len() - 1].key, h)
}

/// Every key lies in the span.
pub open spec fn keys_within(es: Seq<Entry>, span: Span) -> bool {
    forall|i: int| 0 <= i < es.len() ==> span.contains((#[trigger] es[i]).key)
}

/// For every key of the span the page holds what the content holds.
pub open spec fn answers(es: Seq<Entry>, span: Span, content: Map<Seq<u8>, Node>) -> bool {
    forall|key: Seq<u8>| span.contains(key) ==> #[trigger] lookup(es, key) == value_of(content, key)
}

/// The key with its address and slot fits into an empty page.
pub open spec fn storable(key: Seq<u8>) -> bool {
    key.len() + PTR_SIZE + SLOT_SIZE <= DATA_LEN
}

/// Whether the page at `at`, which stands `height` levels above the
/// leaves, is cut when the key is offered to the subtree under it: a leaf
/// where the key is new and does not fit, a branch where the child that the
/// key belongs to is cut and the separator that comes up does not fit.
pub open spec fn cuts(s: State, at: Node, height: nat, key: Seq<u8>) -> bool
    decreases height,
{
    if height == 0 {
        let es = s.leaves[at as int]@;
        !has_key(es, key) && footprint(es) + key.len() + PTR_SIZE + SLOT_SIZE > DATA_LEN
    } else {
        let page = s.branches[at as int];
        let child = page.child(route(page@, key));
        cuts(s, child, (height - 1) as nat, key) && !page.fits(
            risen(s, child, (height - 1) as nat, key),
        )
    }
}

/// The separator that goes up from the page at `at` where it is cut: from a
/// leaf the shortest separator at the cut, from a branch the middle one of
/// its separators with the one that came up from below.
pub open spec fn risen(s: State, at: Node, height: nat, key: Seq<u8>) -> Seq<u8>
    decreases height,
{
    if height == 0 {
        let es = s.leaves[at as int]@;
        leaf_separator(es.insert(upper_bound(es, key), Entry { key, value: 0 }))
    } else {
        let page = s.branches[at as int];
        let i = route(page@, key);
        let sep = risen(s, page.child(i), (height - 1) as nat, key);
        let es = page@.insert(i, Entry { key: sep, value: 0 });
        es[branch_split_index(es)].key
    }
}

/// The pages on the way of the key have the room that its insertion
/// needs: the leaf accepts the key, and each branch above a page that is
/// cut has room for the separator that comes up or can be cut so that both
/// halves fit.
pub open spec fn has_room(s: State, at: Node, height: nat, key: Seq<u8>) -> bool
    decreases height,
{
    if height == 0 {
        s.leaves[at as int].accepts(key)
    } else {
        let page = s.branches[at as int];
        let i = route(page@, key);
        let child = page.child(i);
        let sep = risen(s, child, (height - 1) as nat, key);
        &&& has_room(s, child, (height - 1) as nat, key)
        &&& cuts(s, child, (height - 1) as nat, key) ==> page.fits(sep) || branch_split_fits(
            page@.insert(i, Entry { key: sep, value: 0 }),
        )
    }
}

/// Number of pages on the way of the key that are cut when the key is
/// offered to the subtree under the page at `at`.
pub open spec fn cut_count(s: State, at: Node, height: nat, key: Seq<u8>) -> nat
    decreases height,
{
    if height == 0 {
        if cuts(s, at, 0, key) {
            1
        } else {
            0
        }
    } else {
        let page = s.branches[at as int];
        let child = page.child(route(page@, key));
        cut_count(s, child, (height - 1) as nat, key) + if cuts(s, at, height, key) {
            1nat
        } else {
            0nat
        }
    }
}

/// How many pages the store gained from `s` to `t`.
pub open spec fn grown(s: State, t: State) -> int {
    (t.leaves.len() - s.leaves.len()) + (t.branches.len() - s.branches.len())
}

/// The separators of a branch after it took in the cut of child `index`:
/// `node` is the new page. Where the child is a leaf it kept the lower keys
/// and the new page stands behind the separator; where it is a branch it
/// kept the upper keys and the new page stands before the separator.
pub open spec fn taken_in(
    page: SlottedBranch,
    index: int,
    sep: Seq<u8>,
    node: Node,
    leaf: bool,
) -> Seq<Entry> {
    if leaf {
        absorbed(page@, index, sep, page.child(index), node)
    } else {
        absorbed(page@, index, sep, node, page.child(index))
    }
}

/// The rightmost child of a branch after it took in the cut of child
/// `index`.
pub open spec fn taken_in_tail(page: SlottedBranch, index: int, node: Node, leaf: bool) -> Node {
    if leaf {
        absorbed_tail(page@, page.tail().unwrap(), index, node)
    } else {
        absorbed_tail(page@, page.tail().unwrap(), index, page.child(index))
    }
}

/// What an insertion makes of the branch at `at` itself and of the leaves
/// of the store: the branch stays as it was where its child was not cut;
/// where the child was cut the branch, or its two halves, hold its
/// separators with the one that came up, the two halves of the child on
/// its sides. The new half of the child is the page that the store gained
/// last before the branch took it in. The store gains a leaf exactly where
/// a leaf is cut.
pub open spec fn way_of_branch(s: State, u: State, at: Node, height: nat, key: Seq<u8>) -> bool {
    let page = s.branches[at as int];
    let i = route(page@, key);
    let child = page.child(i);
    let below = (height - 1) as nat;
    let sep = risen(s, child, below, key);
    let node = if height == 1 {
        s.leaves.len() as usize
    } else {
        (s.branches.len() + cut_count(s, child, below, key) - 2) as usize
    };
    let es = taken_in(page, i, sep, node, height == 1);
    let mid = branch_split_index(es);
    let half = (s.branches.len() + cut_count(s, at, height, key) - 2) as usize;
    &&& u.leaves.len() == s.leaves.len() + if cut_count(s, at, height, key) > 0 {
        1int
    } else {
        0int
    }
    &&& !cuts(s, child, below, key) ==> u.branches[at as int] == page
    &&& cuts(s, child, below, key) && !cuts(s, at, height, key) ==> {
        &&& u.branches[at as int]@ == es
        &&& u.branches[at as int].tail() == Some(taken_in_tail(page, i, node, height == 1))
    }
    &&& cuts(s, at, height, key) ==> {
        &&& u.branches[half as int]@ == es.take(mid)
        &&& u.branches[half as int].tail() == Some(es[mid].value)
        &&& u.branches[at as int]@ == es.skip(mid + 1)
        &&& u.branches[at as int].tail() == Some(taken_in_tail(page, i, node, height == 1))
    }
}

/// What a store holds: its pages, and for each the span and the level that
/// the tree gives it (a leaf has level 0, a branch the level of its
/// children and one), the greatest level, and the content of the leaves.
pub struct State {
    pub leaves: Seq<SlottedLeaf>,
    pub branches: Seq<SlottedBranch>,
    pub leaf_spans: Seq<Span>,
    pub branch_spans: Seq<Span>,
    pub levels: Seq<nat>,
    pub top: nat,
    pub content: Map<Seq<u8>, Node>,
}

impl State {
    /// The span of the page at this address.
    pub open spec fn span_of(self, leaf: bool, at: int) -> Span {
        if leaf {
            self.leaf_spans[at]
        } else {
            self.branch_spans[at]
        }
    }

    /// A branch of level `level` may hold `child` as the child that answers
    /// for `expected`: the address is that of a page one level below, and
    /// the span of that page is the expected one. For the pending page the
    /// expected span is the one it had before it was cut.
    pub open spec fn child_ok(
        self,
        level: nat,
        child: Node,
        expected: Span,
        exc: Option<Pending>,
    ) -> bool {
        let leaf = level == 1;
        &&& level >= 1
        &&& if leaf {
            child < self.leaves.len()
        } else {
            child < self.branches.len() && self.levels[child as int] + 1 == level
        }
        &&& expected == if exc is Some && exc.unwrap().leaf == leaf && exc.unwrap().at == child {
            exc.unwrap().span
        } else {
            self.span_of(leaf, child as int)
        }
    }

    /// Each child of a branch with these separators is held as it may be.
    pub open spec fn children_ok(
        self,
        es: Seq<Entry>,
        tail: Node,
        span: Span,
        level: nat,
        exc: Option<Pending>,
    ) -> bool {
        forall|i: int|
            0 <= i <= es.len() ==> self.child_ok(
                level,
                #[trigger] child_of(es, tail, i),
                child_span(es, span, i),
                exc,
            )
    }

    /// The sibling link of a leaf leads to the leaf whose span begins where
    /// the span of this one ends, and there is none at the upper end.
    pub open spec fn linked(self, next: Option<Node>, span: Span) -> bool {
        match next {
            Some(n) => n < self.leaves.len() && span.hi == Some(self.leaf_spans[n as int].lo),
            None => span.hi is None,
        }
    }

    /// Leaf `a` is a sorted page of short keys from its span, is linked to
    /// the leaf of the next span, and holds of its span what the content
    /// holds.
    #[verifier::opaque]
    pub open spec fn leaf_ok(self, a: int) -> bool {
        let page = self.leaves[a];
        let span = self.leaf_spans[a];
        &&& page.wf()
        &&& span.nonempty()
        &&& keys_within(page@, span)
        &&& self.linked(page.next(), span)
        &&& answers(page@, span, self.content)
    }

    /// Branch `b` is a sorted page of short separators from inside its
    /// span, and each of its children is a page one level below that
    /// answers for its part of the span.
    #[verifier::opaque]
    pub open spec fn branch_ok(self, b: int, exc: Option<Pending>) -> bool {
        let page = self.branches[b];
        let span = self.branch_spans[b];
        &&& page.wf()
        &&& 1 <= self.levels[b] <= self.top
        &&& inside(page@, span)
        &&& self.children_ok(page@, page.tail().unwrap(), span, self.levels[b], exc)
    }

    /// No two leaves answer for the same key.
    pub open spec fn leaves_apart(self) -> bool {
        forall|a: int, b: int|
            0 <= a < b < self.leaves.len() ==> (#[trigger] self.leaf_spans[a]).apart(
                #[trigger] self.leaf_spans[b],
            )
    }

    /// No two branches of one level answer for the same key.
    pub open spec fn branches_apart(self) -> bool {
        forall|a: int, b: int|
            0 <= a < b < self.branches.len() && self.levels[a] == self.levels[b] ==> (
            #[trigger] self.branch_spans[a]).apart(#[trigger] self.branch_spans[b])
    }

    /// The store is in order but for the parent of the pending page, if
    /// there is one.
    pub open spec fn inv_with(self, exc: Option<Pending>) -> bool {
        &&& self.leaf_spans.len() == self.leaves.len()
        &&& self.branch_spans.len() == self.branches.len()
        &&& self.levels.len() == self.branches.len()
        &&& forall|a: int| 0 <= a < self.leaves.len() ==> #[trigger] self.leaf_ok(a)
        &&& forall|b: int| 0 <= b < self.branches.len() ==> #[trigger] self.branch_ok(b, exc)
        &&& self.leaves_apart()
        &&& self.branches_apart()
    }

    /// The store is in order.
    pub open spec fn inv(self) -> bool {
        self.inv_with(None)
    }

    /// Whether the address is that of a page of this level.
    pub open spec fn holds(self, at: Node, level: nat) -> bool {
        if level == 0 {
            at < self.leaves.len()
        } else {
            at < self.branches.len() && self.levels[at as int] == level
        }
    }

    /// The span of the page of this level at this address.
    pub open spec fn span_at(self, at: Node, level: nat) -> Span {
        self.span_of(level == 0, at as int)
    }

    /// From `self` to `later` no page was lost, and no branch above `level`
    /// was touched.
    pub open spec fn kept_above(self, later: State, level: nat) -> bool {
        &&& self.leaves.len() <= later.leaves.len()
        &&& self.branches.len() <= later.branches.len()
        &&& self.top == later.top
        &&& forall|b: int|
            0 <= b < self.branches.len() && self.levels[b] > level ==> {
                &&& #[trigger] later.branches[b] == self.branches[b]
                &&& later.branch_spans[b] == self.branch_spans[b]
                &&& later.levels[b] == self.levels[b]
            }
    }
}

/// The pages of a tree.
pub struct PageStore {
    leaves: Vec<SlottedLeaf>,
    branches: Vec<SlottedBranch>,
    leaf_spans: Ghost<Seq<Span>>,
    branch_spans: Ghost<Seq<Span>>,
    levels: Ghost<Seq<nat>>,
    top: Ghost<nat>,
    content: Ghost<Map<Seq<u8>, Node>>,
}

impl PageStore {
    /// What the store holds.
    pub closed spec fn state(&self) -> State {
        State {
            leaves: self.leaves@,
            branches: self.branches@,
            leaf_spans: self.leaf_spans@,
            branch_spans: self.branch_spans@,
            levels: self.levels@,
            top: self.top@,
            content: self.content@,
        }
    }

    /// The store is in order.
    pub open spec fn inv(&self) -> bool {
        self.state().inv()
    }

    /// A store that holds one empty leaf, which answers for every key.
    pub fn new() -> (r: Self)
        ensures
            r.inv(),
            r.state().leaves.len() == 1,
            r.state().leaves[0]@ == Seq::<Entry>::empty(),
            r.state().branches.len() == 0,
            r.state().leaf_spans[0] == Span::all(),
            r.state().top == 0,
            r.state().all_short(),
            r.state().content == Map::<Seq<u8>, Node>::empty(),
    {
        let mut leaves: Vec<SlottedLeaf> = Vec::new();
        leaves.push(SlottedLeaf::new());
        let r = PageStore {
            leaves,
            branches: Vec::new(),
            leaf_spans: Ghost(Seq::empty().push(Span::all())),
            branch_spans: Ghost(Seq::empty()),
            levels: Ghost(Seq::empty()),
            top: Ghost(0),
            content: Ghost(Map::empty()),
        };
        proof {
            reveal(State::leaf_ok);
            let s = r.state();
            assert(s.leaf_ok(0)) by {
                lemma_upper_bound(s.leaves[0]@, Seq::empty());
                assert forall|key: Seq<u8>| Span::all().contains(key) implies #[trigger] lookup(
                    s.leaves[0]@,
                    key,
                ) == value_of(s.content, key) by {
                    lemma_upper_bound(s.leaves[0]@, key);
                }
            }
        }
        r
    }

    /// A leaf holds of its span what the content holds.
    pub proof fn lemma_leaf_answers(&self, at: Node, key: Seq<u8>)
        requires
            self.inv(),
            at < self.state().leaves.len(),
            self.state().leaf_spans[at as int].contains(key),
        ensures
            self.state().leaves[at as int].wf(),
            lookup(self.state().leaves[at as int]@, key) == value_of(self.state().content, key),
    {
        reveal(State::leaf_ok);
        assert(self.state().leaf_ok(at as int));
    }

    /// A leaf of the store is a page in order.
    pub proof fn lemma_leaf_wf(&self, at: Node)
        requires
            self.inv(),
            at < self.state().leaves.len(),
        ensures
            self.state().leaves[at as int].wf(),
    {
        reveal(State::leaf_ok);
        assert(self.state().leaf_ok(at as int));
    }

    /// A branch of the store is a page in order, and each of its children
    /// is a page of the store one level below.
    pub proof fn lemma_child_holds(&self, at: Node, height: nat, i: int)
        requires
            self.inv(),
            height >= 1,
            self.state().holds(at, height),
            0 <= i <= self.state().branches[at as int]@.len(),
        ensures
            self.state().branches[at as int].wf(),
            self.state().holds(
                self.state().branches[at as int].child(i),
                (height - 1) as nat,
            ),
    {
        reveal(State::branch_ok);
        let s = self.state();
        let page = s.branches[at as int];
        assert(s.branch_ok(at as int, None));
        assert(s.child_ok(
            s.levels[at as int],
            child_of(page@, page.tail().unwrap(), i),
            child_span(page@, s.branch_spans[at as int], i),
            None,
        ));
    }

    /// Number of leaf pages.
    pub fn leaf_count(&self) -> (n: usize)
        ensures
            n == self.state().leaves.len(),
    {
        self.leaves.len()
    }

    /// Number of branch pages.
    pub fn branch_count(&self) -> (n: usize)
        ensures
            n == self.state().branches.len(),
    {
        self.branches.len()
    }

    /// The leaf page at this address.
    pub fn leaf(&self, at: Node) -> (page: &SlottedLeaf)
        requires
            at < self.state().leaves.len(),
        ensures
            *page == self.state().leaves[at as int],
    {
        &self.leaves[at]
    }

    /// The branch page at this address.
    pub fn branch(&self, at: Node) -> (page: &SlottedBranch)
        requires
            at < self.state().branches.len(),
        ensures
            *page == self.state().branches[at as int],
    {
        &self.branches[at]
    }
}

impl SlottedLeaf {
    /// Offers the entry to the leaf at `at`. A key that the leaf holds
    /// keeps its address; a new key is entered. Where the leaf has no room
    /// it is cut: it keeps the lower entries under its address, a new leaf
    /// takes the upper ones, and the separator between them is handed back
    /// with the address of the new leaf.
    pub fn insert(pages: &mut PageStore, at: Node, key: &[u8], value: Node) -> (r:
        InsertResultIntern)
        requires
            old(pages).inv(),
            at < old(pages).state().leaves.len(),
            old(pages).state().leaf_spans[at as int].contains(key@),
            old(pages).state().leaves[at as int].accepts(key@),
        ensures
            final(pages).state().content == offered(old(pages).state().content, key@, value),
            (r is Split) == cuts(old(pages).state(), at, 0, key@),
            old(pages).state().all_short() && key@.len() <= MAX_KEY_LEN ==> final(
                pages).state().all_short(),
            r matches InsertResultIntern::Split(sep, _) ==> sep@ == risen(
                old(pages).state(),
                at,
                0,
                key@,
            ),
            grown(old(pages).state(), final(pages).state()) == cut_count(
                old(pages).state(),
                at,
                0,
                key@,
            ),
            final(pages).state().branches == old(pages).state().branches,
            final(pages).state().branch_spans == old(pages).state().branch_spans,
            final(pages).state().levels == old(pages).state().levels,
            final(pages).state().top == old(pages).state().top,
            r is Inserted <==> has_key(old(pages).state().leaves[at as int]@, key@) || footprint(
                old(pages).state().leaves[at as int]@,
            ) + key@.len() + PTR_SIZE + SLOT_SIZE <= DATA_LEN,
            forall|a: int|
                0 <= a < old(pages).state().leaves.len() && a != at ==> #[trigger] final(
                    pages).state().leaves[a] == old(pages).state().leaves[a],
            match r {
                InsertResultIntern::Inserted => {
                    &&& final(pages).inv()
                    &&& final(pages).state().leaves.len() == old(pages).state().leaves.len()
                    &&& final(pages).state().leaf_spans == old(pages).state().leaf_spans
                    &&& final(pages).state().leaves[at as int]@ == inserted(
                        old(pages).state().leaves[at as int]@,
                        entry_of(key, value),
                    )
                    &&& final(pages).state().leaves[at as int].next() == old(
                        pages).state().leaves[at as int].next()
                },
                InsertResultIntern::Split(sep, fresh) => {
                    let span = old(pages).state().leaf_spans[at as int];
                    let page = old(pages).state().leaves[at as int];
                    let es = page@.insert(upper_bound(page@, key@), entry_of(key, value));
                    &&& final(pages).state().leaves[at as int]@ == es.take(leaf_split_index(es))
                    &&& final(pages).state().leaves[fresh as int]@ == es.skip(
                        leaf_split_index(es),
                    )
                    &&& sep@ == leaf_separator(es)
                    &&& final(pages).state().leaves[at as int].next() == Some(fresh)
                    &&& final(pages).state().leaves[fresh as int].next() == page.next()
                    &&& final(pages).state().inv_with(Some(Pending { leaf: true, at, span }))
                    &&& fresh == old(pages).state().leaves.len()
                    &&& final(pages).state().leaves.len() == fresh + 1
                    &&& final(pages).state().leaf_spans == old(pages).state().leaf_spans.update(
                        at as int,
                        span.below(sep@),
                    ).push(span.from(sep@))
                    &&& span.cut_by(sep@)
                    &&& storable(sep@)
                    &&& !old(pages).state().content.contains_key(key@)
                },
                InsertResultIntern::Replaced(_) => false,
            },
    {
        let ghost s = pages.state();
        let ghost span = s.leaf_spans[at as int];
        let ghost e = entry_of(key, value);
        let fresh: Node = pages.leaves.len();
        proof {
            reveal(State::leaf_ok);
            assert(s.leaf_ok(at as int));
            let page = s.leaves[at as int];
            lemma_upper_bound(page@, key@);
            lemma_separator_of_keys(
                page@.insert(upper_bound(page@, key@), e),
                page@.insert(upper_bound(page@, key@), Entry { key: key@, value: 0 }),
            );
        }
        let cut = pages.leaves[at].offer(key, value, fresh);
        match cut {
            None => {
                pages.content = Ghost(offered(pages.content@, key@, value));
                proof {
                    lemma_leaf_updated(s, pages.state(), at as int, e);
                    if s.all_short() && key@.len() <= MAX_KEY_LEN {
                        lemma_short_after_leaf(s, pages.state(), at as int, e, false);
                    }
                }
                InsertResultIntern::Inserted
            },
            Some((separator, right)) => {
                pages.leaves.push(right);
                pages.leaf_spans = Ghost(
                    pages.leaf_spans@.update(at as int, span.below(separator@)).push(
                        span.from(separator@),
                    ),
                );
                pages.content = Ghost(pages.content@.insert(key@, value));
                proof {
                    let t = pages.state();
                    assert(t.leaves =~= s.leaves.update(at as int, t.leaves[at as int]).push(
                        t.leaves[fresh as int],
                    ));
                    lemma_leaf_cut(s, t, at as int, e, separator@, fresh);
                    if s.all_short() && key@.len() <= MAX_KEY_LEN {
                        lemma_short_after_leaf(s, t, at as int, e, true);
                    }
                }
                InsertResultIntern::Split(separator, fresh)
            },
        }
    }
}

impl SlottedBranch {
    /// Takes the cut of child `index` into the branch at `at`: the new
    /// separator enters the branch with the two halves of the child on its
    /// sides. Where the branch has no room it is cut itself: it keeps the
    /// upper entries under its address, a new branch takes the lower ones,
    /// and the middle separator is handed back with the address of the new
    /// branch.
    fn absorb(
        pages: &mut PageStore,
        at: Node,
        index: usize,
        separator: &[u8],
        node: Node,
        height: usize,
        Ghost(exc): Ghost<Pending>,
    ) -> (r: InsertResultIntern)
        requires
            height >= 1,
            old(pages).state().levels[at as int] == height,
            node != exc.at,
            old(pages).state().branches[at as int].fits(separator@) || branch_split_fits(
                old(pages).state().branches[at as int]@.insert(
                    index as int,
                    Entry { key: separator@, value: 0 },
                ),
            ),
            exc.leaf ==> ready_to_absorb(
                old(pages).state(),
                at as int,
                index as int,
                separator@,
                exc.at,
                node,
                exc,
            ),
            !exc.leaf ==> ready_to_absorb(
                old(pages).state(),
                at as int,
                index as int,
                separator@,
                node,
                exc.at,
                exc,
            ),
        ensures
            final(pages).state().content == old(pages).state().content,
            final(pages).state().leaves == old(pages).state().leaves,
            final(pages).state().leaf_spans == old(pages).state().leaf_spans,
            final(pages).state().top == old(pages).state().top,
            final(pages).state().branches.len() >= old(pages).state().branches.len(),
            r is Inserted <==> old(pages).state().branches[at as int].fits(separator@),
            old(pages).state().all_short() && separator@.len() <= MAX_KEY_LEN ==> final(
                pages).state().all_short(),
            forall|b: int|
                0 <= b < old(pages).state().branches.len() && b != at ==> {
                    &&& #[trigger] final(pages).state().branches[b] == old(pages).state().branches[b]
                    &&& final(pages).state().branch_spans[b] == old(pages).state().branch_spans[b]
                    &&& final(pages).state().levels[b] == old(pages).state().levels[b]
                },
            match r {
                InsertResultIntern::Inserted => {
                    &&& final(pages).inv()
                    &&& final(pages).state().branch_spans == old(pages).state().branch_spans
                    &&& final(pages).state().levels == old(pages).state().levels
                    &&& final(pages).state().branches.len() == old(pages).state().branches.len()
                    &&& final(pages).state().branches[at as int]@ == taken_in(
                        old(pages).state().branches[at as int],
                        index as int,
                        separator@,
                        node,
                        exc.leaf,
                    )
                    &&& final(pages).state().branches[at as int].tail() == Some(
                        taken_in_tail(
                            old(pages).state().branches[at as int],
                            index as int,
                            node,
                            exc.leaf,
                        ),
                    )
                    &&& absorbed_count(
                        old(pages).state(),
                        final(pages).state(),
                        at,
                        node,
                        height as nat,
                        None,
                    )
                },
                InsertResultIntern::Split(median, fresh) => {
                    let span = old(pages).state().branch_spans[at as int];
                    &&& absorbed_count(
                        old(pages).state(),
                        final(pages).state(),
                        at,
                        node,
                        height as nat,
                        Some(fresh),
                    )
                    &&& final(pages).state().inv_with(Some(Pending { leaf: false, at, span }))
                    &&& fresh == old(pages).state().branches.len()
                    &&& final(pages).state().branches.len() == fresh + 1
                    &&& final(pages).state().levels[fresh as int] == height
                    &&& final(pages).state().levels[at as int] == height
                    &&& final(pages).state().branch_spans[fresh as int] == span.below(median@)
                    &&& final(pages).state().branch_spans[at as int] == span.from(median@)
                    &&& span.cut_by(median@)
                    &&& storable(median@)
                    &&& ({
                        let es = taken_in(
                            old(pages).state().branches[at as int],
                            index as int,
                            separator@,
                            node,
                            exc.leaf,
                        );
                        let mid = branch_split_index(es);
                        &&& median@ == es[mid].key
                        &&& final(pages).state().branches[fresh as int]@ == es.take(mid)
                        &&& final(pages).state().branches[fresh as int].tail() == Some(
                            es[mid].value,
                        )
                        &&& final(pages).state().branches[at as int]@ == es.skip(mid + 1)
                        &&& final(pages).state().branches[at as int].tail() == Some(
                            taken_in_tail(
                                old(pages).state().branches[at as int],
                                index as int,
                                node,
                                exc.leaf,
                            ),
                        )
                    })
                },
                InsertResultIntern::Replaced(_) => false,
            },
    {
        let ghost t = pages.state();
        let ghost left = if exc.leaf {
            exc.at
        } else {
            node
        };
        let ghost right = if exc.leaf {
            node
        } else {
            exc.at
        };
        let ghost es = absorbed(t.branches[at as int]@, index as int, separator@, left, right);
        let ghost span = t.branch_spans[at as int];
        let fresh: Node = pages.branches.len();
        proof {
            let page = t.branches[at as int];
            lemma_ready(t, t, at as int, index as int, separator@, left, right, exc);
            page.lemma_accounting();
            let e = if exc.leaf {
                entry_of(separator, page.child(index as int))
            } else {
                entry_of(separator, node)
            };
            let plain = page@.insert(index as int, e);
            assert(plain.len() == es.len());
            assert forall|k: int| 0 <= k < plain.len() implies (#[trigger] plain[k]).key
                == es[k].key by {}
            lemma_same_keys(plain, es);
            let bare = page@.insert(index as int, Entry { key: separator@, value: 0 });
            assert(bare.len() == es.len());
            assert forall|k: int| 0 <= k < bare.len() implies (#[trigger] bare[k]).key
                == es[k].key by {}
            lemma_same_keys(bare, es);
            let mid = branch_split_index(es);
            assert(footprint(bare.take(mid)) == footprint(es.take(mid)));
            assert(footprint(bare.skip(mid + 1)) == footprint(es.skip(mid + 1)));
            assert(footprint(plain.take(mid)) == footprint(es.take(mid)));
            assert(footprint(plain.skip(mid + 1)) == footprint(es.skip(mid + 1)));
            if !exc.leaf {
                assert(plain =~= es);
            }
        }
        let cut = if height == 1 {
            pages.branches[at].insert_leaf_at(index, separator, node)
        } else {
            pages.branches[at].insert_at(index, separator, node)
        };
        match cut {
            None => {
                proof {
                    let u = pages.state();
                    assert(u.branches =~= t.branches.update(at as int, u.branches[at as int]));
                    lemma_absorbed(t, u, at as int, index as int, separator@, left, right, exc);
                    lemma_count_kept(t, u, at, index as int, separator@, left, right, exc, node);
                    reveal(absorbed_count);
                    if t.all_short() && separator@.len() <= MAX_KEY_LEN {
                        lemma_short_after_branch(
                            t,
                            u,
                            at as int,
                            index as int,
                            separator@,
                            left,
                            right,
                            None,
                        );
                    }
                }
                InsertResultIntern::Inserted
            },
            Some((median, left_page)) => {
                pages.branches.push(left_page);
                pages.branch_spans = Ghost(
                    pages.branch_spans@.update(at as int, span.from(median@)).push(
                        span.below(median@),
                    ),
                );
                pages.levels = Ghost(pages.levels@.push(height as nat));
                proof {
                    let u = pages.state();
                    assert(u.branches =~= t.branches.update(at as int, u.branches[at as int]).push(
                        u.branches[fresh as int],
                    ));
                    lemma_absorbed_cut(t, u, at as int, index as int, separator@, left, right, exc);
                    lemma_count_cut(
                        t,
                        u,
                        at,
                        index as int,
                        separator@,
                        left,
                        right,
                        exc,
                        node,
                        fresh,
                    );
                    reveal(absorbed_count);
                    if t.all_short() && separator@.len() <= MAX_KEY_LEN {
                        lemma_short_after_branch(
                            t,
                            u,
                            at as int,
                            index as int,
                            separator@,
                            left,
                            right,
                            Some(fresh as int),
                        );
                    }
                }
                InsertResultIntern::Split(median, fresh)
            },
        }
    }

    /// Offers the entry to the subtree under the branch at `at`, which
    /// stands `height` levels above the leaves: the entry goes down to the
    /// child that answers for its key, and where that child is cut the
    /// branch takes the cut in.
    pub fn insert(pages: &mut PageStore, at: Node, key: &[u8], value: Node, height: usize) -> (r:
        InsertResultIntern)
        requires
            old(pages).inv(),
            height >= 1,
            old(pages).state().holds(at, height as nat),
            old(pages).state().branch_spans[at as int].contains(key@),
            has_room(old(pages).state(), at, height as nat, key@),
        ensures
            final(pages).state().content == offered(old(pages).state().content, key@, value),
            (r is Split) == cuts(old(pages).state(), at, height as nat, key@),
            old(pages).state().all_short() && key@.len() <= MAX_KEY_LEN ==> final(
                pages).state().all_short(),
            r matches InsertResultIntern::Split(sep, _) ==> sep@ == risen(
                old(pages).state(),
                at,
                height as nat,
                key@,
            ),
            grown(old(pages).state(), final(pages).state()) == cut_count(
                old(pages).state(),
                at,
                height as nat,
                key@,
            ),
            way_of_branch(old(pages).state(), final(pages).state(), at, height as nat, key@),
            old(pages).state().kept_above(final(pages).state(), height as nat),
            kept_aside(old(pages).state(), final(pages).state(), key@),
            inserted_count(
                old(pages).state(),
                final(pages).state(),
                at,
                height as nat,
                match r {
                    InsertResultIntern::Split(_, fresh) => Some(fresh),
                    _ => None,
                },
            ),
            match r {
                InsertResultIntern::Inserted => {
                    &&& final(pages).inv()
                    &&& final(pages).state().holds(at, height as nat)
                    &&& final(pages).state().branch_spans[at as int] == old(
                        pages).state().branch_spans[at as int]
                },
                InsertResultIntern::Split(sep, fresh) => {
                    let span = old(pages).state().branch_spans[at as int];
                    &&& final(pages).state().inv_with(Some(Pending { leaf: false, at, span }))
                    &&& fresh == old(pages).state().branches.len() + cut_count(
                        old(pages).state(),
                        at,
                        height as nat,
                        key@,
                    ) - 2
                    &&& old(pages).state().branches.len() <= fresh
                    &&& fresh < final(pages).state().branches.len()
                    &&& final(pages).state().levels[fresh as int] == height
                    &&& final(pages).state().levels[at as int] == height
                    &&& final(pages).state().branch_spans[fresh as int] == span.below(sep@)
                    &&& final(pages).state().branch_spans[at as int] == span.from(sep@)
                    &&& span.cut_by(sep@)
                    &&& storable(sep@)
                },
                InsertResultIntern::Replaced(_) => false,
            },
        decreases height,
    {
        let ghost s = pages.state();
        proof {
            reveal(State::branch_ok);
            assert(s.branch_ok(at as int, None));
        }
        let i = pages.branches[at].get_upper_bound(key);
        proof {
            reveal(State::branch_ok);
            let page = s.branches[at as int];
            lemma_route_span(page@, s.branch_spans[at as int], key@);
            assert(s.child_ok(
                s.levels[at as int],
                child_of(page@, page.tail().unwrap(), i as int),
                child_span(page@, s.branch_spans[at as int], i as int),
                None,
            ));
        }
        let ptr = pages.branches[at].child_at(i);
        proof {
            assert(has_room(s, ptr, (height - 1) as nat, key@));
            if s.all_short() && key@.len() <= MAX_KEY_LEN {
                s.lemma_short_room(ptr, (height - 1) as nat, key@);
            }
            assert(cuts(s, at, height as nat, key@) == (cuts(s, ptr, (height - 1) as nat, key@)
                && !s.branches[at as int].fits(risen(s, ptr, (height - 1) as nat, key@))));
        }
        let ghost exc = Pending {
            leaf: height == 1,
            at: ptr,
            span: s.span_at(ptr, (height - 1) as nat),
        };
        let res = if height == 1 {
            SlottedLeaf::insert(pages, ptr, key, value)
        } else {
            SlottedBranch::insert(pages, ptr, key, value, height - 1)
        };
        match res {
            InsertResultIntern::Split(separator, node) => {
                let ghost t = pages.state();
                proof {
                    assert(t.branches[at as int] == s.branches[at as int]);
                }
                let r = Self::absorb(pages, at, i, separator.as_slice(), node, height, Ghost(exc));
                proof {
                    lemma_kept(s, t, pages.state(), at as int, height as nat);
                    lemma_insert_count(
                        s,
                        t,
                        pages.state(),
                        at,
                        height as nat,
                        key@,
                        Some(node),
                        match r {
                            InsertResultIntern::Split(_, fresh) => Some(fresh),
                            _ => None,
                        },
                    );
                }
                r
            },
            other => {
                proof {
                    lemma_kept_more(s, pages.state(), (height - 1) as nat);
                    lemma_insert_count(
                        s,
                        pages.state(),
                        pages.state(),
                        at,
                        height as nat,
                        key@,
                        None,
                        None,
                    );
                }
                other
            },
        }
    }

    /// The address stored under the key in the subtree under the branch at
    /// `at`, which stands `height` levels above the leaves.
    pub fn get(pages: &PageStore, at: Node, key: &[u8], height: usize) -> (r: Option<Node>)
        requires
            pages.inv(),
            height >= 1,
            pages.state().holds(at, height as nat),
            pages.state().branch_spans[at as int].contains(key@),
        ensures
            r == value_of(pages.state().content, key@),
        decreases height,
    {
        let ghost s = pages.state();
        let page = &pages.branches[at];
        proof {
            reveal(State::branch_ok);
            reveal(State::leaf_ok);
            assert(s.branch_ok(at as int, None));
            lemma_route_span(page@, s.branch_spans[at as int], key@);
        }
        let index = page.get_upper_bound(key);
        let child = page.child_at(index);
        proof {
            assert(s.child_ok(
                s.levels[at as int],
                child_of(page@, page.tail().unwrap(), index as int),
                child_span(page@, s.branch_spans[at as int], index as int),
                None,
            ));
            if height == 1 {
                assert(s.leaf_ok(child as int));
            }
        }
        if height == 1 {
            pages.leaves[child].get(key)
        } else {
            SlottedBranch::get(pages, child, key, height - 1)
        }
    }
}

impl PageStore {
    /// Sets a new root above the two halves of the old root, which was cut,
    /// and returns its address.
    pub(crate) fn grow(
        &mut self,
        left: Node,
        right: Node,
        separator: &[u8],
        Ghost(exc): Ghost<Pending>,
    ) -> (root: Node)
        requires
            old(self).state().inv_with(Some(exc)),
            exc.span == Span::all(),
            exc.leaf == (old(self).state().top == 0),
            Span::all().cut_by(separator@),
            storable(separator@),
            old(self).state().holds(left, old(self).state().top),
            old(self).state().holds(right, old(self).state().top),
            old(self).state().span_at(left, old(self).state().top) == Span::all().below(
                separator@,
            ),
            old(self).state().span_at(right, old(self).state().top) == Span::all().from(
                separator@,
            ),
        ensures
            final(self).inv(),
            root == old(self).state().branches.len(),
            root < usize::MAX,
            final(self).state().branches.len() == root + 1,
            final(self).state().top == old(self).state().top + 1,
            final(self).state().holds(root, final(self).state().top),
            final(self).state().branch_spans[root as int] == Span::all(),
            final(self).state().content == old(self).state().content,
            final(self).state().leaves == old(self).state().leaves,
            final(self).state().branches[root as int]@ == seq![entry_of(separator, left)],
            final(self).state().branches[root as int].tail() == Some(right),
            old(self).state().all_short() && separator@.len() <= MAX_KEY_LEN ==> final(
                self).state().all_short(),
            pages_under(final(self).state(), root, final(self).state().top) == 1 + pages_under(
                old(self).state(),
                left,
                old(self).state().top,
            ) + pages_under(old(self).state(), right, old(self).state().top),
    {
        let ghost t = self.state();
        self.branches.push(SlottedBranch::new(left, right, separator));
        let root: Node = self.branches.len() - 1;
        self.branch_spans = Ghost(self.branch_spans@.push(Span::all()));
        self.levels = Ghost(self.levels@.push(self.top@ + 1));
        self.top = Ghost(self.top@ + 1);
        proof {
            let u = self.state();
            assert(u.branches =~= t.branches.push(u.branches[root as int]));
            lemma_grown(t, u, separator@, left, right, exc);
            let es = u.branches[root as int]@;
            assert(kids_pages(u, es, right, t.top, 2) == kids_pages(u, es, right, t.top, 1)
                + pages_under(u, child_of(es, right, 1), t.top));
            assert(kids_pages(u, es, right, t.top, 1) == kids_pages(u, es, right, t.top, 0)
                + pages_under(u, child_of(es, right, 0), t.top));
            t.lemma_count_below(u, left, t.top, Some(exc));
            t.lemma_count_below(u, right, t.top, Some(exc));
        }
        root
    }
}

} // verus!
