//! The tree shell: root address and height over a store of pages.

use vstd::prelude::*;
use crate::census::{inserted_count, kids_pages, pages_under};
use crate::flex::{Entry, lemma_payload_bounds};
use crate::laws::{balanced, lemma_offered, lemma_offered_twice};
use crate::pages::{
    PageStore,
    Pending,
    child_of,
    cut_count,
    cuts,
    has_room,
    offered,
    risen,
    storable,
    value_of,
};
use crate::probe::leaf_room;
use crate::room::MAX_KEY_LEN;
use crate::slotted_branch::SlottedBranch;
use crate::slotted_leaf::SlottedLeaf;
use crate::span::Span;

verus! {

/// An opaque machine address: a stored value, or the address of a page.
pub type Node = usize;

/// How an insertion into a page ended.
#[derive(Debug, PartialEq)]
pub enum InsertResultIntern {
    /// The entry is in the page, or its key was there already.
    Inserted,
    /// The page was cut in two: the separator between the halves, and the
    /// address of the new page.
    Split(Vec<u8>, Node),
    /// The key was there and its address was replaced by the new one.
    Replaced(Node),
}

impl InsertResultIntern {
    /// The result as the tree hands it out. A cut never leaves the tree.
    pub fn into(self) -> (r: InsertResult)
        requires
            !(self is Split),
        ensures
            self matches InsertResultIntern::Inserted ==> r is Inserted,
            self matches InsertResultIntern::Replaced(e) ==> r == InsertResult::Replaced(e),
    {
        match self {
            InsertResultIntern::Replaced(e) => InsertResult::Replaced(e),
            _ => InsertResult::Inserted,
        }
    }
}

/// How an insertion into the tree ended.
#[derive(Debug)]
pub enum InsertResult {
    Inserted,
    Replaced(Node),
}

/// The number as a `usize`, or `usize::MAX` where it is greater.
pub open spec fn saturated(n: nat) -> usize {
    if n > usize::MAX {
        usize::MAX
    } else {
        n as usize
    }
}

/// A B+ tree from byte keys to addresses.
pub struct BTree {
    height: usize,
    root: Node,
    pages: PageStore,
}

impl BTree {
    /// What the tree holds: each key with the address stored under it.
    pub closed spec fn view(&self) -> Map<Seq<u8>, Node> {
        self.pages.state().content
    }

    /// Number of branches between the root and any leaf.
    pub closed spec fn spec_height(&self) -> nat {
        self.height as nat
    }

    /// The pages are in order, and the root is the page of the greatest
    /// level and answers for every key.
    pub closed spec fn wf(&self) -> bool {
        let s = self.pages.state();
        &&& s.inv()
        &&& s.top == self.height
        &&& s.top <= s.branches.len()
        &&& s.holds(self.root, self.height as nat)
        &&& s.span_at(self.root, self.height as nat) == Span::all()
        &&& pages_under(s, self.root, self.height as nat) == s.leaves.len() + s.branches.len()
    }

    /// An empty tree: one empty leaf as root.
    pub fn new() -> (r: Self)
        ensures
            r.wf(),
            r@ == Map::<Seq<u8>, Node>::empty(),
            r.spec_height() == 0,
            r.page_count() == 1,
            r.short(),
            forall|key: Seq<u8>| storable(key) ==> #[trigger] r.has_room(key),
    {
        let r = Self { height: 0, root: 0, pages: PageStore::new() };
        proof {
            assert forall|key: Seq<u8>| storable(key) implies #[trigger] r.has_room(key) by {
                assert(has_room(r.pages.state(), 0, 0, key) == r.pages.state().leaves[0].accepts(
                    key,
                ));
            }
        }
        r
    }

    /// Sets a branch above the root leaf, which was cut and kept the lower
    /// keys, and the new leaf `right`.
    fn grow_leaf(&mut self, separator: &[u8], right: Node)
        requires
            old(self).spec_height() == 0,
            old(self).ready_to_grow(separator@, None, Some(right)),
        ensures
            final(self).wf(),
            final(self)@ == old(self)@,
            final(self).spec_height() == old(self).spec_height() + 1,
            final(self).page_count() == old(self).page_count() + 1,
            old(self).short() && separator@.len() <= MAX_KEY_LEN ==> final(self).short(),
            final(self).spec_root() == old(self).store().state().branches.len(),
            final(self).store().state().branches.len() == old(
                self).store().state().branches.len() + 1,
            final(self).store().state().branches[final(self).spec_root() as int]@ == seq![
                Entry { key: separator@, value: old(self).spec_root() },
            ],
            final(self).store().state().branches[final(self).spec_root() as int].tail() == Some(
                right,
            ),
    {
        let ghost exc = Pending { leaf: true, at: self.root, span: Span::all() };
        let new_root = self.pages.grow(self.root, right, separator, Ghost(exc));
        self.root = new_root;
        self.height += 1;
    }

    /// Sets a branch above the new branch `left` and the root branch, which
    /// was cut and kept the upper keys.
    fn grow_branch(&mut self, separator: &[u8], left: Node)
        requires
            old(self).spec_height() >= 1,
            old(self).ready_to_grow(separator@, Some(left), None),
        ensures
            final(self).wf(),
            final(self)@ == old(self)@,
            final(self).spec_height() == old(self).spec_height() + 1,
            final(self).page_count() == old(self).page_count() + 1,
            old(self).short() && separator@.len() <= MAX_KEY_LEN ==> final(self).short(),
            final(self).spec_root() == old(self).store().state().branches.len(),
            final(self).store().state().branches.len() == old(
                self).store().state().branches.len() + 1,
            final(self).store().state().branches[final(self).spec_root() as int]@ == seq![
                Entry { key: separator@, value: left },
            ],
            final(self).store().state().branches[final(self).spec_root() as int].tail() == Some(
                old(self).spec_root(),
            ),
    {
        let ghost exc = Pending { leaf: false, at: self.root, span: Span::all() };
        let new_root = self.pages.grow(left, self.root, separator, Ghost(exc));
        self.root = new_root;
        self.height += 1;
    }

    /// The root was cut at `sep` into two pages and nothing stands above
    /// them yet. One of the two is still the root, the other is the new
    /// page given as `left` or as `right`.
    pub closed spec fn ready_to_grow(
        &self,
        sep: Seq<u8>,
        new_left: Option<Node>,
        new_right: Option<Node>,
    ) -> bool {
        let s = self.pages.state();
        let left = if new_left is Some {
            new_left.unwrap()
        } else {
            self.root
        };
        let right = if new_right is Some {
            new_right.unwrap()
        } else {
            self.root
        };
        &&& s.inv_with(
            Some(Pending { leaf: self.height == 0, at: self.root, span: Span::all() }),
        )
        &&& s.top == self.height
        &&& s.top <= s.branches.len()
        &&& Span::all().cut_by(sep)
        &&& storable(sep)
        &&& s.holds(left, s.top)
        &&& s.holds(right, s.top)
        &&& s.span_at(left, s.top) == Span::all().below(sep)
        &&& s.span_at(right, s.top) == Span::all().from(sep)
        &&& pages_under(s, left, s.top) + pages_under(s, right, s.top) == s.leaves.len()
            + s.branches.len()
    }

    /// The pages on the way of the key have the room that its insertion
    /// needs.
    pub open spec fn has_room(&self, key: Seq<u8>) -> bool {
        has_room(self.store().state(), self.spec_root(), self.spec_height(), key)
    }

    /// No key of the tree, and no separator, is longer than `MAX_KEY_LEN`.
    pub open spec fn short(&self) -> bool {
        self.store().state().all_short()
    }

    /// A tree of short keys has room for every short key.
    pub proof fn lemma_short_room(&self, key: Seq<u8>)
        requires
            self.wf(),
            self.short(),
            key.len() <= MAX_KEY_LEN,
        ensures
            self.has_room(key),
    {
        self.pages.state().lemma_short_room(self.root, self.height as nat, key);
    }

    /// A key that the tree holds is inserted again without a cut: the tree
    /// has the room for it, and neither its height nor the number of its
    /// pages changes.
    pub proof fn lemma_held_key(&self, key: Seq<u8>)
        requires
            self.wf(),
            self@.contains_key(key),
        ensures
            self.has_room(key),
            !self.root_cut(key),
            self.cut_count(key) == 0,
    {
        self.pages.state().lemma_held_key(self.root, self.height as nat, key);
    }

    /// Whether the root is cut when the key is inserted.
    pub open spec fn root_cut(&self, key: Seq<u8>) -> bool {
        cuts(self.store().state(), self.spec_root(), self.spec_height(), key)
    }

    /// Number of pages that are cut when the key is inserted.
    pub open spec fn cut_count(&self, key: Seq<u8>) -> nat {
        cut_count(self.store().state(), self.spec_root(), self.spec_height(), key)
    }

    /// Number of pages of the tree.
    pub open spec fn page_count(&self) -> nat {
        self.store().state().leaves.len() + self.store().state().branches.len()
    }

    /// The root of `self` is a new branch that holds one separator, the one
    /// that went up from the root of `before` when the key was inserted,
    /// between the two halves of that root: where the old root is a leaf it
    /// stands on the left and the new leaf on the right, where it is a
    /// branch the new branch stands on the left and it on the right.
    pub open spec fn root_over(&self, before: &BTree, key: Seq<u8>) -> bool {
        let s = before.store().state();
        let u = self.store().state();
        let root = u.branches[self.spec_root() as int];
        let sep = risen(s, before.spec_root(), before.spec_height(), key);
        &&& self.spec_root() == u.branches.len() - 1
        &&& root.tail() is Some
        &&& if before.spec_height() == 0 {
            &&& root@ == seq![Entry { key: sep, value: before.spec_root() }]
            &&& root.tail().unwrap() == s.leaves.len()
        } else {
            &&& root@ == seq![
                Entry {
                    key: sep,
                    value: (s.branches.len() + before.cut_count(key) - 2) as usize,
                },
            ]
            &&& root.tail().unwrap() == before.spec_root()
        }
    }

    /// Stores `value` under `key`, unless the tree holds the key already:
    /// then the address stored under it stays. Every page on the way of the
    /// key that has no room is cut, and where the root is cut a new root is
    /// set above its halves.
    pub fn insert(&mut self, key: &[u8], value: Node) -> (r: InsertResult)
        requires
            old(self).wf(),
            old(self).has_room(key@),
        ensures
            final(self).wf(),
            final(self)@ == offered(old(self)@, key@, value),
            r is Inserted,
            final(self).spec_height() == old(self).spec_height() + if old(self).root_cut(key@) {
                1nat
            } else {
                0nat
            },
            final(self).page_count() == old(self).page_count() + old(self).cut_count(key@)
                + if old(self).root_cut(key@) {
                1nat
            } else {
                0nat
            },
            !old(self).root_cut(key@) ==> final(self).spec_root() == old(self).spec_root(),
            old(self).root_cut(key@) ==> final(self).root_over(old(self), key@),
            old(self).short() && key@.len() <= MAX_KEY_LEN ==> final(self).short(),
    {
        proof {
            if self.short() && key@.len() <= MAX_KEY_LEN {
                self.pages.state().lemma_short_room(self.root, self.height as nat, key@);
            }
        }
        let ghost s = self.pages.state();
        if self.height == 0 {
            let res = SlottedLeaf::insert(&mut self.pages, self.root, key, value);
            proof {
                reveal(inserted_count);
            }
            match res {
                InsertResultIntern::Split(separator, node) => {
                    self.grow_leaf(separator.as_slice(), node);
                    InsertResult::Inserted
                },
                other => other.into(),
            }
        } else {
            let res = SlottedBranch::insert(&mut self.pages, self.root, key, value, self.height);
            proof {
                reveal(inserted_count);
            }
            match res {
                InsertResultIntern::Split(separator, node) => {
                    self.grow_branch(separator.as_slice(), node);
                    InsertResult::Inserted
                },
                other => other.into(),
            }
        }
    }

    /// Whether the pages on the way of the key have the room that its
    /// insertion needs. No page is changed.
    pub fn can_insert(&self, key: &[u8]) -> (ok: bool)
        requires
            self.wf(),
        ensures
            ok == self.has_room(key@),
    {
        if self.height == 0 {
            proof {
                self.pages.lemma_leaf_wf(self.root);
                assert(self.has_room(key@) == self.pages.state().leaves[self.root as int].accepts(
                    key@,
                ));
            }
            leaf_room(self.pages.leaf(self.root), key).ok
        } else {
            SlottedBranch::room(&self.pages, self.root, key, self.height).ok
        }
    }

    /// As `insert`, for any key: where the pages on the way of the key have
    /// not the room that its insertion needs, nothing is stored and the
    /// tree stays as it is.
    pub fn try_insert(&mut self, key: &[u8], value: Node) -> (r: Option<InsertResult>)
        requires
            old(self).wf(),
        ensures
            final(self).wf(),
            r is Some <==> old(self).has_room(key@),
            r is None ==> *final(self) == *old(self),
            r matches Some(done) ==> {
                &&& done is Inserted
                &&& final(self)@ == offered(old(self)@, key@, value)
                &&& final(self).spec_height() == old(self).spec_height() + if old(self).root_cut(
                    key@,
                ) {
                    1nat
                } else {
                    0nat
                }
                &&& final(self).page_count() == old(self).page_count() + old(self).cut_count(key@)
                    + if old(self).root_cut(key@) {
                    1nat
                } else {
                    0nat
                }
                &&& !old(self).root_cut(key@) ==> final(self).spec_root() == old(self).spec_root()
                &&& old(self).root_cut(key@) ==> final(self).root_over(old(self), key@)
                &&& old(self).short() && key@.len() <= MAX_KEY_LEN ==> final(self).short()
            },
    {
        if !self.can_insert(key) {
            return None;
        }
        Some(self.insert(key, value))
    }

    /// The address stored under `key`, if the tree holds the key.
    pub fn get(&self, key: &[u8]) -> (r: Option<Node>)
        requires
            self.wf(),
        ensures
            r == value_of(self@, key@),
    {
        if self.height == 0 {
            proof {
                self.pages.lemma_leaf_answers(self.root, key@);
            }
            self.pages.leaf(self.root).get(key)
        } else {
            SlottedBranch::get(&self.pages, self.root, key, self.height)
        }
    }

    /// Every page of the store is a page of the tree, and is met once on the
    /// way down from the root.
    pub proof fn lemma_every_page_counts(&self)
        requires
            self.wf(),
        ensures
            pages_under(self.store().state(), self.spec_root(), self.spec_height())
                == self.store().state().leaves.len() + self.store().state().branches.len(),
    {
    }

    /// The pages of the tree.
    pub closed spec fn store(&self) -> PageStore {
        self.pages
    }

    /// Address of the root page.
    pub closed spec fn spec_root(&self) -> Node {
        self.root
    }

    /// In a tree that is in order the store is in order and holds the root
    /// as the page of the level that is the height.
    pub proof fn lemma_wf(&self)
        requires
            self.wf(),
        ensures
            self.store().inv(),
            self.store().state().holds(self.spec_root(), self.spec_height()),
            self.store().state().span_at(self.spec_root(), self.spec_height()) == Span::all(),
            self.store().state().top == self.spec_height(),
            self.store().state().content == self@,
    {
    }

    /// The tree is balanced: every way down from the root passes as many
    /// branches as the height says and ends at a leaf.
    pub proof fn lemma_balanced(&self)
        requires
            self.wf(),
        ensures
            balanced(self.store().state(), self.spec_root(), self.spec_height()),
    {
        self.pages.state().lemma_balanced(self.root, self.height as nat, None);
    }

    /// After `insert(key, value)` the tree holds `key`: with `value`, or,
    /// where it held the key before, with the address that it held. Every
    /// other key is held as before.
    pub proof fn lemma_insert_then_get(&self, after: &BTree, key: Seq<u8>, value: Node, other: Seq<u8>)
        requires
            after@ == offered(self@, key, value),
        ensures
            !self@.contains_key(key) ==> value_of(after@, key) == Some(value),
            self@.contains_key(key) ==> value_of(after@, key) == value_of(self@, key),
            other != key ==> value_of(after@, other) == value_of(self@, other),
    {
        lemma_offered(self@, key, value, other);
    }

    /// A second `insert` of a key leaves the tree as the first one left
    /// it, whatever address comes with it: one entry, with the first address.
    pub proof fn lemma_insert_twice(
        &self,
        once: &BTree,
        twice: &BTree,
        key: Seq<u8>,
        first: Node,
        second: Node,
    )
        requires
            once@ == offered(self@, key, first),
            twice@ == offered(once@, key, second),
        ensures
            twice@ == once@,
            twice@.dom() == self@.dom().insert(key),
            value_of(twice@, key) == value_of(once@, key),
    {
        lemma_offered_twice(self@, key, first, second);
    }

    /// The pages of the tree.
    pub fn pages(&self) -> (pages: &PageStore)
        ensures
            *pages == self.store(),
    {
        &self.pages
    }

    /// Address of the root page: that of a leaf where the height is 0,
    /// else that of a branch.
    pub fn root(&self) -> (root: Node)
        ensures
            root == self.spec_root(),
    {
        self.root
    }

    /// Number of pages in the subtree under the branch at `at`, which
    /// stands `height` levels above the leaves; `usize::MAX` where that
    /// number is greater.
    pub fn count_branch(pages: &PageStore, at: Node, height: usize) -> (n: usize)
        requires
            pages.inv(),
            height >= 1,
            pages.state().holds(at, height as nat),
        ensures
            n == saturated(pages_under(pages.state(), at, height as nat)),
        decreases height,
    {
        let ghost s = pages.state();
        proof {
            pages.lemma_child_holds(at, height as nat, 0);
        }
        let branch = pages.branch(at);
        let size: usize = branch.size();
        proof {
            branch.lemma_accounting();
            lemma_payload_bounds(branch@);
        }
        let mut cnt: usize = 1;
        let mut index: usize = 0;
        while index <= size
            invariant
                index <= size + 1,
                size == branch@.len(),
                size < usize::MAX,
                s == pages.state(),
                *branch == s.branches[at as int],
                pages.inv(),
                height >= 1,
                s.holds(at, height as nat),
                cnt == saturated(
                    1 + kids_pages(
                        s,
                        branch@,
                        branch.tail().unwrap(),
                        (height - 1) as nat,
                        index as nat,
                    ),
                ),
            decreases size + 1 - index,
        {
            proof {
                pages.lemma_child_holds(at, height as nat, index as int);
            }
            let child = branch.child_at(index);
            let under: usize = if height == 1 {
                1
            } else {
                Self::count_branch(pages, child, height - 1)
            };
            proof {
                let below = (height - 1) as nat;
                let tail = branch.tail().unwrap();
                assert(kids_pages(s, branch@, tail, below, (index + 1) as nat) == kids_pages(
                    s,
                    branch@,
                    tail,
                    below,
                    index as nat,
                ) + pages_under(s, child_of(branch@, tail, index as int), below));
                assert(child == child_of(branch@, tail, index as int));
            }
            cnt = cnt.saturating_add(under);
            index += 1;
        }
        cnt
    }

    /// Number of pages of the tree; `usize::MAX` where that number is
    /// greater.
    pub fn count_nodes(&self) -> (n: usize)
        requires
            self.wf(),
        ensures
            n == saturated(
                pages_under(self.store().state(), self.spec_root(), self.spec_height()),
            ),
            n == saturated(
                self.store().state().leaves.len() + self.store().state().branches.len(),
            ),
    {
        if self.height == 0 {
            return 1;
        }
        Self::count_branch(&self.pages, self.root, self.height)
    }

    /// Number of branches between the root and any leaf.
    pub fn get_height(&self) -> (h: usize)
        ensures
            h == self.spec_height(),
    {
        self.height
    }
}

} // verus!
