//! The number of pages under a page, and why an insertion adds to it
//! exactly the pages that the store gains.

use vstd::prelude::*;
use crate::btree::Node;
use crate::flex::Entry;
use crate::pages::{Pending, State, child_of, child_span, grown};
use crate::slotted_branch::{branch_split_index, lemma_route, route};
use crate::upkeep::{
    absorbed,
    absorbed_tail,
    lemma_child_within,
    lemma_children_apart,
    lemma_route_span,
    ready_to_absorb,
};

verus! {

/// Number of pages in the subtree under the page at `at`, which stands
/// `height` levels above the leaves: the page itself and the pages under
/// each of its children.
pub open spec fn pages_under(s: State, at: Node, height: nat) -> nat
    decreases height, 0nat,
{
    if height == 0 {
        1
    } else {
        1 + kids_pages(
            s,
            s.branches[at as int]@,
            s.branches[at as int].tail().unwrap(),
            (height - 1) as nat,
            s.branches[at as int]@.len() + 1,
        )
    }
}

/// Number of pages under the first `n` children of a branch with these
/// separators and this rightmost child, each child standing `below` levels
/// above the leaves.
pub open spec fn kids_pages(s: State, es: Seq<Entry>, tail: Node, below: nat, n: nat) -> nat
    decreases below, n + 1,
{
    if n == 0 {
        0
    } else {
        kids_pages(s, es, tail, below, (n - 1) as nat) + pages_under(
            s,
            child_of(es, tail, n - 1),
            below,
        )
    }
}

/// From `s` to `t` no branch was touched whose span does not hold the key.
pub open spec fn kept_aside(s: State, t: State, key: Seq<u8>) -> bool {
    &&& s.branches.len() <= t.branches.len()
    &&& forall|x: int|
        0 <= x < s.branches.len() && !s.branch_spans[x].contains(key) ==> #[trigger] t.branches[x]
            == s.branches[x]
}

/// From `t` to `u` no branch of a level up to `level` was touched.
pub open spec fn kept_below(t: State, u: State, level: nat) -> bool {
    &&& t.branches.len() <= u.branches.len()
    &&& forall|x: int|
        0 <= x < t.branches.len() && t.levels[x] <= level ==> #[trigger] u.branches[x]
            == t.branches[x]
}

impl State {
    /// A child of a branch of a store that is in order but for a pending
    /// page is a page one level below.
    pub proof fn lemma_child_level(self, at: Node, height: nat, i: int, exc: Option<Pending>)
        requires
            self.inv_with(exc),
            height >= 1,
            self.holds(at, height),
            0 <= i <= self.branches[at as int]@.len(),
        ensures
            self.holds(
                child_of(
                    self.branches[at as int]@,
                    self.branches[at as int].tail().unwrap(),
                    i,
                ),
                (height - 1) as nat,
            ),
    {
        reveal(State::branch_ok);
        let page = self.branches[at as int];
        assert(self.branch_ok(at as int, exc));
        assert(self.child_ok(
            self.levels[at as int],
            child_of(page@, page.tail().unwrap(), i),
            child_span(page@, self.branch_spans[at as int], i),
            exc,
        ));
    }

    /// A subtree none of whose branches was touched holds as many pages as
    /// before.
    pub proof fn lemma_count_below(self, u: State, at: Node, height: nat, exc: Option<Pending>)
        requires
            self.inv_with(exc),
            self.holds(at, height),
            kept_below(self, u, height),
        ensures
            pages_under(u, at, height) == pages_under(self, at, height),
        decreases height, 0nat,
    {
        if height > 0 {
            assert(u.branches[at as int] == self.branches[at as int]);
            self.lemma_kids_below(u, at, height, self.branches[at as int]@.len() + 1, exc);
        }
    }

    /// The first `n` children of a branch, where no branch below it was
    /// touched, hold as many pages as before.
    pub proof fn lemma_kids_below(self, u: State, at: Node, height: nat, n: nat, exc: Option<Pending>)
        requires
            self.inv_with(exc),
            height >= 1,
            self.holds(at, height),
            n <= self.branches[at as int]@.len() + 1,
            kept_below(self, u, (height - 1) as nat),
        ensures
            kids_pages(
                u,
                self.branches[at as int]@,
                self.branches[at as int].tail().unwrap(),
                (height - 1) as nat,
                n,
            ) == kids_pages(
                self,
                self.branches[at as int]@,
                self.branches[at as int].tail().unwrap(),
                (height - 1) as nat,
                n,
            ),
        decreases height - 1, n + 1,
    {
        if n > 0 {
            let page = self.branches[at as int];
            self.lemma_kids_below(u, at, height, (n - 1) as nat, exc);
            self.lemma_child_level(at, height, n - 1, exc);
            self.lemma_count_below(
                u,
                child_of(page@, page.tail().unwrap(), n - 1),
                (height - 1) as nat,
                exc,
            );
        }
    }

    /// A subtree whose span does not hold the key holds as many pages as
    /// before, where only branches whose span holds the key were touched.
    pub proof fn lemma_count_aside(self, t: State, at: Node, height: nat, key: Seq<u8>)
        requires
            self.inv(),
            self.holds(at, height),
            !self.span_at(at, height).contains(key),
            kept_aside(self, t, key),
        ensures
            pages_under(t, at, height) == pages_under(self, at, height),
        decreases height, 0nat,
    {
        if height > 0 {
            assert(t.branches[at as int] == self.branches[at as int]);
            self.lemma_kids_aside(t, at, height, self.branches[at as int]@.len() + 1, key);
        }
    }

    /// The first `n` children of a branch whose span does not hold the key
    /// hold as many pages as before.
    pub proof fn lemma_kids_aside(self, t: State, at: Node, height: nat, n: nat, key: Seq<u8>)
        requires
            self.inv(),
            height >= 1,
            self.holds(at, height),
            !self.span_at(at, height).contains(key),
            n <= self.branches[at as int]@.len() + 1,
            kept_aside(self, t, key),
        ensures
            kids_pages(
                t,
                self.branches[at as int]@,
                self.branches[at as int].tail().unwrap(),
                (height - 1) as nat,
                n,
            ) == kids_pages(
                self,
                self.branches[at as int]@,
                self.branches[at as int].tail().unwrap(),
                (height - 1) as nat,
                n,
            ),
        decreases height - 1, n + 1,
    {
        if n > 0 {
            let page = self.branches[at as int];
            let span = self.branch_spans[at as int];
            self.lemma_kids_aside(t, at, height, (n - 1) as nat, key);
            self.lemma_child(at, height, n - 1);
            lemma_child_within(page@, span, n - 1);
            let part = child_span(page@, span, n - 1);
            if part.contains(key) {
                part.lemma_within(span, key);
            }
            self.lemma_count_aside(t, page.child(n - 1), (height - 1) as nat, key);
        }
    }

    /// The first `n` children of a branch hold as many pages as before but
    /// for the child that the key belongs to.
    pub proof fn lemma_kids_but_one(self, t: State, at: Node, height: nat, n: nat, key: Seq<u8>)
        requires
            self.inv(),
            height >= 1,
            self.holds(at, height),
            self.span_at(at, height).contains(key),
            n <= self.branches[at as int]@.len() + 1,
            kept_aside(self, t, key),
        ensures
            ({
                let page = self.branches[at as int];
                let i = route(page@, key);
                let child = page.child(i);
                let below = (height - 1) as nat;
                kids_pages(t, page@, page.tail().unwrap(), below, n) == kids_pages(
                    self,
                    page@,
                    page.tail().unwrap(),
                    below,
                    n,
                ) + if i < n {
                    pages_under(t, child, below) - pages_under(self, child, below)
                } else {
                    0
                }
            }),
        decreases n,
    {
        lemma_route(self.branches[at as int]@, key);
        if n > 0 {
            let page = self.branches[at as int];
            let span = self.branch_spans[at as int];
            let i = route(page@, key);
            self.lemma_kids_but_one(t, at, height, (n - 1) as nat, key);
            self.lemma_child(at, height, n - 1);
            lemma_route_span(page@, span, key);
            let tail = page.tail().unwrap();
            let below = (height - 1) as nat;
            assert(kids_pages(t, page@, tail, below, n) == kids_pages(
                t,
                page@,
                tail,
                below,
                (n - 1) as nat,
            ) + pages_under(t, child_of(page@, tail, n - 1), below));
            assert(kids_pages(self, page@, tail, below, n) == kids_pages(
                self,
                page@,
                tail,
                below,
                (n - 1) as nat,
            ) + pages_under(self, child_of(page@, tail, n - 1), below));
            assert(page.child(n - 1) == child_of(page@, tail, n - 1));
            assert(page.child(i) == child_of(page@, tail, i));
            if n - 1 != i {
                if n - 1 < i {
                    lemma_children_apart(page@, span, n - 1, i);
                } else {
                    lemma_children_apart(page@, span, i, n - 1);
                }
                child_span(page@, span, i).lemma_apart(child_span(page@, span, n - 1), key);
                self.lemma_count_aside(t, page.child(n - 1), (height - 1) as nat, key);
            }
        }
    }
}

/// The children of a branch that took in the cut of its child `i` hold the
/// pages that its children held and those under the two halves in place
/// of those under the child.
pub proof fn lemma_kids_absorbed(
    t: State,
    es: Seq<Entry>,
    tail: Node,
    below: nat,
    i: int,
    sep: Seq<u8>,
    left: Node,
    right: Node,
    n: nat,
)
    requires
        0 <= i <= es.len(),
        n <= es.len() + 2,
    ensures
        kids_pages(
            t,
            absorbed(es, i, sep, left, right),
            absorbed_tail(es, tail, i, right),
            below,
            n,
        ) as int == if n <= i {
            kids_pages(t, es, tail, below, n) as int
        } else if n == i + 1 {
            (kids_pages(t, es, tail, below, i as nat) + pages_under(t, left, below)) as int
        } else {
            kids_pages(t, es, tail, below, (n - 1) as nat) - pages_under(
                t,
                child_of(es, tail, i),
                below,
            ) + pages_under(t, left, below) + pages_under(t, right, below)
        },
    decreases n,
{
    let out = absorbed(es, i, sep, left, right);
    let out_tail = absorbed_tail(es, tail, i, right);
    if n > 0 {
        lemma_kids_absorbed(t, es, tail, below, i, sep, left, right, (n - 1) as nat);
        let k = n - 1;
        if k < i {
            assert(child_of(out, out_tail, k) == child_of(es, tail, k));
        } else if k == i {
            assert(child_of(out, out_tail, k) == left);
        } else if k == i + 1 {
            assert(child_of(out, out_tail, k) == right);
        } else {
            assert(child_of(out, out_tail, k) == child_of(es, tail, k - 1));
        }
    }
}

/// The children of the left half of a branch that is cut are the first
/// children of the branch.
pub proof fn lemma_kids_left(t: State, es: Seq<Entry>, tail: Node, below: nat, n: nat)
    requires
        es.len() >= 3,
        n <= branch_split_index(es) + 1,
    ensures
        kids_pages(
            t,
            es.take(branch_split_index(es)),
            es[branch_split_index(es)].value,
            below,
            n,
        ) == kids_pages(t, es, tail, below, n),
    decreases n,
{
    if n > 0 {
        let mid = branch_split_index(es);
        lemma_kids_left(t, es, tail, below, (n - 1) as nat);
        assert(child_of(es.take(mid), es[mid].value, n - 1) == child_of(es, tail, n - 1));
    }
}

/// The children of the right half of a branch that is cut are the children
/// of the branch behind the one that goes with the separator.
pub proof fn lemma_kids_right(t: State, es: Seq<Entry>, tail: Node, below: nat, n: nat)
    requires
        es.len() >= 3,
        n <= es.len() - branch_split_index(es),
    ensures
        kids_pages(t, es.skip(branch_split_index(es) + 1), tail, below, n) + kids_pages(
            t,
            es,
            tail,
            below,
            (branch_split_index(es) + 1) as nat,
        ) == kids_pages(t, es, tail, below, (n + branch_split_index(es) + 1) as nat),
    decreases n,
{
    if n > 0 {
        let mid = branch_split_index(es);
        lemma_kids_right(t, es, tail, below, (n - 1) as nat);
        assert(child_of(es.skip(mid + 1), tail, n - 1) == child_of(es, tail, n + mid));
    }
}

impl State {
    /// Children that are pages one level below, where no branch of that
    /// level or below was touched, hold as many pages as before.
    pub proof fn lemma_kids_same(
        self,
        u: State,
        es: Seq<Entry>,
        tail: Node,
        below: nat,
        n: nat,
        exc: Option<Pending>,
    )
        requires
            self.inv_with(exc),
            kept_below(self, u, below),
            forall|k: int| 0 <= k < n ==> self.holds(#[trigger] child_of(es, tail, k), below),
        ensures
            kids_pages(u, es, tail, below, n) == kids_pages(self, es, tail, below, n),
        decreases n,
    {
        if n > 0 {
            self.lemma_kids_same(u, es, tail, below, (n - 1) as nat, exc);
            assert(self.holds(child_of(es, tail, n - 1), below));
            self.lemma_count_below(u, child_of(es, tail, n - 1), below, exc);
        }
    }
}

/// After branch `p` took in the cut of its child, the children of the
/// separators that it holds with the new one hold in `u` the pages that
/// its children held in `t`, and those under the new page.
pub proof fn lemma_count_absorbed(
    t: State,
    u: State,
    p: Node,
    i: int,
    sep: Seq<u8>,
    left: Node,
    right: Node,
    exc: Pending,
    fresh: Node,
)
    requires
        ready_to_absorb(t, p as int, i, sep, left, right, exc),
        (left == exc.at && right == fresh) || (right == exc.at && left == fresh),
        kept_below(t, u, (t.levels[p as int] - 1) as nat),
    ensures
        ({
            let es = t.branches[p as int]@;
            let tail = t.branches[p as int].tail().unwrap();
            let below = (t.levels[p as int] - 1) as nat;
            kids_pages(
                u,
                absorbed(es, i, sep, left, right),
                absorbed_tail(es, tail, i, right),
                below,
                es.len() + 2,
            ) + 1 == pages_under(t, p, t.levels[p as int]) + pages_under(t, fresh, below)
        }),
{
    let es = t.branches[p as int]@;
    let tail = t.branches[p as int].tail().unwrap();
    let level = t.levels[p as int];
    let below = (level - 1) as nat;
    let out = absorbed(es, i, sep, left, right);
    let out_tail = absorbed_tail(es, tail, i, right);
    lemma_kids_absorbed(t, es, tail, below, i, sep, left, right, es.len() + 2);
    assert forall|k: int| 0 <= k < es.len() + 2 implies t.holds(
        #[trigger] child_of(out, out_tail, k),
        below,
    ) by {
        if k == i {
            assert(child_of(out, out_tail, k) == left);
        } else if k == i + 1 {
            assert(child_of(out, out_tail, k) == right);
        } else {
            let j = if k < i {
                k
            } else {
                k - 1
            };
            assert(child_of(out, out_tail, k) == child_of(es, tail, j));
            t.lemma_child_level(p, level, j, Some(exc));
        }
    }
    t.lemma_kids_same(u, out, out_tail, below, es.len() + 2, Some(exc));
}

/// After branch `p` took in the cut of its child in place, it holds the
/// pages that it held and those under the new page.
pub proof fn lemma_count_kept(
    t: State,
    u: State,
    p: Node,
    i: int,
    sep: Seq<u8>,
    left: Node,
    right: Node,
    exc: Pending,
    fresh: Node,
)
    requires
        ready_to_absorb(t, p as int, i, sep, left, right, exc),
        (left == exc.at && right == fresh) || (right == exc.at && left == fresh),
        kept_below(t, u, (t.levels[p as int] - 1) as nat),
        u.branches[p as int]@ == absorbed(t.branches[p as int]@, i, sep, left, right),
        u.branches[p as int].tail() == Some(
            absorbed_tail(t.branches[p as int]@, t.branches[p as int].tail().unwrap(), i, right),
        ),
    ensures
        pages_under(u, p, t.levels[p as int]) == pages_under(t, p, t.levels[p as int])
            + pages_under(t, fresh, (t.levels[p as int] - 1) as nat),
{
    lemma_count_absorbed(t, u, p, i, sep, left, right, exc, fresh);
}

/// After branch `p` took in the cut of its child and was cut itself, its
/// two halves hold the pages that it held, those under the new page that
/// came from below, and the new half.
pub proof fn lemma_count_cut(
    t: State,
    u: State,
    p: Node,
    i: int,
    sep: Seq<u8>,
    left: Node,
    right: Node,
    exc: Pending,
    fresh: Node,
    half: Node,
)
    requires
        ready_to_absorb(t, p as int, i, sep, left, right, exc),
        (left == exc.at && right == fresh) || (right == exc.at && left == fresh),
        kept_below(t, u, (t.levels[p as int] - 1) as nat),
        absorbed(t.branches[p as int]@, i, sep, left, right).len() >= 3,
        ({
            let es = absorbed(t.branches[p as int]@, i, sep, left, right);
            let tail = absorbed_tail(
                t.branches[p as int]@,
                t.branches[p as int].tail().unwrap(),
                i,
                right,
            );
            let mid = branch_split_index(es);
            &&& u.branches[half as int]@ == es.take(mid)
            &&& u.branches[half as int].tail() == Some(es[mid].value)
            &&& u.branches[p as int]@ == es.skip(mid + 1)
            &&& u.branches[p as int].tail() == Some(tail)
        }),
    ensures
        pages_under(u, p, t.levels[p as int]) + pages_under(u, half, t.levels[p as int])
            == pages_under(t, p, t.levels[p as int]) + pages_under(
            t,
            fresh,
            (t.levels[p as int] - 1) as nat,
        ) + 1,
{
    let es = absorbed(t.branches[p as int]@, i, sep, left, right);
    let tail = absorbed_tail(
        t.branches[p as int]@,
        t.branches[p as int].tail().unwrap(),
        i,
        right,
    );
    let mid = branch_split_index(es);
    let below = (t.levels[p as int] - 1) as nat;
    lemma_count_absorbed(t, u, p, i, sep, left, right, exc, fresh);
    lemma_kids_left(u, es, tail, below, (mid + 1) as nat);
    lemma_kids_right(u, es, tail, below, (es.len() - mid) as nat);
    assert(es.take(mid).len() + 1 == mid + 1);
    assert(es.skip(mid + 1).len() + 1 == es.len() - mid);
}

/// What taking in the cut of a child does to the number of pages under a
/// branch: the branch, or the branch and the `half` that it was cut into,
/// hold what the branch held, the pages under the new page `node` that came
/// from below, and the new half.
#[verifier::opaque]
pub open spec fn absorbed_count(
    t: State,
    u: State,
    at: Node,
    node: Node,
    height: nat,
    half: Option<Node>,
) -> bool {
    match half {
        None => pages_under(u, at, height) == pages_under(t, at, height) + pages_under(
            t,
            node,
            (height - 1) as nat,
        ),
        Some(half) => pages_under(u, at, height) + pages_under(u, half, height) == pages_under(
            t,
            at,
            height,
        ) + pages_under(t, node, (height - 1) as nat) + 1,
    }
}

/// What an insertion does to the number of pages under a page: the page,
/// or the page and the `half` that it was cut into, hold what the page held
/// and the pages that the store gained.
#[verifier::opaque]
pub open spec fn inserted_count(s: State, u: State, at: Node, height: nat, half: Option<Node>) -> bool {
    match half {
        None => pages_under(u, at, height) == pages_under(s, at, height) + grown(s, u),
        Some(half) => pages_under(u, at, height) + pages_under(u, half, height) == pages_under(
            s,
            at,
            height,
        ) + grown(s, u),
    }
}

/// An insertion into the subtree under a branch adds to the pages under
/// the branch the pages that the store gained, and touches no branch
/// whose span does not hold the key.
pub proof fn lemma_insert_count(
    s: State,
    t: State,
    u: State,
    at: Node,
    height: nat,
    key: Seq<u8>,
    node: Option<Node>,
    half: Option<Node>,
)
    requires
        s.inv(),
        height >= 1,
        s.holds(at, height),
        s.branch_spans[at as int].contains(key),
        t.branches[at as int] == s.branches[at as int],
        s.leaves.len() <= t.leaves.len(),
        height == 1 ==> t.branches == s.branches && grown(s, t) == if node is Some {
            1int
        } else {
            0int
        },
        height > 1 ==> kept_aside(s, t, key) && inserted_count(
            s,
            t,
            s.branches[at as int].child(route(s.branches[at as int]@, key)),
            (height - 1) as nat,
            node,
        ),
        node is None ==> u == t && half is None,
        node is Some ==> absorbed_count(t, u, at, node.unwrap(), height, half),
        node is Some ==> u.leaves.len() == t.leaves.len() && u.branches.len() == t.branches.len()
            + if half is Some {
            1int
        } else {
            0int
        },
        node is Some ==> forall|b: int|
            0 <= b < t.branches.len() && b != at ==> #[trigger] u.branches[b] == t.branches[b],
    ensures
        inserted_count(s, u, at, height, half),
        kept_aside(s, u, key),
{
    reveal(absorbed_count);
    reveal(inserted_count);
    let page = s.branches[at as int];
    let child = page.child(route(page@, key));
    let below = (height - 1) as nat;
    assert(kept_aside(s, t, key));
    s.lemma_kids_but_one(t, at, height, page@.len() + 1, key);
    lemma_route(page@, key);
    assert forall|x: int|
        0 <= x < s.branches.len() && !s.branch_spans[x].contains(key) implies #[trigger] u.branches[x]
        == s.branches[x] by {
        assert(t.branches[x] == s.branches[x]);
        if node is Some {
            assert(u.branches[x] == t.branches[x]);
        }
    }
}

} // verus!
