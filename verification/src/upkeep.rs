//! Why the store stays in order: what a cut of a leaf or of a branch
//! changes, and how the parent of the page that was cut sets it right.

use vstd::prelude::*;
use crate::btree::Node;
use crate::flex::Entry;
use crate::keys::{
    lemma_lex_asymmetric,
    lemma_lex_irreflexive,
    lemma_lex_le_lt,
    lemma_lex_transitive,
    lemma_min_separator,
    lex_lt,
};
use crate::pages::{Pending, State, child_of, child_span, inside, offered, value_of};
use crate::{PTR_SIZE};
use crate::flex::{DATA_LEN, SLOT_SIZE, lemma_payload_member};
use crate::slotted_leaf::{lemma_same_room, leaf_split_fits};
use crate::pages::storable;
use crate::room::{MAX_KEY_LEN, lemma_short_insert, lemma_short_parts, short_keys};
use crate::slotted_branch::{branch_split_index, lemma_branch_split, lemma_route, route};
use crate::slotted_leaf::{
    has_key,
    inserted,
    leaf_separator,
    leaf_split_index,
    lemma_leaf_split,
    lemma_lookup,
    lemma_lookup_inserted,
    lemma_sorted_insert,
    lemma_upper_bound,
    lookup,
    sorted,
    upper_bound,
};
use crate::span::Span;

verus! {

/// In a sorted run that is cut at a separator, a key below the separator is
/// found in the left part as in the run, and any other key in the right
/// part.
pub proof fn lemma_lookup_halves(es: Seq<Entry>, cut: int, sep: Seq<u8>, key: Seq<u8>)
    requires
        sorted(es),
        0 <= cut <= es.len(),
        sorted(es.take(cut)),
        sorted(es.skip(cut)),
        forall|i: int| 0 <= i < cut ==> lex_lt((#[trigger] es[i]).key, sep),
        forall|i: int| cut <= i < es.len() ==> !lex_lt((#[trigger] es[i]).key, sep),
    ensures
        lex_lt(key, sep) ==> lookup(es.take(cut), key) == lookup(es, key),
        !lex_lt(key, sep) ==> lookup(es.skip(cut), key) == lookup(es, key),
{
    lemma_lookup(es, key);
    lemma_lookup(es.take(cut), key);
    lemma_lookup(es.skip(cut), key);
    if lex_lt(key, sep) {
        let part = es.take(cut);
        if has_key(es, key) {
            let i = choose|i: int| 0 <= i < es.len() && (#[trigger] es[i]).key == key;
            assert(part[i] == es[i]);
        } else if has_key(part, key) {
            let i = choose|i: int| 0 <= i < part.len() && (#[trigger] part[i]).key == key;
            assert(es[i] == part[i]);
        }
    } else {
        let part = es.skip(cut);
        if has_key(es, key) {
            let i = choose|i: int| 0 <= i < es.len() && (#[trigger] es[i]).key == key;
            assert(part[i - cut] == es[i]);
        } else if has_key(part, key) {
            let i = choose|i: int| 0 <= i < part.len() && (#[trigger] part[i]).key == key;
            assert(es[i + cut] == part[i]);
        }
    }
}

/// After a leaf took an entry in place the store is in order, with the
/// entry offered to its content.
pub proof fn lemma_leaf_updated(s: State, t: State, at: int, e: Entry)
    requires
        s.inv(),
        0 <= at < s.leaves.len(),
        s.leaf_spans[at].contains(e.key),
        t.leaves == s.leaves.update(at, t.leaves[at]),
        t.leaves[at].wf(),
        t.leaves[at]@ == inserted(s.leaves[at]@, e),
        t.leaves[at].next() == s.leaves[at].next(),
        t.content == offered(s.content, e.key, e.value),
        t.branches == s.branches,
        t.leaf_spans == s.leaf_spans,
        t.branch_spans == s.branch_spans,
        t.levels == s.levels,
        t.top == s.top,
    ensures
        t.inv(),
{
    reveal(State::leaf_ok);
    reveal(State::branch_ok);
    let old = s.leaves[at]@;
    let span = s.leaf_spans[at];
    assert(s.leaf_ok(at));
    lemma_lookup(old, e.key);
    assert(lookup(old, e.key) == value_of(s.content, e.key));
    assert forall|a: int| 0 <= a < t.leaves.len() implies #[trigger] t.leaf_ok(a) by {
        assert(s.leaf_ok(a));
        let page = t.leaves[a];
        if a == at {
            lemma_upper_bound(old, e.key);
            assert forall|i: int| 0 <= i < page@.len() implies span.contains(
                (#[trigger] page@[i]).key,
            ) by {
                if !has_key(old, e.key) {
                    let u = upper_bound(old, e.key);
                    if i < u {
                        assert(page@[i] == old[i]);
                    } else if i > u {
                        assert(page@[i] == old[i - 1]);
                    }
                }
            }
            assert forall|key: Seq<u8>| span.contains(key) implies #[trigger] lookup(page@, key)
                == value_of(t.content, key) by {
                lemma_lookup_inserted(old, e, key);
                assert(lookup(old, key) == value_of(s.content, key));
            }
        } else {
            let other = s.leaf_spans[a];
            if a < at {
                assert(s.leaf_spans[a].apart(s.leaf_spans[at]));
            } else {
                assert(s.leaf_spans[at].apart(s.leaf_spans[a]));
            }
            assert forall|key: Seq<u8>| other.contains(key) implies #[trigger] lookup(page@, key)
                == value_of(t.content, key) by {
                other.lemma_apart(span, key);
                assert(lookup(page@, key) == value_of(s.content, key));
            }
        }
    }
    assert forall|b: int| 0 <= b < t.branches.len() implies #[trigger] t.branch_ok(b, None) by {
        assert(s.branch_ok(b, None));
        let page = s.branches[b];
        assert forall|i: int| 0 <= i <= page@.len() implies t.child_ok(
            t.levels[b],
            #[trigger] child_of(page@, page.tail().unwrap(), i),
            child_span(page@, t.branch_spans[b], i),
            None,
        ) by {
            assert(s.child_ok(
                s.levels[b],
                child_of(page@, page.tail().unwrap(), i),
                child_span(page@, s.branch_spans[b], i),
                None,
            ));
        }
    }
}

/// After a leaf was cut in place the store is in order but for the parent
/// of the leaf, with the entry entered into its content, and the
/// separator cuts the span of the leaf.
pub proof fn lemma_leaf_cut(s: State, t: State, at: int, e: Entry, sep: Seq<u8>, fresh: Node)
    requires
        fresh == s.leaves.len(),
        s.inv(),
        0 <= at < s.leaves.len(),
        s.leaf_spans[at].contains(e.key),
        !has_key(s.leaves[at]@, e.key),
        s.leaves[at]@.len() >= 1,
        ({
            let es = s.leaves[at]@.insert(upper_bound(s.leaves[at]@, e.key), e);
            let cut = leaf_split_index(es);
            let left = t.leaves[at];
            let right = t.leaves[s.leaves.len() as int];
            &&& t.leaves == s.leaves.update(at, left).push(right)
            &&& left.wf()
            &&& right.wf()
            &&& left@ == es.take(cut)
            &&& right@ == es.skip(cut)
            &&& sep == leaf_separator(es)
            &&& left.next() == Some(fresh)
            &&& right.next() == s.leaves[at].next()
        }),
        t.leaf_spans == s.leaf_spans.update(at, s.leaf_spans[at].below(sep)).push(
            s.leaf_spans[at].from(sep),
        ),
        t.content == s.content.insert(e.key, e.value),
        t.branches == s.branches,
        t.branch_spans == s.branch_spans,
        t.levels == s.levels,
        t.top == s.top,
    ensures
        t.inv_with(Some(Pending { leaf: true, at: at as usize, span: s.leaf_spans[at] })),
        s.leaf_spans[at].cut_by(sep),
        storable(sep),
        !s.content.contains_key(e.key),
{
    reveal(State::leaf_ok);
    reveal(State::branch_ok);
    let old = s.leaves[at]@;
    let span = s.leaf_spans[at];
    let u = upper_bound(old, e.key);
    let es = old.insert(u, e);
    let cut = leaf_split_index(es);
    let exc = Some(Pending { leaf: true, at: at as usize, span });
    assert(s.leaf_ok(at));
    lemma_lookup(old, e.key);
    assert(lookup(old, e.key) == value_of(s.content, e.key));
    lemma_upper_bound(old, e.key);
    lemma_sorted_insert(old, e);
    lemma_leaf_split(es);
    t.leaves[fresh as int].lemma_accounting();
    lemma_payload_member(t.leaves[fresh as int]@, 0);
    assert(t.leaves[fresh as int]@[0] == es[cut]);
    assert(es.subrange(0, cut) =~= es.take(cut));
    assert(es.subrange(cut, es.len() as int) =~= es.skip(cut));
    assert forall|i: int| 0 <= i < es.len() implies span.contains((#[trigger] es[i]).key) by {
        if i < u {
            assert(es[i] == old[i]);
        } else if i > u {
            assert(es[i] == old[i - 1]);
        }
    }
    assert(lex_lt(es[cut - 1].key, es[cut].key)) by {
        reveal(sorted);
    }
    lemma_min_separator(es[cut - 1].key, es[cut].key);
    assert(span.contains(es[cut - 1].key));
    assert(span.contains(es[cut].key));
    lemma_lex_le_lt(span.lo, es[cut - 1].key, sep);
    if span.hi is Some {
        lemma_lex_le_lt(sep, es[cut].key, span.hi.unwrap());
    }
    span.lemma_cut(sep);
    let lower = span.below(sep);
    let upper = span.from(sep);
    assert forall|a: int| 0 <= a < t.leaves.len() implies #[trigger] t.leaf_ok(a) by {
        let page = t.leaves[a];
        if a == at {
            assert forall|i: int| 0 <= i < page@.len() implies lower.contains(
                (#[trigger] page@[i]).key,
            ) by {
                assert(page@[i] == es[i]);
            }
            assert forall|key: Seq<u8>| lower.contains(key) implies #[trigger] lookup(page@, key)
                == value_of(t.content, key) by {
                lower.lemma_within(span, key);
                lemma_lookup_halves(es, cut, sep, key);
                lemma_lookup_inserted(old, e, key);
                assert(lookup(old, key) == value_of(s.content, key));
            }
        } else if a == fresh {
            assert forall|i: int| 0 <= i < page@.len() implies upper.contains(
                (#[trigger] page@[i]).key,
            ) by {
                assert(page@[i] == es[i + cut]);
            }
            assert forall|key: Seq<u8>| upper.contains(key) implies #[trigger] lookup(page@, key)
                == value_of(t.content, key) by {
                upper.lemma_within(span, key);
                lemma_lookup_halves(es, cut, sep, key);
                lemma_lookup_inserted(old, e, key);
                assert(lookup(old, key) == value_of(s.content, key));
            }
            let next = s.leaves[at].next();
            if next is Some {
                let n = next.unwrap();
                if n == at {
                } else {
                    assert(t.leaf_spans[n as int] == s.leaf_spans[n as int]);
                }
            }
        } else {
            assert(s.leaf_ok(a));
            let other = s.leaf_spans[a];
            if a < at {
                assert(s.leaf_spans[a].apart(s.leaf_spans[at]));
            } else {
                assert(s.leaf_spans[at].apart(s.leaf_spans[a]));
            }
            assert forall|key: Seq<u8>| other.contains(key) implies #[trigger] lookup(page@, key)
                == value_of(t.content, key) by {
                other.lemma_apart(span, key);
                assert(lookup(page@, key) == value_of(s.content, key));
            }
            let next = s.leaves[a].next();
            if next is Some {
                let n = next.unwrap();
                if n == at {
                } else {
                    assert(t.leaf_spans[n as int] == s.leaf_spans[n as int]);
                }
            }
        }
    }
    assert forall|a: int, b: int| 0 <= a < b < t.leaves.len() implies (
    #[trigger] t.leaf_spans[a]).apart(#[trigger] t.leaf_spans[b]) by {
        let x = if a == at || a == fresh {
            at
        } else {
            a
        };
        let y = if b == at || b == fresh {
            at
        } else {
            b
        };
        if x == y {
        } else {
            if x < y {
                assert(s.leaf_spans[x].apart(s.leaf_spans[y]));
            } else {
                assert(s.leaf_spans[y].apart(s.leaf_spans[x]));
            }
            if a == at || a == fresh {
                t.leaf_spans[a].lemma_within_apart(span, s.leaf_spans[y]);
            } else if b == at || b == fresh {
                t.leaf_spans[b].lemma_within_apart(span, s.leaf_spans[x]);
            }
        }
    }
    assert forall|b: int| 0 <= b < t.branches.len() implies #[trigger] t.branch_ok(b, exc) by {
        assert(s.branch_ok(b, None));
        let page = s.branches[b];
        assert forall|i: int| 0 <= i <= page@.len() implies t.child_ok(
            t.levels[b],
            #[trigger] child_of(page@, page.tail().unwrap(), i),
            child_span(page@, t.branch_spans[b], i),
            exc,
        ) by {
            assert(s.child_ok(
                s.levels[b],
                child_of(page@, page.tail().unwrap(), i),
                child_span(page@, s.branch_spans[b], i),
                None,
            ));
        }
    }
}

/// The separators of a branch after the cut of child `i` was taken in: the
/// child that answers for the upper part stands where the child stood, and
/// the separator enters before it with the child that answers for the
/// lower part.
pub open spec fn absorbed(es: Seq<Entry>, i: int, sep: Seq<u8>, left: Node, right: Node) -> Seq<
    Entry,
> {
    let swapped = if i < es.len() {
        es.update(i, Entry { key: es[i].key, value: right })
    } else {
        es
    };
    swapped.insert(i, Entry { key: sep, value: left })
}

/// The rightmost child of a branch after the cut of child `i` was taken in.
pub open spec fn absorbed_tail(es: Seq<Entry>, tail: Node, i: int, right: Node) -> Node {
    if i < es.len() {
        tail
    } else {
        right
    }
}

/// The span of each child of a branch lies within the span of the branch
/// and is not empty.
pub proof fn lemma_child_within(es: Seq<Entry>, span: Span, j: int)
    requires
        sorted(es),
        es.len() >= 1,
        inside(es, span),
        0 <= j <= es.len(),
    ensures
        child_span(es, span, j).within(span),
        child_span(es, span, j).nonempty(),
{
    reveal(sorted);
    let n = es.len() as int;
    lemma_lex_irreflexive(span.lo);
    if j >= 1 {
        if j - 1 > 0 {
            assert(lex_lt(es[0].key, es[j - 1].key));
            lemma_lex_transitive(span.lo, es[0].key, es[j - 1].key);
        }
        lemma_lex_asymmetric(span.lo, es[j - 1].key);
    }
    if span.hi is Some {
        let h = span.hi.unwrap();
        lemma_lex_irreflexive(h);
        if j < n {
            if j < n - 1 {
                assert(lex_lt(es[j].key, es[n - 1].key));
                lemma_lex_transitive(es[j].key, es[n - 1].key, h);
            }
            lemma_lex_asymmetric(es[j].key, h);
        }
    }
    if 0 < j < n {
        assert(lex_lt(es[j - 1].key, es[j].key));
    }
}

/// The child index that the route gives leads to the child whose span
/// holds the key.
pub proof fn lemma_route_span(es: Seq<Entry>, span: Span, key: Seq<u8>)
    requires
        span.contains(key),
    ensures
        0 <= route(es, key) <= es.len(),
        child_span(es, span, route(es, key)).contains(key),
{
    lemma_route(es, key);
    let i = route(es, key);
    if i > 0 {
        assert(!lex_lt(key, es[i - 1].key));
    }
}

/// A page that was cut has one parent only, and is one child of it only.
pub proof fn lemma_sole_parent(t: State, exc: Pending, p: int, i: int, b: int, j: int)
    requires
        t.inv_with(Some(exc)),
        exc.span.nonempty(),
        0 <= p < t.branches.len(),
        0 <= b < t.branches.len(),
        0 <= i <= t.branches[p]@.len(),
        0 <= j <= t.branches[b]@.len(),
        exc.leaf == (t.levels[p] == 1),
        exc.leaf == (t.levels[b] == 1),
        child_of(t.branches[p]@, t.branches[p].tail().unwrap(), i) == exc.at,
        child_of(t.branches[b]@, t.branches[b].tail().unwrap(), j) == exc.at,
    ensures
        b == p,
        j == i,
{
    reveal(State::branch_ok);
    reveal(sorted);
    assert(t.branch_ok(p, Some(exc)));
    assert(t.branch_ok(b, Some(exc)));
    let ep = t.branches[p]@;
    let eb = t.branches[b]@;
    let sp = t.branch_spans[p];
    let sb = t.branch_spans[b];
    assert(t.child_ok(
        t.levels[p],
        child_of(ep, t.branches[p].tail().unwrap(), i),
        child_span(ep, sp, i),
        Some(exc),
    ));
    assert(t.child_ok(
        t.levels[b],
        child_of(eb, t.branches[b].tail().unwrap(), j),
        child_span(eb, sb, j),
        Some(exc),
    ));
    assert(child_span(ep, sp, i) == exc.span);
    assert(child_span(eb, sb, j) == exc.span);
    if b != p {
        if b < p {
            assert(t.branch_spans[b].apart(t.branch_spans[p]));
        } else {
            assert(t.branch_spans[p].apart(t.branch_spans[b]));
        }
        lemma_child_within(ep, sp, i);
        lemma_child_within(eb, sb, j);
        exc.span.lemma_holds_lo();
        exc.span.lemma_within(sp, exc.span.lo);
        exc.span.lemma_within(sb, exc.span.lo);
        sp.lemma_apart(sb, exc.span.lo);
    } else if j != i {
        let lo = if j < i {
            j
        } else {
            i
        };
        let hi = if j < i {
            i
        } else {
            j
        };
        assert(exc.span.hi == Some(ep[lo].key));
        assert(exc.span.lo == ep[hi - 1].key);
        lemma_lex_irreflexive(ep[lo].key);
        if lo < hi - 1 {
            assert(lex_lt(ep[lo].key, ep[hi - 1].key));
            lemma_lex_asymmetric(ep[lo].key, ep[hi - 1].key);
        }
    }
}

/// The children of a branch that took in the cut of one of its children
/// are held as they may be, none of them pending.
pub proof fn lemma_children_absorbed(
    t: State,
    u: State,
    es: Seq<Entry>,
    tail: Node,
    span: Span,
    level: nat,
    exc: Pending,
    i: int,
    sep: Seq<u8>,
    left: Node,
    right: Node,
)
    requires
        t.children_ok(es, tail, span, level, Some(exc)),
        sorted(es),
        es.len() >= 1,
        inside(es, span),
        level >= 1,
        0 <= i <= es.len(),
        child_of(es, tail, i) == exc.at,
        exc.leaf == (level == 1),
        exc.span.cut_by(sep),
        forall|j: int| 0 <= j <= es.len() && j != i ==> #[trigger] child_of(es, tail, j) != exc.at,
        u.holds(left, (level - 1) as nat),
        u.holds(right, (level - 1) as nat),
        u.span_at(left, (level - 1) as nat) == exc.span.below(sep),
        u.span_at(right, (level - 1) as nat) == exc.span.from(sep),
        forall|x: Node|
            #[trigger] t.holds(x, (level - 1) as nat) && x != exc.at ==> u.holds(
                x,
                (level - 1) as nat,
            ) && u.span_at(x, (level - 1) as nat) == t.span_at(x, (level - 1) as nat),
    ensures
        u.children_ok(
            absorbed(es, i, sep, left, right),
            absorbed_tail(es, tail, i, right),
            span,
            level,
            None,
        ),
        inside(absorbed(es, i, sep, left, right), span),
        sorted(absorbed(es, i, sep, left, right)),
{
    let out = absorbed(es, i, sep, left, right);
    let out_tail = absorbed_tail(es, tail, i, right);
    let n = es.len() as int;
    let below = (level - 1) as nat;
    assert(t.child_ok(level, child_of(es, tail, i), child_span(es, span, i), Some(exc)));
    assert(child_span(es, span, i) == exc.span);
    assert forall|j: int| 0 <= j <= out.len() implies u.child_ok(
        level,
        #[trigger] child_of(out, out_tail, j),
        child_span(out, span, j),
        None,
    ) by {
        if j == i {
            assert(child_of(out, out_tail, j) == left);
            assert(child_span(out, span, j) == exc.span.below(sep));
        } else if j == i + 1 {
            assert(child_of(out, out_tail, j) == right);
            assert(child_span(out, span, j) == exc.span.from(sep));
        } else {
            let k = if j < i {
                j
            } else {
                j - 1
            };
            assert(child_of(out, out_tail, j) == child_of(es, tail, k));
            assert(child_span(out, span, j) == child_span(es, span, k));
            assert(t.child_ok(level, child_of(es, tail, k), child_span(es, span, k), Some(exc)));
            assert(t.holds(child_of(es, tail, k), below));
        }
    }
    assert(sorted(out)) by {
        reveal(sorted);
        if i > 0 {
            assert(lex_lt(es[i - 1].key, sep));
        }
        if i < n {
            assert(lex_lt(sep, es[i].key));
        }
        assert forall|a: int, b: int| 0 <= a < b < out.len() implies lex_lt(
            out[a].key,
            out[b].key,
        ) by {
            let ka = if a < i {
                a
            } else {
                a - 1
            };
            let kb = if b < i {
                b
            } else {
                b - 1
            };
            if a != i && b != i {
                assert(lex_lt(es[ka].key, es[kb].key));
            } else if a == i {
                if kb > i {
                    assert(lex_lt(es[i].key, es[kb].key));
                    lemma_lex_transitive(sep, es[i].key, es[kb].key);
                }
            } else {
                if ka < i - 1 {
                    assert(lex_lt(es[ka].key, es[i - 1].key));
                    lemma_lex_transitive(es[ka].key, es[i - 1].key, sep);
                }
            }
        }
    }
}

/// The children of the two halves of a branch that is cut are the
/// children of the branch, each with the span that it had.
pub proof fn lemma_children_cut(
    u: State,
    es: Seq<Entry>,
    tail: Node,
    span: Span,
    level: nat,
    exc: Option<Pending>,
)
    requires
        u.children_ok(es, tail, span, level, exc),
        sorted(es),
        inside(es, span),
        es.len() >= 3,
    ensures
        u.children_ok(
            es.take(branch_split_index(es)),
            es[branch_split_index(es)].value,
            span.below(es[branch_split_index(es)].key),
            level,
            exc,
        ),
        u.children_ok(
            es.skip(branch_split_index(es) + 1),
            tail,
            span.from(es[branch_split_index(es)].key),
            level,
            exc,
        ),
        inside(es.take(branch_split_index(es)), span.below(es[branch_split_index(es)].key)),
        inside(es.skip(branch_split_index(es) + 1), span.from(es[branch_split_index(es)].key)),
        span.cut_by(es[branch_split_index(es)].key),
{
    let mid = branch_split_index(es);
    let n = es.len() as int;
    let left = es.take(mid);
    let right = es.skip(mid + 1);
    let median = es[mid].key;
    assert forall|j: int| 0 <= j <= left.len() implies u.child_ok(
        level,
        #[trigger] child_of(left, es[mid].value, j),
        child_span(left, span.below(median), j),
        exc,
    ) by {
        assert(child_of(left, es[mid].value, j) == child_of(es, tail, j));
        assert(child_span(left, span.below(median), j) == child_span(es, span, j));
        assert(u.child_ok(level, child_of(es, tail, j), child_span(es, span, j), exc));
    }
    assert forall|j: int| 0 <= j <= right.len() implies u.child_ok(
        level,
        #[trigger] child_of(right, tail, j),
        child_span(right, span.from(median), j),
        exc,
    ) by {
        let k = j + mid + 1;
        assert(child_of(right, tail, j) == child_of(es, tail, k));
        assert(child_span(right, span.from(median), j) == child_span(es, span, k));
        assert(u.child_ok(level, child_of(es, tail, k), child_span(es, span, k), exc));
    }
    reveal(sorted);
    assert(lex_lt(es[0].key, es[mid].key));
    lemma_lex_transitive(span.lo, es[0].key, median);
    assert(lex_lt(es[mid - 1].key, es[mid].key));
    assert(lex_lt(es[mid].key, es[mid + 1].key));
    assert(lex_lt(es[mid].key, es[n - 1].key));
    if span.hi is Some {
        lemma_lex_transitive(median, es[n - 1].key, span.hi.unwrap());
    }
}

/// What `lemma_absorbed` and `lemma_absorbed_cut` ask of the store before
/// branch `p` takes in the cut of its child `i`.
pub open spec fn ready_to_absorb(
    t: State,
    p: int,
    i: int,
    sep: Seq<u8>,
    left: Node,
    right: Node,
    exc: Pending,
) -> bool {
    &&& t.inv_with(Some(exc))
    &&& 0 <= p < t.branches.len()
    &&& t.levels[p] >= 1
    &&& exc.leaf == (t.levels[p] == 1)
    &&& 0 <= i <= t.branches[p]@.len()
    &&& child_of(t.branches[p]@, t.branches[p].tail().unwrap(), i) == exc.at
    &&& exc.span.cut_by(sep)
    &&& storable(sep)
    &&& t.holds(left, (t.levels[p] - 1) as nat)
    &&& t.holds(right, (t.levels[p] - 1) as nat)
    &&& t.span_at(left, (t.levels[p] - 1) as nat) == exc.span.below(sep)
    &&& t.span_at(right, (t.levels[p] - 1) as nat) == exc.span.from(sep)
}

/// Before branch `p` takes in the cut of its child, its separators with
/// the new one are sorted and short, and its children with the new one are
/// held as they may be.
pub proof fn lemma_ready(
    t: State,
    u: State,
    p: int,
    i: int,
    sep: Seq<u8>,
    left: Node,
    right: Node,
    exc: Pending,
)
    requires
        ready_to_absorb(t, p, i, sep, left, right, exc),
        forall|x: Node|
            #[trigger] t.holds(x, (t.levels[p] - 1) as nat) ==> u.holds(
                x,
                (t.levels[p] - 1) as nat,
            ) && u.span_at(x, (t.levels[p] - 1) as nat) == t.span_at(
                x,
                (t.levels[p] - 1) as nat,
            ),
    ensures
        u.children_ok(
            absorbed(t.branches[p]@, i, sep, left, right),
            absorbed_tail(t.branches[p]@, t.branches[p].tail().unwrap(), i, right),
            t.branch_spans[p],
            t.levels[p],
            None,
        ),
        inside(absorbed(t.branches[p]@, i, sep, left, right), t.branch_spans[p]),
        sorted(absorbed(t.branches[p]@, i, sep, left, right)),
        t.branches[p].wf(),
        exc.span.nonempty(),
{
    reveal(State::branch_ok);
    let es = t.branches[p]@;
    let tail = t.branches[p].tail().unwrap();
    exc.span.lemma_cut(sep);
    assert(t.branch_ok(p, Some(exc)));
    assert forall|j: int| 0 <= j <= es.len() && j != i implies #[trigger] child_of(es, tail, j)
        != exc.at by {
        if child_of(es, tail, j) == exc.at {
            lemma_sole_parent(t, exc, p, i, p, j);
        }
    }
    lemma_children_absorbed(
        t,
        u,
        es,
        tail,
        t.branch_spans[p],
        t.levels[p],
        exc,
        i,
        sep,
        left,
        right,
    );
}

/// A branch other than the parent of the pending page holds its children
/// as before once the parent has taken the cut in.
pub proof fn lemma_branch_kept(
    t: State,
    u: State,
    p: int,
    i: int,
    b: int,
    exc: Pending,
    later: Option<Pending>,
)
    requires
        t.inv_with(Some(exc)),
        exc.span.nonempty(),
        0 <= p < t.branches.len(),
        0 <= b < t.branches.len(),
        b != p,
        exc.leaf == (t.levels[p] == 1),
        0 <= i <= t.branches[p]@.len(),
        child_of(t.branches[p]@, t.branches[p].tail().unwrap(), i) == exc.at,
        u.branches.len() >= t.branches.len(),
        u.leaves.len() >= t.leaves.len(),
        u.branches[b] == t.branches[b],
        u.branch_spans[b] == t.branch_spans[b],
        u.levels[b] == t.levels[b],
        u.top == t.top,
        u.leaf_spans.len() >= t.leaf_spans.len(),
        forall|x: int| 0 <= x < t.leaf_spans.len() ==> #[trigger] u.leaf_spans[x] == t.leaf_spans[x],
        forall|x: int|
            0 <= x < t.branches.len() ==> #[trigger] u.levels[x] == t.levels[x] && (x != p
                ==> u.branch_spans[x] == t.branch_spans[x]),
        later matches Some(q) ==> !q.leaf && q.at == p && q.span == t.branch_spans[p],
        later is None ==> u.branch_spans[p] == t.branch_spans[p],
        t.leaf_spans.len() == t.leaves.len(),
    ensures
        u.branch_ok(b, later),
{
    reveal(State::branch_ok);
    assert(t.branch_ok(b, Some(exc)));
    let page = t.branches[b];
    let es = page@;
    let tail = page.tail().unwrap();
    assert forall|j: int| 0 <= j <= es.len() implies u.child_ok(
        u.levels[b],
        #[trigger] child_of(es, tail, j),
        child_span(es, u.branch_spans[b], j),
        later,
    ) by {
        let x = child_of(es, tail, j);
        assert(t.child_ok(t.levels[b], x, child_span(es, t.branch_spans[b], j), Some(exc)));
        let leaf = t.levels[b] == 1;
        if exc.leaf == leaf && exc.at == x {
            lemma_sole_parent(t, exc, p, i, b, j);
        }
        if leaf {
            assert(u.leaf_spans[x as int] == t.leaf_spans[x as int]);
        } else {
            assert(u.levels[x as int] == t.levels[x as int]);
        }
    }
}

/// After a branch took in the cut of its child in place, the store is in
/// order.
pub proof fn lemma_absorbed(
    t: State,
    u: State,
    p: int,
    i: int,
    sep: Seq<u8>,
    left: Node,
    right: Node,
    exc: Pending,
)
    requires
        ready_to_absorb(t, p, i, sep, left, right, exc),
        u.branches == t.branches.update(p, u.branches[p]),
        u.branches[p].wf(),
        u.branches[p]@ == absorbed(t.branches[p]@, i, sep, left, right),
        u.branches[p].tail() == Some(
            absorbed_tail(t.branches[p]@, t.branches[p].tail().unwrap(), i, right),
        ),
        u.leaves == t.leaves,
        u.leaf_spans == t.leaf_spans,
        u.branch_spans == t.branch_spans,
        u.levels == t.levels,
        u.top == t.top,
        u.content == t.content,
    ensures
        u.inv(),
{
    lemma_ready(t, u, p, i, sep, left, right, exc);
    assert forall|a: int| 0 <= a < u.leaves.len() implies #[trigger] u.leaf_ok(a) by {
        reveal(State::leaf_ok);
        assert(t.leaf_ok(a));
    }
    assert forall|b: int| 0 <= b < u.branches.len() implies #[trigger] u.branch_ok(b, None) by {
        if b == p {
            reveal(State::branch_ok);
            assert(t.branch_ok(p, Some(exc)));
        } else {
            lemma_branch_kept(t, u, p, i, b, exc, None);
        }
    }
}

/// After a branch took in the cut of its child and was cut itself, the
/// store is in order but for the parent of the branch, and the separator
/// that goes up cuts the span of the branch.
pub proof fn lemma_absorbed_cut(
    t: State,
    u: State,
    p: int,
    i: int,
    sep: Seq<u8>,
    left: Node,
    right: Node,
    exc: Pending,
)
    requires
        ready_to_absorb(t, p, i, sep, left, right, exc),
        t.branches.len() <= usize::MAX,
        absorbed(t.branches[p]@, i, sep, left, right).len() >= 3,
        ({
            let es = absorbed(t.branches[p]@, i, sep, left, right);
            let tail = absorbed_tail(t.branches[p]@, t.branches[p].tail().unwrap(), i, right);
            let mid = branch_split_index(es);
            let span = t.branch_spans[p];
            let fresh = t.branches.len() as int;
            &&& u.branches == t.branches.update(p, u.branches[p]).push(u.branches[fresh])
            &&& u.branches[p].wf()
            &&& u.branches[fresh].wf()
            &&& u.branches[fresh]@ == es.take(mid)
            &&& u.branches[fresh].tail() == Some(es[mid].value)
            &&& u.branches[p]@ == es.skip(mid + 1)
            &&& u.branches[p].tail() == Some(tail)
            &&& u.branch_spans == t.branch_spans.update(p, span.from(es[mid].key)).push(
                span.below(es[mid].key),
            )
            &&& u.levels == t.levels.push(t.levels[p])
        }),
        u.leaves == t.leaves,
        u.leaf_spans == t.leaf_spans,
        u.top == t.top,
        u.content == t.content,
    ensures
        u.inv_with(Some(Pending { leaf: false, at: p as usize, span: t.branch_spans[p] })),
        t.branch_spans[p].cut_by(
            absorbed(t.branches[p]@, i, sep, left, right)[branch_split_index(
                absorbed(t.branches[p]@, i, sep, left, right),
            )].key,
        ),
        absorbed(t.branches[p]@, i, sep, left, right)[branch_split_index(
            absorbed(t.branches[p]@, i, sep, left, right),
        )].key.len() + PTR_SIZE + SLOT_SIZE <= DATA_LEN,
{
    let es = absorbed(t.branches[p]@, i, sep, left, right);
    let tail = absorbed_tail(t.branches[p]@, t.branches[p].tail().unwrap(), i, right);
    let mid = branch_split_index(es);
    let span = t.branch_spans[p];
    let level = t.levels[p];
    let fresh = t.branches.len() as int;
    let median = es[mid].key;
    let later = Some(Pending { leaf: false, at: p as usize, span });
    assert forall|x: Node| #[trigger] t.holds(x, (level - 1) as nat) implies u.holds(
        x,
        (level - 1) as nat,
    ) && u.span_at(x, (level - 1) as nat) == t.span_at(x, (level - 1) as nat) by {}
    lemma_ready(t, u, p, i, sep, left, right, exc);
    lemma_children_cut(u, es, tail, span, level, None);
    lemma_branch_split(es);
    t.branches[p].lemma_accounting();
    if mid < i {
        lemma_payload_member(t.branches[p]@, mid);
    } else if mid > i {
        lemma_payload_member(t.branches[p]@, mid - 1);
    }
    assert(es.subrange(0, mid) =~= es.take(mid));
    assert(es.subrange(mid + 1, es.len() as int) =~= es.skip(mid + 1));
    span.lemma_cut(median);
    assert forall|a: int| 0 <= a < u.leaves.len() implies #[trigger] u.leaf_ok(a) by {
        reveal(State::leaf_ok);
        assert(t.leaf_ok(a));
    }
    assert forall|b: int| 0 <= b < u.branches.len() implies #[trigger] u.branch_ok(b, later) by {
        if b == p || b == fresh {
            reveal(State::branch_ok);
            assert(t.branch_ok(p, Some(exc)));
            let page = u.branches[b];
            let part = u.branch_spans[b];
            assert forall|j: int| 0 <= j <= page@.len() implies u.child_ok(
                level,
                #[trigger] child_of(page@, page.tail().unwrap(), j),
                child_span(page@, part, j),
                later,
            ) by {
                assert(u.child_ok(
                    level,
                    child_of(page@, page.tail().unwrap(), j),
                    child_span(page@, part, j),
                    None,
                ));
            }
        } else {
            lemma_branch_kept(t, u, p, i, b, exc, later);
        }
    }
    assert forall|a: int, b: int|
        0 <= a < b < u.branches.len() && u.levels[a] == u.levels[b] implies (
    #[trigger] u.branch_spans[a]).apart(#[trigger] u.branch_spans[b]) by {
        let x = if a == p || a == fresh {
            p
        } else {
            a
        };
        let y = if b == p || b == fresh {
            p
        } else {
            b
        };
        if x == y {
        } else {
            if x < y {
                assert(t.branch_spans[x].apart(t.branch_spans[y]));
            } else {
                assert(t.branch_spans[y].apart(t.branch_spans[x]));
            }
            if a == p || a == fresh {
                u.branch_spans[a].lemma_within_apart(span, t.branch_spans[y]);
            } else if b == p || b == fresh {
                u.branch_spans[b].lemma_within_apart(span, t.branch_spans[x]);
            }
        }
    }
    assert(es[mid].key.len() + PTR_SIZE + SLOT_SIZE <= DATA_LEN);
}

/// A step that touches no branch above the level below `level`, followed by
/// a step that touches no old branch but `p` of level `level`, touches no
/// branch above `level`.
pub proof fn lemma_kept(s: State, t: State, u: State, p: int, level: nat)
    requires
        level >= 1,
        s.kept_above(t, (level - 1) as nat),
        0 <= p < s.branches.len(),
        s.levels[p] == level,
        u.leaves == t.leaves,
        u.top == t.top,
        u.branches.len() >= t.branches.len(),
        forall|b: int|
            0 <= b < t.branches.len() && b != p ==> {
                &&& #[trigger] u.branches[b] == t.branches[b]
                &&& u.branch_spans[b] == t.branch_spans[b]
                &&& u.levels[b] == t.levels[b]
            },
    ensures
        s.kept_above(u, level),
{
    assert forall|b: int| 0 <= b < s.branches.len() && s.levels[b] > level implies {
        &&& #[trigger] u.branches[b] == s.branches[b]
        &&& u.branch_spans[b] == s.branch_spans[b]
        &&& u.levels[b] == s.levels[b]
    } by {
        assert(t.branches[b] == s.branches[b]);
        assert(u.branches[b] == t.branches[b]);
    }
}

/// A step that touches no branch above a level touches none above the
/// next level.
pub proof fn lemma_kept_more(s: State, t: State, level: nat)
    requires
        s.kept_above(t, level),
    ensures
        s.kept_above(t, level + 1),
{
}

/// No child of a branch answers for every key.
pub proof fn lemma_child_not_all(es: Seq<Entry>, span: Span, j: int)
    requires
        sorted(es),
        es.len() >= 1,
        inside(es, span),
        0 <= j <= es.len(),
    ensures
        child_span(es, span, j) != Span::all(),
{
    reveal(sorted);
    let n = es.len() as int;
    if j == n {
        if n - 1 > 0 {
            assert(lex_lt(es[0].key, es[n - 1].key));
        }
        assert(es[n - 1].key.len() > 0);
    }
}

/// After a new root was set above the two halves of the old root, the
/// store is in order.
pub proof fn lemma_grown(
    t: State,
    u: State,
    sep: Seq<u8>,
    left: Node,
    right: Node,
    exc: Pending,
)
    requires
        t.inv_with(Some(exc)),
        exc.span == Span::all(),
        exc.leaf == (t.top == 0),
        Span::all().cut_by(sep),
        storable(sep),
        t.holds(left, t.top),
        t.holds(right, t.top),
        t.span_at(left, t.top) == Span::all().below(sep),
        t.span_at(right, t.top) == Span::all().from(sep),
        u.branches == t.branches.push(u.branches[t.branches.len() as int]),
        u.branches[t.branches.len() as int].wf(),
        u.branches[t.branches.len() as int]@ == seq![Entry { key: sep, value: left }],
        u.branches[t.branches.len() as int].tail() == Some(right),
        u.branch_spans == t.branch_spans.push(Span::all()),
        u.levels == t.levels.push(t.top + 1),
        u.top == t.top + 1,
        u.leaves == t.leaves,
        u.leaf_spans == t.leaf_spans,
        u.content == t.content,
    ensures
        u.inv(),
{
    let root = t.branches.len() as int;
    assert forall|a: int| 0 <= a < u.leaves.len() implies #[trigger] u.leaf_ok(a) by {
        reveal(State::leaf_ok);
        assert(t.leaf_ok(a));
    }
    assert forall|b: int| 0 <= b < u.branches.len() implies #[trigger] u.branch_ok(b, None) by {
        reveal(State::branch_ok);
        if b == root {
            let page = u.branches[root];
            let es = page@;
            assert forall|j: int| 0 <= j <= es.len() implies u.child_ok(
                u.levels[root],
                #[trigger] child_of(es, right, j),
                child_span(es, Span::all(), j),
                None,
            ) by {
                if j == 0 {
                    assert(child_of(es, right, j) == left);
                    assert(child_span(es, Span::all(), j) == Span::all().below(sep));
                } else {
                    assert(child_of(es, right, j) == right);
                    assert(child_span(es, Span::all(), j) == Span::all().from(sep));
                }
            }
        } else {
            assert(t.branch_ok(b, Some(exc)));
            let page = t.branches[b];
            let es = page@;
            let tail = page.tail().unwrap();
            assert forall|j: int| 0 <= j <= es.len() implies u.child_ok(
                u.levels[b],
                #[trigger] child_of(es, tail, j),
                child_span(es, u.branch_spans[b], j),
                None,
            ) by {
                assert(t.child_ok(
                    t.levels[b],
                    child_of(es, tail, j),
                    child_span(es, t.branch_spans[b], j),
                    Some(exc),
                ));
                lemma_child_not_all(es, t.branch_spans[b], j);
            }
        }
    }
    assert forall|a: int, b: int|
        0 <= a < b < u.branches.len() && u.levels[a] == u.levels[b] implies (
    #[trigger] u.branch_spans[a]).apart(#[trigger] u.branch_spans[b]) by {
        reveal(State::branch_ok);
        assert(t.branch_ok(a, Some(exc)));
        if b < root {
            assert(t.branch_spans[a].apart(t.branch_spans[b]));
        }
    }
}

/// The spans of two children of a branch are apart.
pub proof fn lemma_children_apart(es: Seq<Entry>, span: Span, i: int, j: int)
    requires
        sorted(es),
        0 <= i < j <= es.len(),
    ensures
        child_span(es, span, i).apart(child_span(es, span, j)),
{
    reveal(sorted);
    lemma_lex_irreflexive(es[i].key);
    if i < j - 1 {
        assert(lex_lt(es[i].key, es[j - 1].key));
        lemma_lex_asymmetric(es[i].key, es[j - 1].key);
    }
}

/// The separator at the cut of a leaf goes by the keys alone.
pub proof fn lemma_separator_of_keys(a: Seq<Entry>, b: Seq<Entry>)
    requires
        a.len() == b.len(),
        forall|i: int| 0 <= i < a.len() ==> (#[trigger] a[i]).key == b[i].key,
    ensures
        leaf_split_index(a) == leaf_split_index(b),
        leaf_split_fits(a) == leaf_split_fits(b),
        a.len() >= 2 ==> leaf_separator(a) == leaf_separator(b),
{
    lemma_same_room(a, b);
    if a.len() >= 2 {
        let s = leaf_split_index(a);
        assert(a[s - 1].key == b[s - 1].key);
        assert(a[s].key == b[s].key);
    }
}

/// The separators of a branch that took in a short separator are short.
pub proof fn lemma_short_absorbed(es: Seq<Entry>, i: int, sep: Seq<u8>, left: Node, right: Node)
    requires
        short_keys(es),
        0 <= i <= es.len(),
        sep.len() <= MAX_KEY_LEN,
    ensures
        short_keys(absorbed(es, i, sep, left, right)),
{
    let out = absorbed(es, i, sep, left, right);
    assert forall|k: int| 0 <= k < out.len() implies (#[trigger] out[k]).key.len()
        <= MAX_KEY_LEN by {
        if k < i {
            assert(out[k].key == es[k].key);
        } else if k > i {
            assert(out[k].key == es[k - 1].key);
        }
    }
}

/// A store of short keys is one after a leaf took a short key, in place or
/// by a cut.
pub proof fn lemma_short_after_leaf(s: State, t: State, at: int, e: Entry, cut: bool)
    requires
        s.all_short(),
        e.key.len() <= MAX_KEY_LEN,
        0 <= at < s.leaves.len(),
        t.branches == s.branches,
        t.leaves.len() == s.leaves.len() + if cut {
            1int
        } else {
            0int
        },
        forall|a: int| 0 <= a < s.leaves.len() && a != at ==> #[trigger] t.leaves[a] == s.leaves[a],
        !cut ==> t.leaves[at]@ == inserted(s.leaves[at]@, e),
        cut ==> ({
            let es = s.leaves[at]@.insert(upper_bound(s.leaves[at]@, e.key), e);
            &&& 0 <= leaf_split_index(es) <= es.len()
            &&& t.leaves[at]@ == es.take(leaf_split_index(es))
            &&& t.leaves[s.leaves.len() as int]@ == es.skip(leaf_split_index(es))
        }),
    ensures
        t.all_short(),
{
    let old = s.leaves[at]@;
    lemma_upper_bound(old, e.key);
    let u = upper_bound(old, e.key);
    let es = old.insert(u, e);
    assert(short_keys(old));
    lemma_short_insert(old, u, e);
    if cut {
        let k = leaf_split_index(es);
        lemma_short_parts(es, 0, k);
        lemma_short_parts(es, k, es.len() as int);
        assert(es.subrange(0, k) =~= es.take(k));
        assert(es.subrange(k, es.len() as int) =~= es.skip(k));
    }
    assert forall|a: int| 0 <= a < t.leaves.len() implies short_keys(#[trigger] t.leaves[a]@) by {
        if a != at && a < s.leaves.len() {
            assert(short_keys(s.leaves[a]@));
        }
    }
    assert forall|b: int| 0 <= b < t.branches.len() implies short_keys(
        #[trigger] t.branches[b]@,
    ) by {
        assert(short_keys(s.branches[b]@));
    }
}

/// A store of short keys is one after a branch took in a short separator,
/// in place or by a cut.
pub proof fn lemma_short_after_branch(
    t: State,
    u: State,
    at: int,
    i: int,
    sep: Seq<u8>,
    left: Node,
    right: Node,
    half: Option<int>,
)
    requires
        t.all_short(),
        sep.len() <= MAX_KEY_LEN,
        0 <= at < t.branches.len(),
        0 <= i <= t.branches[at]@.len(),
        u.leaves == t.leaves,
        forall|b: int|
            0 <= b < t.branches.len() && b != at ==> #[trigger] u.branches[b] == t.branches[b],
        half is None ==> u.branches.len() == t.branches.len() && u.branches[at]@ == absorbed(
            t.branches[at]@,
            i,
            sep,
            left,
            right,
        ),
        half matches Some(h) ==> ({
            let es = absorbed(t.branches[at]@, i, sep, left, right);
            let mid = branch_split_index(es);
            &&& h == t.branches.len()
            &&& u.branches.len() == h + 1
            &&& u.branches[h]@ == es.take(mid)
            &&& u.branches[at]@ == es.skip(mid + 1)
        }),
    ensures
        u.all_short(),
        half is Some ==> absorbed(t.branches[at]@, i, sep, left, right)[branch_split_index(
            absorbed(t.branches[at]@, i, sep, left, right),
        )].key.len() <= MAX_KEY_LEN,
{
    let es = absorbed(t.branches[at]@, i, sep, left, right);
    assert(short_keys(t.branches[at]@));
    lemma_short_absorbed(t.branches[at]@, i, sep, left, right);
    let mid = branch_split_index(es);
    lemma_short_parts(es, 0, mid);
    lemma_short_parts(es, mid + 1, es.len() as int);
    assert(es.subrange(0, mid) =~= es.take(mid));
    assert(es.subrange(mid + 1, es.len() as int) =~= es.skip(mid + 1));
    assert forall|b: int| 0 <= b < u.branches.len() implies short_keys(
        #[trigger] u.branches[b]@,
    ) by {
        if b != at && b < t.branches.len() {
            assert(short_keys(t.branches[b]@));
        }
    }
    assert forall|a: int| 0 <= a < u.leaves.len() implies short_keys(#[trigger] u.leaves[a]@) by {
        assert(short_keys(t.leaves[a]@));
    }
    if half is Some {
        assert(es[mid].key.len() <= MAX_KEY_LEN);
    }
}

} // verus!
