//! Spans of keys: what a page of a tree answers for.

use vstd::prelude::*;
use crate::keys::{
    lemma_lex_asymmetric,
    lemma_lex_irreflexive,
    lemma_lex_lt_le,
    lemma_lex_transitive,
    lex_lt,
};

verus! {


/// A span of keys: those not below `lo` and, where `hi` is given, below `hi`.
pub struct Span {
    pub lo: Seq<u8>,
    pub hi: Option<Seq<u8>>,
}

impl Span {
    /// The span of all keys.
    pub open spec fn all() -> Span {
        Span { lo: Seq::empty(), hi: None }
    }

    pub open spec fn contains(self, key: Seq<u8>) -> bool {
        &&& !lex_lt(key, self.lo)
        &&& self.hi matches Some(h) ==> lex_lt(key, h)
    }

    pub open spec fn nonempty(self) -> bool {
        self.hi matches Some(h) ==> lex_lt(self.lo, h)
    }

    /// The two spans share no key: one of them ends where the other begins,
    /// or before.
    pub open spec fn apart(self, other: Span) -> bool {
        ||| (self.hi matches Some(h) && !lex_lt(other.lo, h))
        ||| (other.hi matches Some(h) && !lex_lt(self.lo, h))
    }

    /// The part of the span below `sep`.
    pub open spec fn below(self, sep: Seq<u8>) -> Span {
        Span { lo: self.lo, hi: Some(sep) }
    }

    /// The part of the span from `sep` on.
    pub open spec fn from(self, sep: Seq<u8>) -> Span {
        Span { lo: sep, hi: self.hi }
    }

    /// `sep` lies strictly inside the span, so that it cuts it into two
    /// spans that are not empty.
    pub open spec fn cut_by(self, sep: Seq<u8>) -> bool {
        &&& lex_lt(self.lo, sep)
        &&& self.hi matches Some(h) ==> lex_lt(sep, h)
    }

    /// Every key of the span is a key of `outer`.
    pub open spec fn within(self, outer: Span) -> bool {
        &&& !lex_lt(self.lo, outer.lo)
        &&& outer.hi matches Some(h) ==> (self.hi matches Some(g) && !lex_lt(h, g))
    }

    /// A span that is not empty holds its lower end.
    pub proof fn lemma_holds_lo(self)
        requires
            self.nonempty(),
        ensures
            self.contains(self.lo),
    {
        lemma_lex_irreflexive(self.lo);
    }

    /// Spans that are apart share no key.
    pub proof fn lemma_apart(self, other: Span, key: Seq<u8>)
        requires
            self.apart(other),
            self.contains(key),
        ensures
            !other.contains(key),
    {
        if other.contains(key) {
            if self.hi is Some && !lex_lt(other.lo, self.hi.unwrap()) {
                let h = self.hi.unwrap();
                lemma_lex_lt_le(key, h, other.lo);
            } else {
                let h = other.hi.unwrap();
                lemma_lex_lt_le(key, h, self.lo);
            }
        }
    }

    /// A span inside one of two spans that are apart is apart from the
    /// other.
    pub proof fn lemma_within_apart(self, outer: Span, other: Span)
        requires
            self.within(outer),
            outer.apart(other),
        ensures
            self.apart(other),
            other.apart(self),
    {
        if outer.hi is Some && !lex_lt(other.lo, outer.hi.unwrap()) {
            let h = outer.hi.unwrap();
            let g = self.hi.unwrap();
            if lex_lt(other.lo, g) {
                lemma_lex_lt_le(other.lo, g, h);
            }
        } else {
            let h = other.hi.unwrap();
            if lex_lt(self.lo, h) {
                lemma_lex_lt_le(self.lo, h, outer.lo);
            }
        }
    }

    /// A key inside the span cuts it into two spans that are not empty,
    /// lie within it and are apart.
    pub proof fn lemma_cut(self, sep: Seq<u8>)
        requires
            self.cut_by(sep),
        ensures
            self.below(sep).nonempty(),
            self.from(sep).nonempty(),
            self.below(sep).within(self),
            self.from(sep).within(self),
            self.below(sep).apart(self.from(sep)),
            self.nonempty(),
    {
        lemma_lex_irreflexive(sep);
        lemma_lex_irreflexive(self.lo);
        lemma_lex_asymmetric(self.lo, sep);
        if self.hi is Some {
            let h = self.hi.unwrap();
            lemma_lex_irreflexive(h);
            lemma_lex_asymmetric(sep, h);
            lemma_lex_transitive(self.lo, sep, h);
        }
    }

    /// A key of a span inside another is a key of the other.
    pub proof fn lemma_within(self, outer: Span, key: Seq<u8>)
        requires
            self.within(outer),
            self.contains(key),
        ensures
            outer.contains(key),
    {
        if lex_lt(key, outer.lo) {
            lemma_lex_lt_le(key, outer.lo, self.lo);
        }
        if outer.hi is Some {
            let h = outer.hi.unwrap();
            let g = self.hi.unwrap();
            lemma_lex_lt_le(key, g, h);
        }
    }
}

} // verus!
