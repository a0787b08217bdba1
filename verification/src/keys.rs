//! Byte-lexicographic order on keys, common prefixes, minimum separators and
//! the four-byte fingerprint that slot descriptors cache.

use vstd::prelude::*;

verus! {

/// `a` is smaller than `b` in byte-lexicographic order, where the two are
/// already known to agree on every position before `i`.
pub open spec fn lex_lt_from(a: Seq<u8>, b: Seq<u8>, i: int) -> bool
    decreases b.len() - i,
{
    if i < 0 || i >= b.len() {
        false
    } else if i >= a.len() {
        true
    } else if a[i] != b[i] {
        a[i] < b[i]
    } else {
        lex_lt_from(a, b, i + 1)
    }
}

/// Strict byte-lexicographic order: a proper prefix is smaller than the key it
/// is a prefix of, otherwise the first differing byte decides.
pub open spec fn lex_lt(a: Seq<u8>, b: Seq<u8>) -> bool {
    lex_lt_from(a, b, 0)
}

/// Non-strict byte-lexicographic order.
pub open spec fn lex_le(a: Seq<u8>, b: Seq<u8>) -> bool {
    !lex_lt(b, a)
}

/// The two keys hold the same bytes on every position before `n`.
pub open spec fn agree_before(a: Seq<u8>, b: Seq<u8>, n: int) -> bool {
    &&& n <= a.len()
    &&& n <= b.len()
    &&& forall|j: int| 0 <= j < n ==> a[j] == b[j]
}

/// First position at or after `i` where the two keys differ or one of them
/// ends.
pub open spec fn mismatch_from(a: Seq<u8>, b: Seq<u8>, i: int) -> int
    decreases a.len() - i,
{
    if 0 <= i < a.len() && i < b.len() && a[i] == b[i] {
        mismatch_from(a, b, i + 1)
    } else {
        i
    }
}

/// Length of the longest common prefix of the two keys.
pub open spec fn common_prefix_len(a: Seq<u8>, b: Seq<u8>) -> int {
    mismatch_from(a, b, 0)
}

/// The shortest prefix of `b` that is greater than `a`; meaningful where
/// `a` is smaller than `b`.
pub open spec fn min_separator(a: Seq<u8>, b: Seq<u8>) -> Seq<u8> {
    b.take(common_prefix_len(a, b) + 1)
}

/// Byte `i` of the key, or zero past its end.
pub open spec fn padded_byte(k: Seq<u8>, i: int) -> int {
    if 0 <= i < k.len() {
        k[i] as int
    } else {
        0
    }
}

/// Big-endian packing of the first four bytes of the key, zero-padded.
pub open spec fn fingerprint(k: Seq<u8>) -> int {
    padded_byte(k, 0) * 16777216 + padded_byte(k, 1) * 65536 + padded_byte(k, 2) * 256
        + padded_byte(k, 3)
}

pub proof fn lemma_lex_from_agree(a: Seq<u8>, b: Seq<u8>, i: int)
    requires
        0 <= i,
        agree_before(a, b, i),
    ensures
        lex_lt(a, b) == lex_lt_from(a, b, i),
    decreases i,
{
    if i > 0 {
        lemma_lex_from_agree(a, b, i - 1);
    }
}

proof fn lemma_irreflexive_from(a: Seq<u8>, i: int)
    requires
        0 <= i,
    ensures
        !lex_lt_from(a, a, i),
    decreases a.len() - i,
{
    if i < a.len() {
        lemma_irreflexive_from(a, i + 1);
    }
}

/// No key is smaller than itself.
pub proof fn lemma_lex_irreflexive(a: Seq<u8>)
    ensures
        !lex_lt(a, a),
{
    lemma_irreflexive_from(a, 0);
}

proof fn lemma_transitive_from(a: Seq<u8>, b: Seq<u8>, c: Seq<u8>, i: int)
    requires
        0 <= i,
        lex_lt_from(a, b, i),
        lex_lt_from(b, c, i),
    ensures
        lex_lt_from(a, c, i),
    decreases c.len() - i,
{
    if i < a.len() && i < b.len() && i < c.len() && a[i] == b[i] && b[i] == c[i] {
        lemma_transitive_from(a, b, c, i + 1);
    }
}

/// The strict order is transitive.
pub proof fn lemma_lex_transitive(a: Seq<u8>, b: Seq<u8>, c: Seq<u8>)
    requires
        lex_lt(a, b),
        lex_lt(b, c),
    ensures
        lex_lt(a, c),
{
    lemma_transitive_from(a, b, c, 0);
}

proof fn lemma_total_from(a: Seq<u8>, b: Seq<u8>, i: int)
    requires
        0 <= i,
        agree_before(a, b, i),
        !lex_lt_from(a, b, i),
        !lex_lt_from(b, a, i),
    ensures
        a == b,
    decreases a.len() - i,
{
    if i < a.len() && i < b.len() {
        assert forall|j: int| 0 <= j < i + 1 implies a[j] == b[j] by {
            if j < i {
            }
        }
        lemma_total_from(a, b, i + 1);
    } else {
        assert(a =~= b);
    }
}

/// Two keys of which neither is smaller than the other are equal.
pub proof fn lemma_lex_total(a: Seq<u8>, b: Seq<u8>)
    requires
        !lex_lt(a, b),
        !lex_lt(b, a),
    ensures
        a == b,
{
    lemma_total_from(a, b, 0);
}

proof fn lemma_asymmetric_from(a: Seq<u8>, b: Seq<u8>, i: int)
    requires
        0 <= i,
        lex_lt_from(a, b, i),
    ensures
        !lex_lt_from(b, a, i),
    decreases b.len() - i,
{
    if i < a.len() && i < b.len() && a[i] == b[i] {
        lemma_asymmetric_from(a, b, i + 1);
    }
}

/// Of two keys at most one is smaller than the other.
pub proof fn lemma_lex_asymmetric(a: Seq<u8>, b: Seq<u8>)
    requires
        lex_lt(a, b),
    ensures
        !lex_lt(b, a),
        a != b,
{
    lemma_asymmetric_from(a, b, 0);
    lemma_lex_irreflexive(a);
}

/// `a < b <= c` gives `a < c`.
pub proof fn lemma_lex_lt_le(a: Seq<u8>, b: Seq<u8>, c: Seq<u8>)
    requires
        lex_lt(a, b),
        lex_le(b, c),
    ensures
        lex_lt(a, c),
{
    if lex_lt(b, c) {
        lemma_lex_transitive(a, b, c);
    } else {
        lemma_lex_total(b, c);
    }
}

/// `a <= b < c` gives `a < c`.
pub proof fn lemma_lex_le_lt(a: Seq<u8>, b: Seq<u8>, c: Seq<u8>)
    requires
        lex_le(a, b),
        lex_lt(b, c),
    ensures
        lex_lt(a, c),
{
    if lex_lt(a, b) {
        lemma_lex_transitive(a, b, c);
    } else {
        lemma_lex_total(a, b);
    }
}

proof fn lemma_mismatch_from(a: Seq<u8>, b: Seq<u8>, i: int)
    requires
        0 <= i,
        agree_before(a, b, i),
    ensures
        i <= mismatch_from(a, b, i),
        agree_before(a, b, mismatch_from(a, b, i)),
        ({
            let p = mismatch_from(a, b, i);
            p == a.len() || p == b.len() || a[p] != b[p]
        }),
    decreases a.len() - i,
{
    if i < a.len() && i < b.len() && a[i] == b[i] {
        assert forall|j: int| 0 <= j < i + 1 implies a[j] == b[j] by {
            if j < i {
            }
        }
        lemma_mismatch_from(a, b, i + 1);
    }
}

/// The common prefix is common, and it is the longest one.
pub proof fn lemma_common_prefix(a: Seq<u8>, b: Seq<u8>)
    ensures
        0 <= common_prefix_len(a, b),
        agree_before(a, b, common_prefix_len(a, b)),
        ({
            let p = common_prefix_len(a, b);
            p == a.len() || p == b.len() || a[p] != b[p]
        }),
{
    lemma_mismatch_from(a, b, 0);
}

/// Any position up to which the keys agree and at which they part is the
/// length of the common prefix.
pub proof fn lemma_common_prefix_unique(a: Seq<u8>, b: Seq<u8>, n: int)
    requires
        0 <= n,
        agree_before(a, b, n),
        n == a.len() || n == b.len() || a[n] != b[n],
    ensures
        common_prefix_len(a, b) == n,
{
    lemma_common_prefix(a, b);
    let p = common_prefix_len(a, b);
    if p < n {
        assert(a[p] == b[p]);
    } else if n < p {
        assert(a[n] == b[n]);
    }
}

/// The minimum separator of `a < b` is a prefix of `b` one byte longer than
/// the common prefix; it lies strictly above `a` and not above `b`, and no
/// shorter prefix of `b` lies above `a`.
pub proof fn lemma_min_separator(a: Seq<u8>, b: Seq<u8>)
    requires
        lex_lt(a, b),
    ensures
        common_prefix_len(a, b) < b.len(),
        min_separator(a, b).len() == common_prefix_len(a, b) + 1,
        lex_lt(a, min_separator(a, b)),
        lex_le(min_separator(a, b), b),
        forall|n: int| 0 <= n <= common_prefix_len(a, b) ==> !lex_lt(a, #[trigger] b.take(n)),
{
    lemma_common_prefix(a, b);
    let p = common_prefix_len(a, b);
    lemma_lex_from_agree(a, b, p);
    let s = min_separator(a, b);
    assert(agree_before(a, s, p));
    lemma_lex_from_agree(a, s, p);
    assert(agree_before(b, s, p + 1));
    lemma_lex_from_agree(b, s, p + 1);
    assert forall|n: int| 0 <= n <= p implies !lex_lt(a, #[trigger] b.take(n)) by {
        let t = b.take(n);
        assert(agree_before(a, t, n));
        lemma_lex_from_agree(a, t, n);
    }
}

/// A key with a smaller fingerprint is a smaller key.
pub proof fn lemma_fingerprint_order(a: Seq<u8>, b: Seq<u8>)
    requires
        fingerprint(a) < fingerprint(b),
    ensures
        lex_lt(a, b),
{
    reveal_with_fuel(lex_lt_from, 5);
}

/// Whether `a` is smaller than `b` in byte-lexicographic order.
pub fn key_lt(a: &[u8], b: &[u8]) -> (r: bool)
    ensures
        r == lex_lt(a@, b@),
{
    let mut i: usize = 0;
    while i < a.len() && i < b.len()
        invariant
            agree_before(a@, b@, i as int),
        decreases a.len() - i,
    {
        if a[i] != b[i] {
            proof {
                lemma_lex_from_agree(a@, b@, i as int);
            }
            return a[i] < b[i];
        }
        i += 1;
    }
    proof {
        lemma_lex_from_agree(a@, b@, i as int);
    }
    i < b.len()
}

/// Whether the two keys hold the same bytes.
pub fn key_eq(a: &[u8], b: &[u8]) -> (r: bool)
    ensures
        r == (a@ == b@),
{
    if a.len() != b.len() {
        return false;
    }
    let mut i: usize = 0;
    while i < a.len()
        invariant
            a.len() == b.len(),
            agree_before(a@, b@, i as int),
        decreases a.len() - i,
    {
        if a[i] != b[i] {
            return false;
        }
        i += 1;
    }
    proof {
        assert(a@ =~= b@);
    }
    true
}

/// Length of the longest common prefix of the two keys.
pub fn common_prefix(xs: &[u8], ys: &[u8]) -> (n: usize)
    ensures
        n == common_prefix_len(xs@, ys@),
        n <= xs@.len(),
        n <= ys@.len(),
{
    let mut i: usize = 0;
    while i < xs.len() && i < ys.len() && xs[i] == ys[i]
        invariant
            agree_before(xs@, ys@, i as int),
        decreases xs.len() - i,
    {
        i += 1;
    }
    proof {
        lemma_common_prefix_unique(xs@, ys@, i as int);
    }
    i
}

/// Big-endian packing of the first four bytes of the key, zero-padded.
pub fn key_fingerprint(key: &[u8]) -> (f: u32)
    ensures
        f == fingerprint(key@),
{
    let b0: u32 = if key.len() > 0 { key[0] as u32 } else { 0 };
    let b1: u32 = if key.len() > 1 { key[1] as u32 } else { 0 };
    let b2: u32 = if key.len() > 2 { key[2] as u32 } else { 0 };
    let b3: u32 = if key.len() > 3 { key[3] as u32 } else { 0 };
    b0 * 16777216 + b1 * 65536 + b2 * 256 + b3
}

} // verus!
