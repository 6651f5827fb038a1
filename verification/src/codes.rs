//! Asset codes and the canonical pool key.
//!
//! An asset code is a byte string. A swap pool is keyed by the *unordered*
//! pair of its two asset codes; the canonical key is the lexicographically
//! smaller code, a separator byte, and the larger code, so that the pairs
//! `(x, y)` and `(y, x)` resolve to the same key.

use vstd::prelude::*;

verus! {

/// Separator byte between the two codes of a canonical pool key. A code that
/// contains this byte is malformed for pool purposes, so distinct pairs of
/// well-formed codes always yield distinct keys.
pub const KEY_SEPARATOR: u8 = 95;

/// Strict lexicographic order on byte strings.
pub open spec fn lex_lt(a: Seq<u8>, b: Seq<u8>) -> bool
    decreases a.len(),
{
    if b.len() == 0 {
        false
    } else if a.len() == 0 {
        true
    } else if a[0] < b[0] {
        true
    } else if a[0] == b[0] {
        lex_lt(a.skip(1), b.skip(1))
    } else {
        false
    }
}

/// A code is well formed for pool keys when it does not contain the separator.
pub open spec fn valid_code(c: Seq<u8>) -> bool {
    forall|i: int| 0 <= i < c.len() ==> c[i] != KEY_SEPARATOR
}

/// The canonical key of the unordered pair `(a, b)`: smaller code, separator,
/// larger code.
pub open spec fn canonical_key(a: Seq<u8>, b: Seq<u8>) -> Seq<u8> {
    if lex_lt(b, a) {
        b + seq![KEY_SEPARATOR] + a
    } else {
        a + seq![KEY_SEPARATOR] + b
    }
}

/// The lexicographic order is asymmetric: at most one of `a < b`, `b < a`.
pub proof fn lemma_lex_asymmetric(a: Seq<u8>, b: Seq<u8>)
    ensures
        !(lex_lt(a, b) && lex_lt(b, a)),
    decreases a.len(),
{
    if a.len() > 0 && b.len() > 0 && a[0] == b[0] {
        lemma_lex_asymmetric(a.skip(1), b.skip(1));
    }
}

/// The lexicographic order is connex: incomparable byte strings are equal.
pub proof fn lemma_lex_connex(a: Seq<u8>, b: Seq<u8>)
    requires
        !lex_lt(a, b),
        !lex_lt(b, a),
    ensures
        a == b,
    decreases a.len(),
{
    if a.len() == 0 || b.len() == 0 {
        assert(a =~= b);
    } else {
        lemma_lex_connex(a.skip(1), b.skip(1));
        assert(a =~= seq![a[0]] + a.skip(1));
        assert(b =~= seq![b[0]] + b.skip(1));
    }
}

/// The canonical key does not depend on the order the two codes are given in.
pub proof fn lemma_canonical_key_symmetric(a: Seq<u8>, b: Seq<u8>)
    ensures
        canonical_key(a, b) == canonical_key(b, a),
{
    lemma_lex_asymmetric(a, b);
    if !lex_lt(a, b) && !lex_lt(b, a) {
        lemma_lex_connex(a, b);
    }
}

/// Byte-string equality.
pub fn bytes_eq(a: &[u8], b: &[u8]) -> (r: bool)
    ensures
        r == (a@ == b@),
{
    if a.len() != b.len() {
        return false;
    }
    let n = a.len();
    let mut i: usize = 0;
    while i < n
        invariant
            0 <= i <= n,
            n == a@.len() == b@.len(),
            forall|j: int| 0 <= j < i ==> a@[j] == b@[j],
        decreases n - i,
    {
        if a[i] != b[i] {
            return false;
        }
        i = i + 1;
    }
    proof {
        assert(a@ =~= b@);
    }
    true
}

/// Decides the strict lexicographic order on byte strings.
pub fn bytes_lt(a: &[u8], b: &[u8]) -> (r: bool)
    ensures
        r == lex_lt(a@, b@),
{
    let mut i: usize = 0;
    proof {
        assert(a@.skip(0) =~= a@);
        assert(b@.skip(0) =~= b@);
    }
    loop
        invariant
            0 <= i <= a@.len(),
            0 <= i <= b@.len(),
            forall|j: int| 0 <= j < i ==> a@[j] == b@[j],
            lex_lt(a@, b@) == lex_lt(a@.skip(i as int), b@.skip(i as int)),
        decreases a@.len() - i,
    {
        if i == b.len() {
            return false;
        }
        if i == a.len() {
            return true;
        }
        let ca = a[i];
        let cb = b[i];
        if ca < cb {
            return true;
        }
        if ca > cb {
            return false;
        }
        proof {
            assert(a@.skip(i as int).skip(1) =~= a@.skip(i as int + 1));
            assert(b@.skip(i as int).skip(1) =~= b@.skip(i as int + 1));
        }
        i = i + 1;
    }
}

/// Whether a byte string contains the key separator.
pub fn contains_separator(c: &[u8]) -> (r: bool)
    ensures
        r == !valid_code(c@),
{
    let n = c.len();
    let mut i: usize = 0;
    while i < n
        invariant
            0 <= i <= n,
            n == c@.len(),
            forall|j: int| 0 <= j < i ==> c@[j] != KEY_SEPARATOR,
        decreases n - i,
    {
        if c[i] == KEY_SEPARATOR {
            return true;
        }
        i = i + 1;
    }
    false
}

/// Builds the canonical key of the unordered pair `(a, b)`.
pub fn make_canonical_key(a: &[u8], b: &[u8]) -> (r: Vec<u8>)
    ensures
        r@ == canonical_key(a@, b@),
{
    let (lo, hi) = if bytes_lt(b, a) { (b, a) } else { (a, b) };
    let mut key: Vec<u8> = Vec::new();
    key.extend_from_slice(lo);
    key.push(KEY_SEPARATOR);
    key.extend_from_slice(hi);
    proof {
        assert(key@ =~= lo@ + seq![KEY_SEPARATOR] + hi@);
    }
    key
}

} // verus!
