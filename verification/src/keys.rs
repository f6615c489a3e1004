//! Byte-string keys and their lexicographic order.
//!
//! Keys are UTF-8 byte strings compared byte by byte; a proper prefix
//! sorts before its extensions. The key alphabet is a format constraint,
//! not a semantic one: the index file pads key slots with NUL, and the
//! manifest — which carries keys in its space-separated, LF-terminated
//! lines — reads a field as the maximal run of bytes above the ASCII
//! space, treating every byte at or below it as a separator. A key is
//! therefore valid when it is non-empty and every byte is above the
//! ASCII space; that keeps NUL, the separators, and with them the whole
//! control range out of every key the store writes.

use vstd::prelude::*;

verus! {

/// Result of a three-way byte-string comparison.
#[derive(PartialEq, Eq, Structural, Clone, Copy, Debug)]
pub enum KeyOrder {
    Less,
    Equal,
    Greater,
}

/// Strict lexicographic order on byte strings: the first differing byte
/// decides; a proper prefix sorts before its extensions.
pub open spec fn lex_lt(a: Seq<u8>, b: Seq<u8>) -> bool
    decreases a.len(),
{
    if b.len() == 0 {
        false
    } else if a.len() == 0 {
        true
    } else if a[0] < b[0] {
        true
    } else if a[0] > b[0] {
        false
    } else {
        lex_lt(a.skip(1), b.skip(1))
    }
}

pub open spec fn lex_le(a: Seq<u8>, b: Seq<u8>) -> bool {
    lex_lt(a, b) || a == b
}

/// A key the on-disk formats can carry: non-empty, and with no byte at or
/// below the ASCII space. NUL is the index files' slot padding and the
/// manifest's tokenizer treats every byte at or below the space as a
/// field separator, so the whole range is excluded as a constraint of
/// those formats.
pub open spec fn valid_key(k: Seq<u8>) -> bool {
    &&& 1 <= k.len()
    &&& forall|i: int| 0 <= i < k.len() ==> k[i] > 32u8
}

/// The lexicographic order is total: exactly one of `a < b`, `a == b`,
/// `b < a` holds.
pub proof fn lemma_lex_total(a: Seq<u8>, b: Seq<u8>)
    ensures
        lex_lt(a, b) || lex_lt(b, a) || a == b,
        lex_lt(a, b) ==> !lex_lt(b, a) && a != b,
        lex_lt(b, a) ==> !lex_lt(a, b) && a != b,
    decreases a.len(),
{
    if a.len() == 0 && b.len() == 0 {
        assert(a =~= b);
    } else if a.len() > 0 && b.len() > 0 && a[0] == b[0] {
        lemma_lex_total(a.skip(1), b.skip(1));
        if a.skip(1) == b.skip(1) {
            assert forall|j: int| 0 <= j < a.len() implies a[j] == b[j] by {
                if j > 0 {
                    assert(a[j] == a.skip(1)[j - 1]);
                    assert(b[j] == b.skip(1)[j - 1]);
                }
            }
            assert(a =~= b);
        }
        if a == b {
            assert(a.skip(1) =~= b.skip(1));
        }
    }
}

/// Strict lexicographic order is transitive.
pub proof fn lemma_lex_lt_trans(a: Seq<u8>, b: Seq<u8>, c: Seq<u8>)
    requires
        lex_lt(a, b),
        lex_lt(b, c),
    ensures
        lex_lt(a, c),
    decreases a.len(),
{
    if a.len() > 0 {
        if a[0] == b[0] && b[0] == c[0] {
            lemma_lex_lt_trans(a.skip(1), b.skip(1), c.skip(1));
        }
    }
}

/// How a comparison is decided once a common prefix of length `i` is known:
/// the next byte decides, or the shorter string sorts first.
pub proof fn lemma_lex_from_prefix(a: Seq<u8>, b: Seq<u8>, i: int)
    requires
        0 <= i <= a.len(),
        i <= b.len(),
        a.take(i) == b.take(i),
    ensures
        (i < a.len() && i < b.len() && a[i] < b[i]) ==> lex_lt(a, b),
        (i < a.len() && i < b.len() && a[i] > b[i]) ==> lex_lt(b, a),
        (i == a.len() && i < b.len()) ==> lex_lt(a, b),
        (i == b.len() && i < a.len()) ==> lex_lt(b, a),
        (i == a.len() && i == b.len()) ==> a == b,
    decreases i,
{
    if i == 0 {
        if a.len() == 0 && b.len() == 0 {
            assert(a =~= b);
        }
    } else {
        assert(a[0] == a.take(i)[0]);
        assert(b[0] == b.take(i)[0]);
        assert(a.skip(1).take(i - 1) =~= a.take(i).skip(1));
        assert(b.skip(1).take(i - 1) =~= b.take(i).skip(1));
        lemma_lex_from_prefix(a.skip(1), b.skip(1), i - 1);
        if i == a.len() && i == b.len() && a.skip(1) == b.skip(1) {
            assert forall|j: int| 0 <= j < a.len() implies a[j] == b[j] by {
                if j > 0 {
                    assert(a[j] == a.skip(1)[j - 1]);
                    assert(b[j] == b.skip(1)[j - 1]);
                }
            }
            assert(a =~= b);
        }
    }
}

/// Three-way comparison of two byte strings in the lexicographic order.
pub fn key_compare(a: &[u8], b: &[u8]) -> (r: KeyOrder)
    ensures
        (r == KeyOrder::Less) == lex_lt(a@, b@),
        (r == KeyOrder::Equal) == (a@ == b@),
        (r == KeyOrder::Greater) == lex_lt(b@, a@),
{
    let mut i: usize = 0;
    loop
        invariant
            i <= a@.len(),
            i <= b@.len(),
            a@.take(i as int) == b@.take(i as int),
        decreases a@.len() - i,
    {
        if i == a.len() || i == b.len() {
            proof {
                lemma_lex_total(a@, b@);
                lemma_lex_from_prefix(a@, b@, i as int);
            }
            if a.len() == b.len() {
                return KeyOrder::Equal;
            } else if i == a.len() {
                return KeyOrder::Less;
            } else {
                return KeyOrder::Greater;
            }
        }
        let x = a[i];
        let y = b[i];
        if x < y {
            proof {
                lemma_lex_total(a@, b@);
                lemma_lex_from_prefix(a@, b@, i as int);
            }
            return KeyOrder::Less;
        } else if x > y {
            proof {
                lemma_lex_total(a@, b@);
                lemma_lex_from_prefix(a@, b@, i as int);
            }
            return KeyOrder::Greater;
        }
        proof {
            assert(a@.take(i + 1 as int) =~= b@.take(i + 1 as int));
        }
        i = i + 1;
    }
}

/// Whether a byte string is a key the on-disk formats can carry.
pub fn check_valid_key(k: &[u8]) -> (r: bool)
    ensures
        r == valid_key(k@),
{
    if k.len() == 0 {
        return false;
    }
    let mut i: usize = 0;
    while i < k.len()
        invariant
            i <= k@.len(),
            forall|j: int| 0 <= j < i ==> k@[j] > 32u8,
        decreases k@.len() - i,
    {
        if k[i] <= 32 {
            return false;
        }
        i = i + 1;
    }
    true
}

/// Strings ordered between neighbours are ordered between any two.
pub proof fn lemma_lt_chain(keys: Seq<Seq<u8>>, i: int, j: int)
    requires
        forall|t: int| 0 <= t < keys.len() - 1 ==> lex_lt(#[trigger] keys[t], keys[t + 1]),
        0 <= i < j < keys.len(),
    ensures
        lex_lt(keys[i], keys[j]),
    decreases j - i,
{
    if j == i + 1 {
        assert(lex_lt(keys[i], keys[i + 1]));
    } else {
        lemma_lt_chain(keys, i, j - 1);
        assert(lex_lt(keys[j - 1], keys[j]));
        lemma_lex_lt_trans(keys[i], keys[j - 1], keys[j]);
    }
}

/// Whether two byte strings are equal.
pub fn bytes_eq(a: &[u8], b: &[u8]) -> (r: bool)
    ensures
        r == (a@ == b@),
{
    match key_compare(a, b) {
        KeyOrder::Equal => true,
        _ => false,
    }
}

} // verus!
