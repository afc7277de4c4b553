//! The order on keys: strings compared lexicographically by code point.
use vstd::prelude::*;

use std::cmp::Ordering;

verus! {

/// `a` sorts strictly before `b`: at the first position where they differ the
/// code point of `a` is smaller, or `a` is a proper prefix of `b`.
pub open spec fn key_lt(a: Seq<char>, b: Seq<char>) -> bool
    decreases a.len(),
{
    if a.len() == 0 {
        b.len() > 0
    } else if b.len() == 0 {
        false
    } else if a[0] != b[0] {
        (a[0] as int) < (b[0] as int)
    } else {
        key_lt(a.drop_first(), b.drop_first())
    }
}

/// The three-way comparison of two keys.
pub open spec fn key_cmp(a: Seq<char>, b: Seq<char>) -> Ordering {
    if a == b {
        Ordering::Equal
    } else if key_lt(a, b) {
        Ordering::Less
    } else {
        Ordering::Greater
    }
}

/// No key sorts before itself.
pub proof fn lemma_key_lt_irreflexive(a: Seq<char>)
    ensures
        !key_lt(a, a),
    decreases a.len(),
{
    if a.len() > 0 {
        lemma_key_lt_irreflexive(a.drop_first());
    }
}

/// Of two distinct keys exactly one sorts before the other.
pub proof fn lemma_key_lt_total(a: Seq<char>, b: Seq<char>)
    ensures
        a != b ==> (key_lt(a, b) || key_lt(b, a)),
        !(key_lt(a, b) && key_lt(b, a)),
    decreases a.len(),
{
    if a.len() > 0 && b.len() > 0 {
        if a[0] == b[0] {
            lemma_key_lt_total(a.drop_first(), b.drop_first());
            if a.drop_first() == b.drop_first() {
                assert(a =~= seq![a[0]] + a.drop_first());
                assert(b =~= seq![b[0]] + b.drop_first());
            }
        }
    } else if a.len() == 0 && b.len() == 0 {
        assert(a =~= b);
    }
}

/// The order on keys is transitive.
pub proof fn lemma_key_lt_transitive(a: Seq<char>, b: Seq<char>, c: Seq<char>)
    requires
        key_lt(a, b),
        key_lt(b, c),
    ensures
        key_lt(a, c),
    decreases a.len(),
{
    if a.len() > 0 && a[0] == b[0] && b[0] == c[0] {
        lemma_key_lt_transitive(a.drop_first(), b.drop_first(), c.drop_first());
    }
}

/// A key that sorts before a key no greater than a third sorts before the third.
pub proof fn lemma_key_lt_le(a: Seq<char>, b: Seq<char>, c: Seq<char>)
    requires
        key_lt(a, b),
        !key_lt(c, b),
    ensures
        key_lt(a, c),
{
    lemma_key_lt_total(b, c);
    if b != c {
        lemma_key_lt_transitive(a, b, c);
    }
}

/// A key no greater than a second that sorts before a third sorts before the third.
pub proof fn lemma_key_le_lt(a: Seq<char>, b: Seq<char>, c: Seq<char>)
    requires
        !key_lt(b, a),
        key_lt(b, c),
    ensures
        key_lt(a, c),
{
    lemma_key_lt_total(a, b);
    if a != b {
        lemma_key_lt_transitive(a, b, c);
    }
}

/// Relies on `Ord for str`: strings are ordered lexicographically by their
/// bytes, which orders them by code point.
#[verifier::external_body]
pub(crate) fn compare_keys(a: &str, b: &str) -> (r: Ordering)
    ensures
        r == key_cmp(a@, b@),
{
    a.cmp(b)
}

} // verus!
