//! The lexicographic order on byte strings.

use vstd::prelude::*;

verus! {

/// The length of the longest common prefix of `a` and `b`.
pub open spec fn common_prefix(a: Seq<u8>, b: Seq<u8>) -> nat
    decreases a.len(),
{
    if a.len() > 0 && b.len() > 0 && a[0] == b[0] {
        1 + common_prefix(a.drop_first(), b.drop_first())
    } else {
        0
    }
}

/// `a` comes strictly before `b` in the lexicographic order.
pub open spec fn lex_lt(a: Seq<u8>, b: Seq<u8>) -> bool
    decreases a.len(),
{
    if b.len() == 0 {
        false
    } else if a.len() == 0 {
        true
    } else if a[0] != b[0] {
        a[0] < b[0]
    } else {
        lex_lt(a.drop_first(), b.drop_first())
    }
}

/// `a` is `b` or comes before it.
pub open spec fn lex_le(a: Seq<u8>, b: Seq<u8>) -> bool {
    a == b || lex_lt(a, b)
}

/// Each key comes strictly before every key that follows it.
pub open spec fn strictly_increasing(keys: Seq<Seq<u8>>) -> bool {
    forall|i: int, j: int| 0 <= i < j < keys.len() ==> lex_lt(#[trigger] keys[i], #[trigger] keys[j])
}

/// The common prefix is shared by both strings, and cannot be extended.
pub proof fn lemma_common_prefix(a: Seq<u8>, b: Seq<u8>)
    ensures
        common_prefix(a, b) <= a.len(),
        common_prefix(a, b) <= b.len(),
        forall|i: int| 0 <= i < common_prefix(a, b) ==> a[i] == b[i],
        common_prefix(a, b) == a.len() || common_prefix(a, b) == b.len()
            || a[common_prefix(a, b) as int] != b[common_prefix(a, b) as int],
    decreases a.len(),
{
    if a.len() > 0 && b.len() > 0 && a[0] == b[0] {
        lemma_common_prefix(a.drop_first(), b.drop_first());
        let n = common_prefix(a.drop_first(), b.drop_first());
        assert forall|i: int| 0 <= i < n + 1 implies a[i] == b[i] by {
            if i > 0 {
                assert(a.drop_first()[i - 1] == b.drop_first()[i - 1]);
            }
        }
    }
}

/// A shared prefix that cannot be extended is the common prefix.
pub proof fn lemma_common_prefix_unique(a: Seq<u8>, b: Seq<u8>, n: int)
    requires
        0 <= n <= a.len(),
        n <= b.len(),
        forall|i: int| 0 <= i < n ==> a[i] == b[i],
        n == a.len() || n == b.len() || a[n] != b[n],
    ensures
        common_prefix(a, b) == n,
{
    lemma_common_prefix(a, b);
    let m = common_prefix(a, b) as int;
    if m < n {
        assert(a[m] == b[m]);
    } else if n < m {
        assert(a[n] == b[n]);
    }
}

/// The order is decided by what follows the common prefix.
pub proof fn lemma_lex_lt_at(a: Seq<u8>, b: Seq<u8>)
    ensures
        ({
            let n = common_prefix(a, b) as int;
            lex_lt(a, b) <==> n < b.len() && (n == a.len() || a[n] < b[n])
        }),
    decreases a.len(),
{
    lemma_common_prefix(a, b);
    if a.len() > 0 && b.len() > 0 && a[0] == b[0] {
        lemma_lex_lt_at(a.drop_first(), b.drop_first());
        lemma_common_prefix(a.drop_first(), b.drop_first());
    }
}

pub proof fn lemma_lex_lt_irreflexive(a: Seq<u8>)
    ensures
        !lex_lt(a, a),
    decreases a.len(),
{
    if a.len() > 0 {
        lemma_lex_lt_irreflexive(a.drop_first());
    }
}

pub proof fn lemma_lex_lt_transitive(a: Seq<u8>, b: Seq<u8>, c: Seq<u8>)
    requires
        lex_lt(a, b),
        lex_lt(b, c),
    ensures
        lex_lt(a, c),
    decreases a.len(),
{
    if a.len() > 0 && a[0] == b[0] && b[0] == c[0] {
        lemma_lex_lt_transitive(a.drop_first(), b.drop_first(), c.drop_first());
    }
}

/// Any two strings are equal or one comes before the other.
pub proof fn lemma_lex_lt_total(a: Seq<u8>, b: Seq<u8>)
    ensures
        a == b || lex_lt(a, b) || lex_lt(b, a),
    decreases a.len(),
{
    if a.len() > 0 && b.len() > 0 && a[0] == b[0] {
        lemma_lex_lt_total(a.drop_first(), b.drop_first());
        if a.drop_first() == b.drop_first() {
            assert(a =~= seq![a[0]] + a.drop_first());
            assert(b =~= seq![b[0]] + b.drop_first());
        }
    } else if a.len() == 0 && b.len() == 0 {
        assert(a =~= b);
    }
}

/// Given two byte strings, returns the length of the longest common prefix.
pub fn common_prefix_len(left: &[u8], right: &[u8]) -> (len: usize)
    ensures
        len == common_prefix(left@, right@),
        len <= left@.len(),
        len <= right@.len(),
        left@.take(len as int) == right@.take(len as int),
        len == left@.len() || len == right@.len() || left@[len as int] != right@[len as int],
{
    let mut len: usize = 0;
    while len < left.len() && len < right.len() && left[len] == right[len]
        invariant
            len <= left@.len(),
            len <= right@.len(),
            forall|i: int| 0 <= i < len ==> left@[i] == right@[i],
        decreases left@.len() - len,
    {
        len += 1;
    }
    proof {
        lemma_common_prefix_unique(left@, right@, len as int);
    }
    assert(left@.take(len as int) =~= right@.take(len as int));
    len
}

/// Tells whether `left` comes strictly before `right`.
pub fn is_less(left: &[u8], right: &[u8]) -> (less: bool)
    ensures
        less == lex_lt(left@, right@),
{
    let len = common_prefix_len(left, right);
    proof {
        lemma_lex_lt_at(left@, right@);
    }
    len < right.len() && (len == left.len() || left[len] < right[len])
}

/// Tells whether the two strings are equal.
pub fn is_same(left: &[u8], right: &[u8]) -> (same: bool)
    ensures
        same == (left@ == right@),
{
    let len = common_prefix_len(left, right);
    if len == left.len() && len == right.len() {
        assert(left@.take(len as int) =~= left@);
        assert(right@.take(len as int) =~= right@);
        true
    } else {
        false
    }
}

} // verus!
