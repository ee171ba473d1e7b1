//! Keys are byte strings, ordered lexicographically byte by byte.
//!
//! The order is defined through the length of the longest common prefix of two
//! keys: `a` sorts before `b` when, at the first position where they part, `a`
//! has ended or holds the smaller byte.
use vstd::prelude::*;

verus! {

/// The outcome of comparing two keys.
#[derive(Clone, Copy, Debug, PartialEq, Eq)]
pub enum KeyOrder {
    Less,
    Equal,
    Greater,
}

/// The first position at or after `i` where `a` and `b` differ or one of them ends.
pub open spec fn first_diff_from(a: Seq<u8>, b: Seq<u8>, i: nat) -> nat
    decreases a.len() - i,
{
    if i < a.len() && i < b.len() && a[i as int] == b[i as int] {
        first_diff_from(a, b, i + 1)
    } else {
        i
    }
}

/// The length of the longest common prefix of `a` and `b`.
pub open spec fn first_diff(a: Seq<u8>, b: Seq<u8>) -> nat {
    first_diff_from(a, b, 0)
}

/// `a` sorts strictly before `b` in byte-lexicographic order.
pub open spec fn key_lt(a: Seq<u8>, b: Seq<u8>) -> bool {
    let n = first_diff(a, b);
    n < b.len() && (n == a.len() || a[n as int] < b[n as int])
}

/// `a` sorts before `b` or equals it.
pub open spec fn key_le(a: Seq<u8>, b: Seq<u8>) -> bool {
    !key_lt(b, a)
}

/// The three-way comparison of two keys.
pub open spec fn key_order(a: Seq<u8>, b: Seq<u8>) -> KeyOrder {
    if key_lt(a, b) {
        KeyOrder::Less
    } else if a == b {
        KeyOrder::Equal
    } else {
        KeyOrder::Greater
    }
}

/// `n` is where `a` and `b` first differ, when they agree on everything before
/// position `n` and do not agree at it.
pub proof fn lemma_first_diff_is(a: Seq<u8>, b: Seq<u8>, i: nat, n: nat)
    requires
        i <= n <= a.len(),
        n <= b.len(),
        forall|j: int| i <= j < n ==> a[j] == b[j],
        n == a.len() || n == b.len() || a[n as int] != b[n as int],
    ensures
        first_diff_from(a, b, i) == n,
    decreases n - i,
{
    if i < n {
        lemma_first_diff_is(a, b, i + 1, n);
    }
}

/// What `first_diff_from` returns: the keys agree from `i` up to it, and part there.
pub proof fn lemma_first_diff_props(a: Seq<u8>, b: Seq<u8>, i: nat)
    requires
        i <= a.len(),
        i <= b.len(),
    ensures
        i <= first_diff_from(a, b, i) <= a.len(),
        first_diff_from(a, b, i) <= b.len(),
        forall|j: int| i <= j < first_diff_from(a, b, i) ==> a[j] == b[j],
        ({
            let n = first_diff_from(a, b, i);
            n == a.len() || n == b.len() || a[n as int] != b[n as int]
        }),
    decreases a.len() - i,
{
    if i < a.len() && i < b.len() && a[i as int] == b[i as int] {
        lemma_first_diff_props(a, b, i + 1);
    }
}

/// The common prefix of `a` and `b` is that of `b` and `a`.
pub proof fn lemma_first_diff_symmetric(a: Seq<u8>, b: Seq<u8>)
    ensures
        first_diff(a, b) == first_diff(b, a),
{
    lemma_first_diff_props(a, b, 0);
    lemma_first_diff_is(b, a, 0, first_diff(a, b));
}

/// No key sorts before itself.
pub proof fn lemma_key_lt_irreflexive(a: Seq<u8>)
    ensures
        !key_lt(a, a),
{
    lemma_first_diff_is(a, a, 0, a.len());
}

/// Of two keys at most one sorts before the other.
pub proof fn lemma_key_lt_asymmetric(a: Seq<u8>, b: Seq<u8>)
    ensures
        !(key_lt(a, b) && key_lt(b, a)),
{
    lemma_first_diff_symmetric(a, b);
}

/// Two different keys are ordered one way or the other.
pub proof fn lemma_key_lt_total(a: Seq<u8>, b: Seq<u8>)
    ensures
        a == b || key_lt(a, b) || key_lt(b, a),
{
    lemma_first_diff_props(a, b, 0);
    lemma_first_diff_symmetric(a, b);
    let n = first_diff(a, b);
    if n == a.len() && n == b.len() {
        assert(a =~= b);
    }
}

/// The order is transitive.
pub proof fn lemma_key_lt_transitive(a: Seq<u8>, b: Seq<u8>, c: Seq<u8>)
    requires
        key_lt(a, b),
        key_lt(b, c),
    ensures
        key_lt(a, c),
{
    lemma_first_diff_props(a, b, 0);
    lemma_first_diff_props(b, c, 0);
    let i = first_diff(a, b);
    let j = first_diff(b, c);
    let n = if i <= j { i } else { j };
    lemma_first_diff_is(a, c, 0, n);
}

/// Mixed transitivity: `a <= b < c` and `a < b <= c` both give `a < c`.
pub proof fn lemma_key_le_lt_transitive(a: Seq<u8>, b: Seq<u8>, c: Seq<u8>)
    requires
        (key_le(a, b) && key_lt(b, c)) || (key_lt(a, b) && key_le(b, c)),
    ensures
        key_lt(a, c),
{
    lemma_key_lt_total(a, b);
    lemma_key_lt_total(b, c);
    if key_lt(a, b) && key_lt(b, c) {
        lemma_key_lt_transitive(a, b, c);
    }
}

/// `<=` is transitive.
pub proof fn lemma_key_le_transitive(a: Seq<u8>, b: Seq<u8>, c: Seq<u8>)
    requires
        key_le(a, b),
        key_le(b, c),
    ensures
        key_le(a, c),
{
    if key_lt(c, a) {
        lemma_key_le_lt_transitive(b, c, a);
    }
}

/// Two keys that are `<=` each other are the same key.
pub proof fn lemma_key_le_antisymmetric(a: Seq<u8>, b: Seq<u8>)
    requires
        key_le(a, b),
        key_le(b, a),
    ensures
        a == b,
{
    lemma_key_lt_total(a, b);
}

/// Compares two keys byte by byte.
pub fn compare_keys(a: &[u8], b: &[u8]) -> (r: KeyOrder)
    ensures
        r == key_order(a@, b@),
{
    let mut i: usize = 0;
    while i < a.len() && i < b.len() && a[i] == b[i]
        invariant
            i <= a.len(),
            i <= b.len(),
            forall|j: int| 0 <= j < i ==> a@[j] == b@[j],
        decreases a.len() - i,
    {
        i += 1;
    }
    proof {
        lemma_first_diff_is(a@, b@, 0, i as nat);
        lemma_first_diff_symmetric(a@, b@);
        if i == a.len() && i == b.len() {
            assert(a@ =~= b@);
        }
        lemma_key_lt_irreflexive(a@);
    }
    if i == b.len() {
        if i == a.len() {
            KeyOrder::Equal
        } else {
            KeyOrder::Greater
        }
    } else if i == a.len() {
        KeyOrder::Less
    } else if a[i] < b[i] {
        KeyOrder::Less
    } else {
        KeyOrder::Greater
    }
}

} // verus!
