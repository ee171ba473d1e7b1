//! The mathematical model of the store.
//!
//! A segment is a finite map from keys to values, where the value `None` stands
//! for a tombstone. A snapshot is a sequence of segments in commit order, oldest
//! first. Its meaning is the map in which each key carries the value of the
//! newest segment that holds it. The living keys are those whose value there is
//! not a tombstone.
//!
//! Where a cursor comes to rest is stated with `lands_least` and
//! `lands_greatest`: on the least or greatest key of a set, or nowhere when the
//! set is empty.
use vstd::prelude::*;
use crate::key::{
    key_le, key_lt, lemma_key_le_antisymmetric, lemma_key_le_transitive, lemma_key_lt_irreflexive,
};

verus! {

/// The map that a list of pairs denotes: a later pair replaces an earlier one
/// with the same key.
pub open spec fn pairs_map(p: Seq<(Seq<u8>, Option<Seq<u8>>)>) -> Map<Seq<u8>, Option<Seq<u8>>>
    decreases p.len(),
{
    if p.len() == 0 {
        Map::empty()
    } else {
        pairs_map(p.drop_last()).insert(p.last().0, p.last().1)
    }
}

/// The keys of a list of pairs increase strictly.
pub open spec fn pairs_sorted(p: Seq<(Seq<u8>, Option<Seq<u8>>)>) -> bool {
    forall|i: int, j: int| 0 <= i < j < p.len() ==> key_lt(#[trigger] p[i].0, #[trigger] p[j].0)
}

/// The merged content of a snapshot: the newest segment that holds a key decides
/// its value.
pub open spec fn merged(segs: Seq<Map<Seq<u8>, Option<Seq<u8>>>>) -> Map<Seq<u8>, Option<Seq<u8>>>
    decreases segs.len(),
{
    if segs.len() == 0 {
        Map::empty()
    } else {
        merged(segs.drop_last()).union_prefer_right(segs.last())
    }
}

/// The keys of a map whose value is not a tombstone.
pub open spec fn living(m: Map<Seq<u8>, Option<Seq<u8>>>) -> Set<Seq<u8>> {
    Set::new(|k: Seq<u8>| m.dom().contains(k) && m[k] is Some)
}

/// The living keys of a snapshot.
pub open spec fn live_keys(segs: Seq<Map<Seq<u8>, Option<Seq<u8>>>>) -> Set<Seq<u8>> {
    living(merged(segs))
}

/// The keys of `s` that `f` lets through.
pub open spec fn sieve(s: Set<Seq<u8>>, f: spec_fn(Seq<u8>) -> bool) -> Set<Seq<u8>> {
    Set::new(|x: Seq<u8>| s.contains(x) && f(x))
}

/// Holds of the keys that sort after `k`, and of `k` itself unless `strict`.
pub open spec fn from_up(k: Seq<u8>, strict: bool) -> spec_fn(Seq<u8>) -> bool {
    |x: Seq<u8>| key_le(k, x) && (strict ==> x != k)
}

/// Holds of the keys that sort before `k`, and of `k` itself unless `strict`.
pub open spec fn from_down(k: Seq<u8>, strict: bool) -> spec_fn(Seq<u8>) -> bool {
    |x: Seq<u8>| key_le(x, k) && (strict ==> x != k)
}

/// Holds of `k` alone.
pub open spec fn just(k: Seq<u8>) -> spec_fn(Seq<u8>) -> bool {
    |x: Seq<u8>| x == k
}

/// Holds of every key.
pub open spec fn any_key() -> spec_fn(Seq<u8>) -> bool {
    |x: Seq<u8>| true
}

/// The keys of `s` that sort after `k`, or at `k` too unless `strict`.
pub open spec fn above(s: Set<Seq<u8>>, k: Seq<u8>, strict: bool) -> Set<Seq<u8>> {
    sieve(s, from_up(k, strict))
}

/// The keys of `s` that sort before `k`, or at `k` too unless `strict`.
pub open spec fn below(s: Set<Seq<u8>>, k: Seq<u8>, strict: bool) -> Set<Seq<u8>> {
    sieve(s, from_down(k, strict))
}

/// The key `k` alone, if `s` holds it.
pub open spec fn only(s: Set<Seq<u8>>, k: Seq<u8>) -> Set<Seq<u8>> {
    sieve(s, just(k))
}

/// `k` is the least key of `s`.
pub open spec fn is_least(s: Set<Seq<u8>>, k: Seq<u8>) -> bool {
    s.contains(k) && forall|x: Seq<u8>| #[trigger] s.contains(x) ==> key_le(k, x)
}

/// `k` is the greatest key of `s`.
pub open spec fn is_greatest(s: Set<Seq<u8>>, k: Seq<u8>) -> bool {
    s.contains(k) && forall|x: Seq<u8>| #[trigger] s.contains(x) ==> key_le(x, k)
}

/// No key is in `s`.
pub open spec fn is_void(s: Set<Seq<u8>>) -> bool {
    forall|x: Seq<u8>| !#[trigger] s.contains(x)
}

/// A cursor that comes to rest at `r` has landed on the least key of `s`, or
/// nowhere if `s` is empty.
pub open spec fn lands_least(r: Option<Seq<u8>>, s: Set<Seq<u8>>) -> bool {
    match r {
        Some(k) => is_least(s, k),
        None => is_void(s),
    }
}

/// A cursor that comes to rest at `r` has landed on the greatest key of `s`, or
/// nowhere if `s` is empty.
pub open spec fn lands_greatest(r: Option<Seq<u8>>, s: Set<Seq<u8>>) -> bool {
    match r {
        Some(k) => is_greatest(s, k),
        None => is_void(s),
    }
}

/// A set has at most one least key, so two cursors that land on the least key of
/// the same set rest at the same place.
pub proof fn lemma_lands_least_unique(r1: Option<Seq<u8>>, r2: Option<Seq<u8>>, s: Set<Seq<u8>>)
    requires
        lands_least(r1, s),
        lands_least(r2, s),
    ensures
        r1 == r2,
{
    if r1 is Some && r2 is Some {
        lemma_key_le_antisymmetric(r1.unwrap(), r2.unwrap());
    }
}

/// A set has at most one greatest key.
pub proof fn lemma_lands_greatest_unique(r1: Option<Seq<u8>>, r2: Option<Seq<u8>>, s: Set<Seq<u8>>)
    requires
        lands_greatest(r1, s),
        lands_greatest(r2, s),
    ensures
        r1 == r2,
{
    if r1 is Some && r2 is Some {
        lemma_key_le_antisymmetric(r1.unwrap(), r2.unwrap());
    }
}

/// In a list of pairs with strictly increasing keys, each key is bound to the
/// value beside it, and the map holds no other key.
pub proof fn lemma_pairs_map_sorted(p: Seq<(Seq<u8>, Option<Seq<u8>>)>)
    requires
        pairs_sorted(p),
    ensures
        forall|i: int|
            0 <= i < p.len() ==> pairs_map(p).dom().contains(#[trigger] p[i].0) && pairs_map(
                p,
            )[p[i].0] == p[i].1,
        forall|k: Seq<u8>| #[trigger]
            pairs_map(p).dom().contains(k) ==> exists|i: int| 0 <= i < p.len() && #[trigger] p[i].0 == k,
    decreases p.len(),
{
    if p.len() > 0 {
        let q = p.drop_last();
        assert forall|i: int, j: int| 0 <= i < j < q.len() implies key_lt(
            #[trigger] q[i].0,
            #[trigger] q[j].0,
        ) by {
            assert(q[i] == p[i] && q[j] == p[j]);
        }
        lemma_pairs_map_sorted(q);
        let last = p.len() - 1;
        assert forall|i: int| 0 <= i < p.len() implies pairs_map(p).dom().contains(
            #[trigger] p[i].0,
        ) && pairs_map(p)[p[i].0] == p[i].1 by {
            if i < last {
                assert(q[i] == p[i]);
                assert(key_lt(p[i].0, p[last].0));
                lemma_key_lt_irreflexive(p[i].0);
            }
        }
        assert forall|k: Seq<u8>| #[trigger] pairs_map(p).dom().contains(k) implies exists|i: int|
            0 <= i < p.len() && #[trigger] p[i].0 == k by {
            if k == p[last].0 {
            } else {
                assert(pairs_map(q).dom().contains(k));
                let i = choose|i: int| 0 <= i < q.len() && #[trigger] q[i].0 == k;
                assert(p[i].0 == k);
            }
        }
    }
}

/// Segment number `s` of the snapshot holds the key `k`.
pub open spec fn held_by(segs: Seq<Map<Seq<u8>, Option<Seq<u8>>>>, s: int, k: Seq<u8>) -> bool {
    0 <= s < segs.len() && segs[s].dom().contains(k)
}

/// Segment number `c` is the newest of the snapshot that holds the key `k`.
pub open spec fn newest_holder(segs: Seq<Map<Seq<u8>, Option<Seq<u8>>>>, c: int, k: Seq<u8>) -> bool {
    held_by(segs, c, k) && forall|t: int| c < t ==> !#[trigger] held_by(segs, t, k)
}

/// A key is in the merged content exactly when some segment holds it.
pub proof fn lemma_merged_dom(segs: Seq<Map<Seq<u8>, Option<Seq<u8>>>>, k: Seq<u8>)
    ensures
        merged(segs).dom().contains(k) <==> exists|s: int| #[trigger] held_by(segs, s, k),
    decreases segs.len(),
{
    if segs.len() > 0 {
        let rest = segs.drop_last();
        let last = segs.len() - 1;
        lemma_merged_dom(rest, k);
        if segs[last].dom().contains(k) {
            assert(held_by(segs, last, k));
        } else {
            if merged(rest).dom().contains(k) {
                let s = choose|s: int| #[trigger] held_by(rest, s, k);
                assert(held_by(segs, s, k));
            }
            if exists|s: int| #[trigger] held_by(segs, s, k) {
                let s = choose|s: int| #[trigger] held_by(segs, s, k);
                assert(held_by(rest, s, k));
            }
        }
    }
}

/// The merged value of a key is its value in the newest segment that holds it.
pub proof fn lemma_merged_value(segs: Seq<Map<Seq<u8>, Option<Seq<u8>>>>, c: int, k: Seq<u8>)
    requires
        newest_holder(segs, c, k),
    ensures
        merged(segs).dom().contains(k),
        merged(segs)[k] == segs[c][k],
    decreases segs.len(),
{
    let rest = segs.drop_last();
    let last = segs.len() - 1;
    if c < last {
        assert(!held_by(segs, last, k));
        assert(held_by(rest, c, k));
        assert forall|t: int| c < t implies !#[trigger] held_by(rest, t, k) by {
            if held_by(rest, t, k) {
                assert(held_by(segs, t, k));
            }
        }
        lemma_merged_value(rest, c, k);
    }
}

/// `f` holds of every key that sorts after one of which it holds.
pub open spec fn closed_upward(f: spec_fn(Seq<u8>) -> bool) -> bool {
    forall|x: Seq<u8>, y: Seq<u8>| #[trigger] f(x) && #[trigger] key_le(x, y) ==> f(y)
}

/// `f` holds of every key that sorts before one of which it holds.
pub open spec fn closed_downward(f: spec_fn(Seq<u8>) -> bool) -> bool {
    forall|x: Seq<u8>, y: Seq<u8>| #[trigger] f(x) && #[trigger] key_le(y, x) ==> f(y)
}

/// The key at position `c` of `keys`, if `c` names one.
pub open spec fn pick(keys: Seq<Option<Seq<u8>>>, c: Option<int>) -> Option<Seq<u8>> {
    match c {
        Some(c) => keys[c],
        None => None,
    }
}

/// `c` names the least of the keys at hand, and among equal ones the last; it
/// names none only if there is none.
pub open spec fn picks_least(keys: Seq<Option<Seq<u8>>>, c: Option<int>) -> bool {
    match c {
        Some(c) => {
            &&& 0 <= c < keys.len()
            &&& keys[c] is Some
            &&& forall|i: int|
                0 <= i < keys.len() && (#[trigger] keys[i]) is Some ==> key_le(
                    keys[c].unwrap(),
                    keys[i].unwrap(),
                ) && (i > c ==> keys[i] != keys[c])
        },
        None => forall|i: int| 0 <= i < keys.len() ==> (#[trigger] keys[i]) is None,
    }
}

/// `c` names the greatest of the keys at hand, and among equal ones the last;
/// it names none only if there is none.
pub open spec fn picks_greatest(keys: Seq<Option<Seq<u8>>>, c: Option<int>) -> bool {
    match c {
        Some(c) => {
            &&& 0 <= c < keys.len()
            &&& keys[c] is Some
            &&& forall|i: int|
                0 <= i < keys.len() && (#[trigger] keys[i]) is Some ==> key_le(
                    keys[i].unwrap(),
                    keys[c].unwrap(),
                ) && (i > c ==> keys[i] != keys[c])
        },
        None => forall|i: int| 0 <= i < keys.len() ==> (#[trigger] keys[i]) is None,
    }
}

/// Each cursor rests on the least key of its own segment from `k` on.
pub open spec fn aligned_up(
    segs: Seq<Map<Seq<u8>, Option<Seq<u8>>>>,
    keys: Seq<Option<Seq<u8>>>,
    k: Seq<u8>,
) -> bool {
    forall|i: int|
        0 <= i < segs.len() ==> lands_least(#[trigger] keys[i], above(segs[i].dom(), k, false))
}

/// Each cursor rests on the greatest key of its own segment up to `k`.
pub open spec fn aligned_down(
    segs: Seq<Map<Seq<u8>, Option<Seq<u8>>>>,
    keys: Seq<Option<Seq<u8>>>,
    k: Seq<u8>,
) -> bool {
    forall|i: int|
        0 <= i < segs.len() ==> lands_greatest(#[trigger] keys[i], below(segs[i].dom(), k, false))
}

/// Merging upward. Where each cursor rests on the least key of its segment that
/// `f` lets through, the least of those keys is the least key of the merged
/// content that `f` lets through; the last cursor that rests on it belongs to
/// the newest segment that holds it; and, where `f` is closed upward, every
/// cursor rests on the least key of its segment from that key on.
pub proof fn lemma_merge_least(
    segs: Seq<Map<Seq<u8>, Option<Seq<u8>>>>,
    keys: Seq<Option<Seq<u8>>>,
    f: spec_fn(Seq<u8>) -> bool,
    c: Option<int>,
)
    requires
        keys.len() == segs.len(),
        forall|i: int|
            0 <= i < segs.len() ==> lands_least(#[trigger] keys[i], sieve(segs[i].dom(), f)),
        picks_least(keys, c),
    ensures
        lands_least(pick(keys, c), sieve(merged(segs).dom(), f)),
        c matches Some(c) ==> newest_holder(segs, c, keys[c].unwrap()),
        c matches Some(c) ==> closed_upward(f) ==> aligned_up(segs, keys, keys[c].unwrap()),
{
    let u = sieve(merged(segs).dom(), f);
    assert forall|x: Seq<u8>| #[trigger] u.contains(x) implies exists|s: int|
        0 <= s < segs.len() && sieve(segs[s].dom(), f).contains(x) && keys[s] is Some && key_le(
            keys[s].unwrap(),
            x,
        ) by {
        lemma_merged_dom(segs, x);
        let s = choose|s: int| #[trigger] held_by(segs, s, x);
        assert(sieve(segs[s].dom(), f).contains(x));
        assert(lands_least(keys[s], sieve(segs[s].dom(), f)));
    }
    match c {
        Some(c) => {
            let k = keys[c].unwrap();
            assert(lands_least(keys[c], sieve(segs[c].dom(), f)));
            assert(held_by(segs, c, k));
            lemma_merged_dom(segs, k);
            assert(u.contains(k));
            assert forall|x: Seq<u8>| #[trigger] u.contains(x) implies key_le(k, x) by {
                let s = choose|s: int|
                    0 <= s < segs.len() && sieve(segs[s].dom(), f).contains(x) && keys[s] is Some
                        && key_le(keys[s].unwrap(), x);
                lemma_key_le_transitive(k, keys[s].unwrap(), x);
            }
            assert forall|t: int| c < t implies !#[trigger] held_by(segs, t, k) by {
                if held_by(segs, t, k) {
                    assert(sieve(segs[t].dom(), f).contains(k));
                    assert(lands_least(keys[t], sieve(segs[t].dom(), f)));
                    lemma_key_le_antisymmetric(k, keys[t].unwrap());
                }
            }
            assert forall|i: int| closed_upward(f) && 0 <= i < segs.len() implies lands_least(
                #[trigger] keys[i],
                above(segs[i].dom(), k, false),
            ) by {
                let a = above(segs[i].dom(), k, false);
                assert(lands_least(keys[i], sieve(segs[i].dom(), f)));
                assert forall|x: Seq<u8>| #[trigger] a.contains(x) implies sieve(
                    segs[i].dom(),
                    f,
                ).contains(x) by {
                    assert(f(k) && key_le(k, x));
                }
            }
        },
        None => {
            assert forall|x: Seq<u8>| !#[trigger] u.contains(x) by {
                if u.contains(x) {
                    let s = choose|s: int|
                        0 <= s < segs.len() && sieve(segs[s].dom(), f).contains(x) && keys[s] is Some
                            && key_le(keys[s].unwrap(), x);
                }
            }
        },
    }
}

/// Merging downward: the mirror image of `lemma_merge_least`.
pub proof fn lemma_merge_greatest(
    segs: Seq<Map<Seq<u8>, Option<Seq<u8>>>>,
    keys: Seq<Option<Seq<u8>>>,
    f: spec_fn(Seq<u8>) -> bool,
    c: Option<int>,
)
    requires
        keys.len() == segs.len(),
        forall|i: int|
            0 <= i < segs.len() ==> lands_greatest(#[trigger] keys[i], sieve(segs[i].dom(), f)),
        picks_greatest(keys, c),
    ensures
        lands_greatest(pick(keys, c), sieve(merged(segs).dom(), f)),
        c matches Some(c) ==> newest_holder(segs, c, keys[c].unwrap()),
        c matches Some(c) ==> closed_downward(f) ==> aligned_down(segs, keys, keys[c].unwrap()),
{
    let u = sieve(merged(segs).dom(), f);
    assert forall|x: Seq<u8>| #[trigger] u.contains(x) implies exists|s: int|
        0 <= s < segs.len() && sieve(segs[s].dom(), f).contains(x) && keys[s] is Some && key_le(
            x,
            keys[s].unwrap(),
        ) by {
        lemma_merged_dom(segs, x);
        let s = choose|s: int| #[trigger] held_by(segs, s, x);
        assert(sieve(segs[s].dom(), f).contains(x));
        assert(lands_greatest(keys[s], sieve(segs[s].dom(), f)));
    }
    match c {
        Some(c) => {
            let k = keys[c].unwrap();
            assert(lands_greatest(keys[c], sieve(segs[c].dom(), f)));
            assert(held_by(segs, c, k));
            lemma_merged_dom(segs, k);
            assert(u.contains(k));
            assert forall|x: Seq<u8>| #[trigger] u.contains(x) implies key_le(x, k) by {
                let s = choose|s: int|
                    0 <= s < segs.len() && sieve(segs[s].dom(), f).contains(x) && keys[s] is Some
                        && key_le(x, keys[s].unwrap());
                lemma_key_le_transitive(x, keys[s].unwrap(), k);
            }
            assert forall|t: int| c < t implies !#[trigger] held_by(segs, t, k) by {
                if held_by(segs, t, k) {
                    assert(sieve(segs[t].dom(), f).contains(k));
                    assert(lands_greatest(keys[t], sieve(segs[t].dom(), f)));
                    lemma_key_le_antisymmetric(k, keys[t].unwrap());
                }
            }
            assert forall|i: int| closed_downward(f) && 0 <= i < segs.len() implies lands_greatest(
                #[trigger] keys[i],
                below(segs[i].dom(), k, false),
            ) by {
                let a = below(segs[i].dom(), k, false);
                assert(lands_greatest(keys[i], sieve(segs[i].dom(), f)));
                assert forall|x: Seq<u8>| #[trigger] a.contains(x) implies sieve(
                    segs[i].dom(),
                    f,
                ).contains(x) by {
                    assert(f(k) && key_le(x, k));
                }
            }
        },
        None => {
            assert forall|x: Seq<u8>| !#[trigger] u.contains(x) by {
                if u.contains(x) {
                    let s = choose|s: int|
                        0 <= s < segs.len() && sieve(segs[s].dom(), f).contains(x) && keys[s] is Some
                            && key_le(x, keys[s].unwrap());
                }
            }
        },
    }
}

/// The filters by which cursors move are closed in the direction of the move.
pub proof fn lemma_filters_closed(k: Seq<u8>, strict: bool)
    ensures
        closed_upward(from_up(k, strict)),
        closed_downward(from_down(k, strict)),
        closed_upward(any_key()),
        closed_downward(any_key()),
{
    assert forall|x: Seq<u8>, y: Seq<u8>| #[trigger]
        from_up(k, strict)(x) && #[trigger] key_le(x, y) implies from_up(k, strict)(y) by {
        lemma_key_le_transitive(k, x, y);
        if y == k {
            lemma_key_le_antisymmetric(k, x);
        }
    }
    assert forall|x: Seq<u8>, y: Seq<u8>| #[trigger]
        from_down(k, strict)(x) && #[trigger] key_le(y, x) implies from_down(k, strict)(y) by {
        lemma_key_le_transitive(y, x, k);
        if y == k {
            lemma_key_le_antisymmetric(k, x);
        }
    }
}

} // verus!
