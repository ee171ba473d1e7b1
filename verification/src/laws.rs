//! What holds of the store as a whole, stated over the model and proved.
//!
//! The cursors promise where they come to rest with `lands_least`,
//! `lands_greatest` and `seek_lands`. The laws here speak of any place that
//! meets such a promise, so they hold of the cursors whatever route they took.
use vstd::prelude::*;
use crate::cursor::{seek_lands, SeekOp};
use crate::key::{
    key_le, key_lt, lemma_key_le_antisymmetric, lemma_key_lt_asymmetric,
    lemma_key_lt_irreflexive, lemma_key_lt_total, lemma_key_lt_transitive,
};
use crate::model::{
    above, below, held_by, lands_greatest, lands_least, lemma_lands_greatest_unique,
    lemma_lands_least_unique, lemma_merged_dom, lemma_merged_value, live_keys, living, merged,
    only,
};

verus! {

/// A living key is reached from every side. A seek for it lands on it; so does
/// a step up from the living key before it, and a step down from the living key
/// after it. Its value is the same on every route, being a function of the
/// snapshot and the key alone, and is no tombstone.
pub proof fn law_same_place_by_every_route(
    segs: Seq<Map<Seq<u8>, Option<Seq<u8>>>>,
    k: Seq<u8>,
    before: Seq<u8>,
    after: Seq<u8>,
    by_seek: Option<Seq<u8>>,
    by_next: Option<Seq<u8>>,
    by_prev: Option<Seq<u8>>,
)
    requires
        live_keys(segs).contains(k),
        seek_lands(by_seek, live_keys(segs), k, SeekOp::SEEK_EQ),
        lands_greatest(Some(before), below(live_keys(segs), k, true)),
        lands_least(by_next, above(live_keys(segs), before, true)),
        lands_least(Some(after), above(live_keys(segs), k, true)),
        lands_greatest(by_prev, below(live_keys(segs), after, true)),
    ensures
        by_seek == Some(k),
        by_next == Some(k),
        by_prev == Some(k),
        merged(segs).dom().contains(k),
        merged(segs)[k] is Some,
{
    let live = live_keys(segs);
    lemma_key_lt_irreflexive(k);
    assert(only(live, k).contains(k));
    lemma_key_le_antisymmetric(k, by_seek.unwrap());
    // stepping up from `before`
    assert(below(live, k, true).contains(before));
    assert(above(live, before, true).contains(k));
    let n = by_next.unwrap();
    assert(above(live, before, true).contains(n));
    if n != k {
        // `n` would be a living key strictly between `before` and `k`
        lemma_key_lt_total(n, k);
        assert(below(live, k, true).contains(n));
        lemma_key_le_antisymmetric(n, before);
    }
    // stepping down from `after`
    assert(above(live, k, true).contains(after));
    assert(below(live, after, true).contains(k));
    let p = by_prev.unwrap();
    assert(below(live, after, true).contains(p));
    if p != k {
        lemma_key_lt_total(p, k);
        assert(above(live, k, true).contains(p));
        lemma_key_le_antisymmetric(p, after);
    }
}

/// Seeks converge. Wherever two cursors over the same keys were before, a
/// seek for the same key with the same operation brings both to the same
/// place.
pub proof fn law_seeks_converge(
    keys: Set<Seq<u8>>,
    k: Seq<u8>,
    op: SeekOp,
    one: Option<Seq<u8>>,
    other: Option<Seq<u8>>,
)
    requires
        seek_lands(one, keys, k, op),
        seek_lands(other, keys, k, op),
    ensures
        one == other,
{
    match op {
        SeekOp::SEEK_EQ => lemma_lands_least_unique(one, other, only(keys, k)),
        SeekOp::SEEK_LE => lemma_lands_greatest_unique(one, other, below(keys, k, false)),
        SeekOp::SEEK_GE => lemma_lands_least_unique(one, other, above(keys, k, false)),
    }
}

/// Overwriting. Once a segment that holds `k` is committed, `k` has the value
/// that this segment gives it, whatever older segments say.
pub proof fn law_overwrite(
    segs: Seq<Map<Seq<u8>, Option<Seq<u8>>>>,
    newer: Map<Seq<u8>, Option<Seq<u8>>>,
    k: Seq<u8>,
)
    requires
        newer.dom().contains(k),
    ensures
        merged(segs.push(newer)).dom().contains(k),
        merged(segs.push(newer))[k] == newer[k],
{
    assert(segs.push(newer).drop_last() =~= segs);
}

/// A key that the newest segment does not hold keeps the value it had.
pub proof fn law_untouched_keys_stay(
    segs: Seq<Map<Seq<u8>, Option<Seq<u8>>>>,
    newer: Map<Seq<u8>, Option<Seq<u8>>>,
    k: Seq<u8>,
)
    requires
        !newer.dom().contains(k),
    ensures
        merged(segs.push(newer)).dom().contains(k) == merged(segs).dom().contains(k),
        merged(segs).dom().contains(k) ==> merged(segs.push(newer))[k] == merged(segs)[k],
        live_keys(segs.push(newer)).contains(k) == live_keys(segs).contains(k),
{
    assert(segs.push(newer).drop_last() =~= segs);
}

/// Tombstones. Once a segment that holds a tombstone for `k` is committed, `k`
/// is no living key. A seek for `k` itself lands nowhere, and a seek for `k`
/// or its neighbour below (above) lands on the nearest living key strictly
/// below (above) `k`, or nowhere if there is none.
pub proof fn law_tombstone(
    segs: Seq<Map<Seq<u8>, Option<Seq<u8>>>>,
    newer: Map<Seq<u8>, Option<Seq<u8>>>,
    k: Seq<u8>,
    by_seek_eq: Option<Seq<u8>>,
    by_seek_le: Option<Seq<u8>>,
    by_seek_ge: Option<Seq<u8>>,
)
    requires
        newer.dom().contains(k),
        newer[k] is None,
        seek_lands(by_seek_eq, live_keys(segs.push(newer)), k, SeekOp::SEEK_EQ),
        seek_lands(by_seek_le, live_keys(segs.push(newer)), k, SeekOp::SEEK_LE),
        seek_lands(by_seek_ge, live_keys(segs.push(newer)), k, SeekOp::SEEK_GE),
    ensures
        !live_keys(segs.push(newer)).contains(k),
        by_seek_eq is None,
        by_seek_le != Some(k),
        by_seek_ge != Some(k),
        lands_greatest(by_seek_le, below(live_keys(segs.push(newer)), k, true)),
        lands_least(by_seek_ge, above(live_keys(segs.push(newer)), k, true)),
{
    law_overwrite(segs, newer, k);
    let live = live_keys(segs.push(newer));
    assert(!live.contains(k));
    if by_seek_eq is Some {
        assert(only(live, k).contains(by_seek_eq.unwrap()));
    }
    if by_seek_le is Some {
        assert(below(live, k, false).contains(by_seek_le.unwrap()));
    }
    if by_seek_ge is Some {
        assert(above(live, k, false).contains(by_seek_ge.unwrap()));
    }
    assert(below(live, k, true) =~= below(live, k, false));
    assert(above(live, k, true) =~= above(live, k, false));
}

/// Segments over separate keys can be committed in either order: the merged
/// content is the same.
pub proof fn law_disjoint_commits_commute(
    segs: Seq<Map<Seq<u8>, Option<Seq<u8>>>>,
    a: Map<Seq<u8>, Option<Seq<u8>>>,
    b: Map<Seq<u8>, Option<Seq<u8>>>,
)
    requires
        forall|k: Seq<u8>| !(#[trigger] a.dom().contains(k) && b.dom().contains(k)),
    ensures
        merged(segs.push(a).push(b)) == merged(segs.push(b).push(a)),
        live_keys(segs.push(a).push(b)) == live_keys(segs.push(b).push(a)),
{
    assert(segs.push(a).push(b).drop_last() =~= segs.push(a));
    assert(segs.push(b).push(a).drop_last() =~= segs.push(b));
    assert(segs.push(a).drop_last() =~= segs);
    assert(segs.push(b).drop_last() =~= segs);
    let m = merged(segs);
    assert(merged(segs.push(a)) == m.union_prefer_right(a));
    assert(merged(segs.push(b)) == m.union_prefer_right(b));
    assert(merged(segs.push(a).push(b)) == m.union_prefer_right(a).union_prefer_right(b));
    assert(merged(segs.push(b).push(a)) == m.union_prefer_right(b).union_prefer_right(a));
    assert(m.union_prefer_right(a).union_prefer_right(b) =~= m.union_prefer_right(
        b,
    ).union_prefer_right(a));
}

/// No key is held by two segments of the snapshot.
pub open spec fn keys_apart(segs: Seq<Map<Seq<u8>, Option<Seq<u8>>>>) -> bool {
    forall|i: int, j: int, k: Seq<u8>|
        0 <= i < j < segs.len() ==> !(#[trigger] segs[i].dom().contains(k) && #[trigger] segs[j].dom().contains(
            k,
        ))
}

/// Segments written apart. Where no key is held by two segments, the living
/// keys of the snapshot are the living keys of its segments, in whatever order
/// the segments were committed: a key is alive exactly if the one segment that
/// holds it gives it a value that is no tombstone.
pub proof fn law_living_keys_of_separate_segments(
    segs: Seq<Map<Seq<u8>, Option<Seq<u8>>>>,
    k: Seq<u8>,
)
    requires
        keys_apart(segs),
    ensures
        live_keys(segs).contains(k) <==> exists|i: int|
            0 <= i < segs.len() && #[trigger] living(segs[i]).contains(k),
{
    lemma_merged_dom(segs, k);
    if merged(segs).dom().contains(k) {
        let c = choose|c: int| #[trigger] held_by(segs, c, k);
        assert forall|t: int| c < t implies !#[trigger] held_by(segs, t, k) by {}
        lemma_merged_value(segs, c, k);
        if live_keys(segs).contains(k) {
            assert(living(segs[c]).contains(k));
        }
        if exists|i: int| 0 <= i < segs.len() && #[trigger] living(segs[i]).contains(k) {
            let i = choose|i: int| 0 <= i < segs.len() && #[trigger] living(segs[i]).contains(k);
            assert(segs[i].dom().contains(k));
            assert(i == c);
        }
    } else {
        if exists|i: int| 0 <= i < segs.len() && #[trigger] living(segs[i]).contains(k) {
            let i = choose|i: int| 0 <= i < segs.len() && #[trigger] living(segs[i]).contains(k);
            assert(held_by(segs, i, k));
        }
    }
}

/// The key at step `i` of a walk, or none past its end.
pub open spec fn step_of(t: Seq<Seq<u8>>, i: int) -> Option<Seq<u8>> {
    if 0 <= i < t.len() {
        Some(t[i])
    } else {
        None
    }
}

/// `t` lists the keys that a cursor rests on when it moves to the first key of
/// `live` and then steps up until it is on none.
pub open spec fn is_walk_up(live: Set<Seq<u8>>, t: Seq<Seq<u8>>) -> bool {
    &&& lands_least(step_of(t, 0), live)
    &&& forall|i: int|
        0 <= i < t.len() ==> lands_least(step_of(t, i + 1), above(live, #[trigger] t[i], true))
}

/// `t` lists the keys that a cursor rests on when it moves to the last key of
/// `live` and then steps down until it is on none.
pub open spec fn is_walk_down(live: Set<Seq<u8>>, t: Seq<Seq<u8>>) -> bool {
    &&& lands_greatest(step_of(t, 0), live)
    &&& forall|i: int|
        0 <= i < t.len() ==> lands_greatest(step_of(t, i + 1), below(live, #[trigger] t[i], true))
}

/// The keys of a walk up increase from each step to any later one.
pub proof fn lemma_walk_up_ascends(live: Set<Seq<u8>>, t: Seq<Seq<u8>>, i: int, j: int)
    requires
        is_walk_up(live, t),
        0 <= i < j < t.len(),
    ensures
        key_lt(t[i], t[j]),
        live.contains(t[i]),
        live.contains(t[j]),
    decreases j - i,
{
    assert(lands_least(step_of(t, j), above(live, t[j - 1], true)));
    assert(above(live, t[j - 1], true).contains(t[j]));
    lemma_key_lt_total(t[j - 1], t[j]);
    if i < j - 1 {
        lemma_walk_up_ascends(live, t, i, j - 1);
        lemma_key_lt_transitive(t[i], t[j - 1], t[j]);
    } else {
        if i == 0 {
            assert(lands_least(step_of(t, 0), live));
        } else {
            assert(lands_least(step_of(t, i), above(live, t[i - 1], true)));
            assert(above(live, t[i - 1], true).contains(t[i]));
        }
    }
}

/// A walk up passes every key of `live`: one that all steps before `i` are
/// below is met at step `i` or later.
proof fn lemma_walk_up_meets(live: Set<Seq<u8>>, t: Seq<Seq<u8>>, k: Seq<u8>, i: int) -> (at: int)
    requires
        is_walk_up(live, t),
        live.contains(k),
        0 <= i <= t.len(),
        forall|j: int| 0 <= j < i ==> key_lt(#[trigger] t[j], k),
    ensures
        0 <= at < t.len(),
        t[at] == k,
    decreases t.len() - i,
{
    if i == 0 {
        assert(lands_least(step_of(t, 0), live));
    } else {
        assert(key_lt(t[i - 1], k));
        lemma_key_lt_asymmetric(t[i - 1], k);
        lemma_key_lt_irreflexive(k);
        assert(above(live, t[i - 1], true).contains(k));
        assert(lands_least(step_of(t, i), above(live, t[i - 1], true)));
    }
    assert(step_of(t, i) is Some);
    assert(key_le(t[i], k));
    if t[i] == k {
        i
    } else {
        lemma_key_lt_total(t[i], k);
        assert forall|j: int| 0 <= j < i + 1 implies key_lt(#[trigger] t[j], k) by {}
        lemma_walk_up_meets(live, t, k, i + 1)
    }
}

/// The steps of a walk down are those of the walk up, read from its end.
proof fn lemma_walk_down_mirrors(live: Set<Seq<u8>>, up: Seq<Seq<u8>>, down: Seq<Seq<u8>>, j: int)
    requires
        is_walk_up(live, up),
        is_walk_down(live, down),
        0 <= j <= up.len(),
        j <= down.len(),
        forall|i: int| 0 <= i < j ==> #[trigger] down[i] == up[up.len() - 1 - i],
    ensures
        down.len() == up.len(),
        forall|i: int| 0 <= i < up.len() ==> #[trigger] down[i] == up[up.len() - 1 - i],
    decreases up.len() - j,
{
    let n = up.len() as int;
    // the keys among which step `j` of the walk down is the greatest
    let d = if j == 0 {
        live
    } else {
        below(live, down[j - 1], true)
    };
    assert(lands_greatest(step_of(down, j), d)) by {
        if j > 0 {
            assert(lands_greatest(step_of(down, j), below(live, down[j - 1], true)));
        }
    }
    if j < n {
        let g = up[n - 1 - j];
        // `g` is the greatest key of `d`
        assert(is_walk_up(live, up));
        if n - 1 - j == 0 {
            assert(lands_least(step_of(up, 0), live));
        } else {
            assert(lands_least(step_of(up, n - 1 - j), above(live, up[n - 2 - j], true)));
            assert(above(live, up[n - 2 - j], true).contains(g));
        }
        assert(live.contains(g));
        assert(lands_least(step_of(up, n - j), above(live, g, true)));
        if j > 0 {
            assert(down[j - 1] == up[n - j]);
            assert(above(live, g, true).contains(up[n - j]));
        }
        assert(d.contains(g));
        assert forall|x: Seq<u8>| #[trigger] d.contains(x) implies key_le(x, g) by {
            if key_lt(g, x) {
                lemma_key_lt_asymmetric(g, x);
                lemma_key_lt_irreflexive(x);
                assert(above(live, g, true).contains(x));
                if j > 0 {
                    // `x` would lie strictly between `g` and the step after it
                    assert(key_le(up[n - j], x));
                    lemma_key_le_antisymmetric(x, up[n - j]);
                }
            }
        }
        lemma_lands_greatest_unique(step_of(down, j), Some(g), d);
        assert forall|i: int| 0 <= i < j + 1 implies #[trigger] down[i] == up[up.len() - 1 - i] by {}
        lemma_walk_down_mirrors(live, up, down, j + 1);
    } else {
        // the walk up is used up, so nothing is left below for the walk down
        assert forall|x: Seq<u8>| !#[trigger] d.contains(x) by {
            if d.contains(x) {
                assert(lands_least(step_of(up, 0), live));
                if j > 0 {
                    assert(down[j - 1] == up[0]);
                    assert(key_le(up[0], x));
                    lemma_key_le_antisymmetric(x, up[0]);
                }
            }
        }
        assert(step_of(down, j) is None);
    }
}

/// Walking up and walking down. A walk from the first living key upward rests
/// on every living key, on each once, in ascending order; and a walk from the
/// last living key downward rests on the same keys in exactly the opposite
/// order.
pub proof fn law_walks_mirror(live: Set<Seq<u8>>, up: Seq<Seq<u8>>, down: Seq<Seq<u8>>)
    requires
        is_walk_up(live, up),
        is_walk_down(live, down),
    ensures
        forall|i: int, j: int| 0 <= i < j < up.len() ==> key_lt(#[trigger] up[i], #[trigger] up[j]),
        up.no_duplicates(),
        forall|k: Seq<u8>| #[trigger] live.contains(k) <==> up.contains(k),
        live.finite(),
        live.len() == up.len(),
        down =~= up.reverse(),
{
    assert forall|i: int, j: int| 0 <= i < j < up.len() implies key_lt(
        #[trigger] up[i],
        #[trigger] up[j],
    ) by {
        lemma_walk_up_ascends(live, up, i, j);
    }
    assert forall|i: int, j: int| 0 <= i < up.len() && 0 <= j < up.len() && i != j implies up[i]
        != up[j] by {
        lemma_key_lt_irreflexive(up[i]);
        if i < j {
            lemma_walk_up_ascends(live, up, i, j);
        } else {
            lemma_walk_up_ascends(live, up, j, i);
        }
    }
    assert forall|k: Seq<u8>| #[trigger] live.contains(k) <==> up.contains(k) by {
        if live.contains(k) {
            let at = lemma_walk_up_meets(live, up, k, 0);
            assert(up[at] == k);
        }
        if up.contains(k) {
            let i = choose|i: int| 0 <= i < up.len() && up[i] == k;
            if i == 0 {
                assert(lands_least(step_of(up, 0), live));
            } else {
                lemma_walk_up_ascends(live, up, 0, i);
            }
        }
    }
    lemma_walk_down_mirrors(live, up, down, 0);
    assert(live =~= up.to_set());
    vstd::seq_lib::seq_to_set_is_finite(up);
    up.unique_seq_to_set();
}

} // verus!
