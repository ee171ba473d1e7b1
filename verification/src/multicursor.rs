//! A cursor over the merged content of a snapshot.
//!
//! It holds one cursor per segment, oldest segment first. The merged cursor
//! rests on the least (or greatest) key that any of them rests on. Where several
//! rest on that key, the one of the newest segment gives the value. While the
//! merged cursor walks in one direction, every segment's cursor is kept on its
//! segment's nearest key in that direction, so that one step moves only the
//! cursors that rest on the merged key.
use vstd::prelude::*;
use std::sync::Arc;
use crate::blob::{copy_bytes, Blob};
use crate::cursor::{seek_lands, SeekOp, SegmentCursor};
use crate::key::{
    compare_keys, key_le, lemma_key_le_antisymmetric, lemma_key_le_transitive,
    lemma_key_lt_asymmetric, lemma_key_lt_irreflexive, lemma_key_lt_total, KeyOrder,
};
use crate::model::{
    above, aligned_down, aligned_up, any_key, below, from_down, from_up, just, lands_greatest,
    lands_least, lemma_filters_closed, lemma_merge_greatest, lemma_merge_least,
    lemma_merged_value, merged, newest_holder, only, picks_greatest, picks_least, sieve,
};
use crate::segment::{LsmError, Segment};

verus! {

/// The direction in which the cursors of the segments are lined up.
#[derive(Clone, Copy, Debug, PartialEq, Eq, Structural)]
pub enum Direction {
    /// Each rests on its segment's least key from the merged key on.
    Forward,
    /// Each rests on its segment's greatest key up to the merged key.
    Backward,
    /// They are not lined up.
    Wandering,
}

/// The keys that the cursors rest on.
pub open spec fn sub_keys(subs: Seq<SegmentCursor>) -> Seq<Option<Seq<u8>>> {
    Seq::new(subs.len(), |i: int| subs[i].key())
}

/// The segments that the cursors walk, as maps.
pub open spec fn sub_maps(subs: Seq<SegmentCursor>) -> Seq<Map<Seq<u8>, Option<Seq<u8>>>> {
    Seq::new(subs.len(), |i: int| subs[i].map())
}

/// The segments of a list, as maps.
pub open spec fn segment_maps(segs: Seq<Arc<Segment>>) -> Seq<Map<Seq<u8>, Option<Seq<u8>>>> {
    Seq::new(segs.len(), |i: int| segs[i].map())
}

/// Every segment of the list is sorted.
pub open spec fn segments_wf(segs: Seq<Arc<Segment>>) -> bool {
    forall|i: int| 0 <= i < segs.len() ==> (#[trigger] segs[i]).wf()
}

/// Every cursor is well formed.
pub open spec fn subs_wf(subs: Seq<SegmentCursor>) -> bool {
    forall|i: int| 0 <= i < subs.len() ==> (#[trigger] subs[i]).wf()
}

/// The two lists hold cursors over the same segments.
pub open spec fn same_segments(a: Seq<SegmentCursor>, b: Seq<SegmentCursor>) -> bool {
    a.len() == b.len() && forall|i: int|
        0 <= i < a.len() ==> (#[trigger] a[i]).segment() == b[i].segment()
}

/// The first `n` cursors rest on the least key of their segment that `f` lets through.
pub open spec fn settled_least(subs: Seq<SegmentCursor>, n: int, f: spec_fn(Seq<u8>) -> bool) -> bool {
    forall|i: int|
        0 <= i < n ==> lands_least((#[trigger] subs[i]).key(), sieve(subs[i].map().dom(), f))
}

/// The first `n` cursors rest on the greatest key of their segment that `f` lets through.
pub open spec fn settled_greatest(
    subs: Seq<SegmentCursor>,
    n: int,
    f: spec_fn(Seq<u8>) -> bool,
) -> bool {
    forall|i: int|
        0 <= i < n ==> lands_greatest((#[trigger] subs[i]).key(), sieve(subs[i].map().dom(), f))
}

/// The sum of a list of numbers.
pub open spec fn total(s: Seq<nat>) -> nat
    decreases s.len(),
{
    if s.len() == 0 {
        0
    } else {
        total(s.drop_last()) + s.last()
    }
}

/// A list that is nowhere greater than another and somewhere less has the lesser sum.
pub proof fn lemma_total_less(a: Seq<nat>, b: Seq<nat>, c: int)
    requires
        a.len() == b.len(),
        forall|i: int| 0 <= i < a.len() ==> a[i] <= b[i],
        0 <= c < a.len() ==> a[c] < b[c],
    ensures
        total(a) <= total(b),
        0 <= c < a.len() ==> total(a) < total(b),
    decreases a.len(),
{
    if a.len() > 0 {
        assert(a.last() <= b.last());
        lemma_total_less(a.drop_last(), b.drop_last(), c);
    }
}

/// As an index of the model.
pub open spec fn as_int(c: Option<usize>) -> Option<int> {
    match c {
        Some(c) => Some(c as int),
        None => None,
    }
}

/// The cursor with the least key; among cursors on that key, the last.
fn find_least(subs: &Vec<SegmentCursor>) -> (r: Option<usize>)
    requires
        subs_wf(subs@),
    ensures
        picks_least(sub_keys(subs@), as_int(r)),
{
    let mut best: Option<usize> = None;
    let mut i: usize = 0;
    while i < subs.len()
        invariant
            i <= subs.len(),
            subs_wf(subs@),
            picks_least(sub_keys(subs@).subrange(0, i as int), as_int(best)),
        decreases subs.len() - i,
    {
        let ghost keys = sub_keys(subs@);
        let ghost before = keys.subrange(0, i as int);
        let ghost after = keys.subrange(0, i + 1);
        let mut take = false;
        if subs[i].IsValid() {
            match best {
                None => {
                    take = true;
                },
                Some(b) => {
                    assert(before[b as int] == keys[b as int]);
                    let ord = compare_keys(subs[i].key_ref(), subs[b].key_ref());
                    match ord {
                        KeyOrder::Greater => {
                            proof {
                                lemma_key_lt_total(keys[i as int].unwrap(), keys[b as int].unwrap());
                                lemma_key_lt_asymmetric(
                                    keys[i as int].unwrap(),
                                    keys[b as int].unwrap(),
                                );
                            }
                        },
                        _ => {
                            take = true;
                        },
                    }
                },
            }
        }
        proof {
            let k = keys[i as int];
            assert forall|j: int| 0 <= j < i implies #[trigger] after[j] == before[j] by {}
            if take {
                assert(after[i as int] is Some);
                assert forall|j: int| 0 <= j < after.len() && (#[trigger] after[j]) is Some implies key_le(
                    k.unwrap(),
                    after[j].unwrap(),
                ) && (j > i ==> after[j] != after[i as int]) by {
                    lemma_key_lt_irreflexive(k.unwrap());
                    if j < i {
                        let b = best.unwrap() as int;
                        assert(before[j] is Some);
                        assert(key_le(before[b].unwrap(), before[j].unwrap()));
                        lemma_key_lt_asymmetric(k.unwrap(), before[b].unwrap());
                        lemma_key_le_transitive(k.unwrap(), before[b].unwrap(), before[j].unwrap());
                    }
                }
            } else {
                match best {
                    Some(b) => {
                        assert(after[b as int] == before[b as int]);
                        assert forall|j: int|
                            0 <= j < after.len() && (#[trigger] after[j]) is Some implies key_le(
                            after[b as int].unwrap(),
                            after[j].unwrap(),
                        ) && (j > b ==> after[j] != after[b as int]) by {
                            if j < i {
                                assert(before[j] is Some);
                            } else {
                                lemma_key_lt_irreflexive(k.unwrap());
                            }
                        }
                    },
                    None => {
                        assert forall|j: int| 0 <= j < after.len() implies (#[trigger] after[j]) is None by {
                            if j < i {
                                assert(before[j] is None);
                            }
                        }
                    },
                }
            }
        }
        if take {
            best = Some(i);
        }
        i += 1;
    }
    proof {
        assert(sub_keys(subs@).subrange(0, subs.len() as int) =~= sub_keys(subs@));
    }
    best
}

/// The cursor with the greatest key; among cursors on that key, the last.
fn find_greatest(subs: &Vec<SegmentCursor>) -> (r: Option<usize>)
    requires
        subs_wf(subs@),
    ensures
        picks_greatest(sub_keys(subs@), as_int(r)),
{
    let mut best: Option<usize> = None;
    let mut i: usize = 0;
    while i < subs.len()
        invariant
            i <= subs.len(),
            subs_wf(subs@),
            picks_greatest(sub_keys(subs@).subrange(0, i as int), as_int(best)),
        decreases subs.len() - i,
    {
        let ghost keys = sub_keys(subs@);
        let ghost before = keys.subrange(0, i as int);
        let ghost after = keys.subrange(0, i + 1);
        let mut take = false;
        if subs[i].IsValid() {
            match best {
                None => {
                    take = true;
                },
                Some(b) => {
                    assert(before[b as int] == keys[b as int]);
                    let ord = compare_keys(subs[i].key_ref(), subs[b].key_ref());
                    match ord {
                        KeyOrder::Less => {
                            proof {
                                lemma_key_lt_asymmetric(
                                    keys[i as int].unwrap(),
                                    keys[b as int].unwrap(),
                                );
                            }
                        },
                        _ => {
                            take = true;
                        },
                    }
                },
            }
        }
        proof {
            let k = keys[i as int];
            assert forall|j: int| 0 <= j < i implies #[trigger] after[j] == before[j] by {}
            if take {
                assert(after[i as int] is Some);
                assert forall|j: int| 0 <= j < after.len() && (#[trigger] after[j]) is Some implies key_le(
                    after[j].unwrap(),
                    k.unwrap(),
                ) && (j > i ==> after[j] != after[i as int]) by {
                    lemma_key_lt_irreflexive(k.unwrap());
                    if j < i {
                        let b = best.unwrap() as int;
                        assert(before[j] is Some);
                        assert(key_le(before[j].unwrap(), before[b].unwrap()));
                        lemma_key_lt_total(k.unwrap(), before[b].unwrap());
                        lemma_key_lt_asymmetric(k.unwrap(), before[b].unwrap());
                        lemma_key_le_transitive(before[j].unwrap(), before[b].unwrap(), k.unwrap());
                    }
                }
            } else {
                match best {
                    Some(b) => {
                        assert(after[b as int] == before[b as int]);
                        assert forall|j: int|
                            0 <= j < after.len() && (#[trigger] after[j]) is Some implies key_le(
                            after[j].unwrap(),
                            after[b as int].unwrap(),
                        ) && (j > b ==> after[j] != after[b as int]) by {
                            if j < i {
                                assert(before[j] is Some);
                            } else {
                                lemma_key_lt_irreflexive(k.unwrap());
                            }
                        }
                    },
                    None => {
                        assert forall|j: int| 0 <= j < after.len() implies (#[trigger] after[j]) is None by {
                            if j < i {
                                assert(before[j] is None);
                            }
                        }
                    },
                }
            }
        }
        if take {
            best = Some(i);
        }
        i += 1;
    }
    proof {
        assert(sub_keys(subs@).subrange(0, subs.len() as int) =~= sub_keys(subs@));
    }
    best
}

/// How far the cursors are from the ends of their segments.
pub open spec fn sub_ahead(subs: Seq<SegmentCursor>) -> Seq<nat> {
    Seq::new(subs.len(), |i: int| subs[i].ahead())
}

/// How far the cursors are from the starts of their segments.
pub open spec fn sub_behind(subs: Seq<SegmentCursor>) -> Seq<nat> {
    Seq::new(subs.len(), |i: int| subs[i].behind())
}

/// A cursor over the merged content of a list of segments.
pub struct MultiCursor {
    subs: Vec<SegmentCursor>,
    cur: Option<usize>,
    dir: Direction,
}

impl MultiCursor {
    /// The segments under the cursor as maps, oldest first.
    pub closed spec fn snapshot(&self) -> Seq<Map<Seq<u8>, Option<Seq<u8>>>> {
        sub_maps(self.subs@)
    }

    /// The merged content that the cursor walks.
    pub open spec fn content(&self) -> Map<Seq<u8>, Option<Seq<u8>>> {
        merged(self.snapshot())
    }

    /// The key that the cursor is on, if it is on one.
    pub closed spec fn key(&self) -> Option<Seq<u8>> {
        match self.cur {
            Some(c) => self.subs@[c as int].key(),
            None => None,
        }
    }

    /// The direction in which the cursors of the segments are lined up.
    pub closed spec fn heading(&self) -> Direction {
        self.dir
    }

    /// A bound on the steps that the cursor can still take upward.
    pub closed spec fn ahead(&self) -> nat {
        total(sub_ahead(self.subs@))
    }

    /// A bound on the steps that the cursor can still take downward.
    pub closed spec fn behind(&self) -> nat {
        total(sub_behind(self.subs@))
    }

    /// The cursors of the segments are well formed; the merged cursor rests on
    /// the key of the newest segment that holds it; and the others are lined
    /// up as the heading says.
    pub closed spec fn wf(&self) -> bool {
        &&& subs_wf(self.subs@)
        &&& match self.cur {
            Some(c) => {
                &&& c < self.subs@.len()
                &&& self.subs@[c as int].key() is Some
                &&& newest_holder(sub_maps(self.subs@), c as int, self.subs@[c as int].key().unwrap())
                &&& self.dir == Direction::Forward ==> aligned_up(
                    sub_maps(self.subs@),
                    sub_keys(self.subs@),
                    self.subs@[c as int].key().unwrap(),
                )
                &&& self.dir == Direction::Backward ==> aligned_down(
                    sub_maps(self.subs@),
                    sub_keys(self.subs@),
                    self.subs@[c as int].key().unwrap(),
                )
            },
            None => true,
        }
    }

    /// A key that the cursor is on belongs to the merged content.
    pub proof fn lemma_key_in_content(&self)
        requires
            self.wf(),
        ensures
            self.key() matches Some(k) ==> self.content().dom().contains(k),
    {
        if let Some(c) = self.cur {
            lemma_merged_value(sub_maps(self.subs@), c as int, self.key().unwrap());
        }
    }

    /// A cursor over the segments `segs`, oldest first, on no key.
    pub fn new(segs: &Vec<Arc<Segment>>) -> (m: MultiCursor)
        requires
            segments_wf(segs@),
        ensures
            m.wf(),
            m.snapshot() == segment_maps(segs@),
            m.key() is None,
    {
        let mut subs: Vec<SegmentCursor> = Vec::new();
        let mut i: usize = 0;
        while i < segs.len()
            invariant
                i <= segs.len(),
                segments_wf(segs@),
                subs@.len() == i,
                subs_wf(subs@),
                forall|j: int| 0 <= j < i ==> (#[trigger] subs@[j]).segment() == *segs@[j],
            decreases segs.len() - i,
        {
            assert(segs@[i as int].wf());
            let c = SegmentCursor::new(segs[i].clone());
            subs.push(c);
            i += 1;
        }
        proof {
            assert(sub_maps(subs@) =~= segment_maps(segs@));
        }
        MultiCursor { subs, cur: None, dir: Direction::Wandering }
    }

    /// Whether the cursor is on a key.
    #[allow(non_snake_case)]
    pub fn IsValid(&self) -> (r: bool)
        requires
            self.wf(),
        ensures
            r == (self.key() is Some),
    {
        self.cur.is_some()
    }

    /// Moves to the lowest key of the merged content.
    #[allow(non_snake_case)]
    pub fn First(&mut self)
        requires
            old(self).wf(),
        ensures
            final(self).wf(),
            final(self).snapshot() == old(self).snapshot(),
            lands_least(final(self).key(), final(self).content().dom()),
            final(self).heading() == Direction::Forward,
    {
        let n = self.subs.len();
        let mut i: usize = 0;
        while i < n
            invariant
                i <= n,
                n == self.subs@.len(),
                subs_wf(self.subs@),
                same_segments(self.subs@, old(self).subs@),
                settled_least(self.subs@, i as int, any_key()),
            decreases n - i,
        {
            self.subs[i].First();
            i += 1;
        }
        let c = find_least(&self.subs);
        self.cur = c;
        self.dir = Direction::Forward;
        proof {
            let segs = sub_maps(self.subs@);
            let keys = sub_keys(self.subs@);
            assert(segs =~= sub_maps(old(self).subs@));
            lemma_filters_closed(Seq::empty(), false);
            assert forall|i: int| 0 <= i < segs.len() implies lands_least(
                #[trigger] keys[i],
                sieve(segs[i].dom(), any_key()),
            ) by {
                assert(lands_least(self.subs@[i].key(), sieve(self.subs@[i].map().dom(), any_key())));
            }
            lemma_merge_least(segs, keys, any_key(), as_int(c));
            assert(sieve(merged(segs).dom(), any_key()) =~= merged(segs).dom());
        }
    }

    /// Moves to the highest key of the merged content.
    #[allow(non_snake_case)]
    pub fn Last(&mut self)
        requires
            old(self).wf(),
        ensures
            final(self).wf(),
            final(self).snapshot() == old(self).snapshot(),
            lands_greatest(final(self).key(), final(self).content().dom()),
            final(self).heading() == Direction::Backward,
    {
        let n = self.subs.len();
        let mut i: usize = 0;
        while i < n
            invariant
                i <= n,
                n == self.subs@.len(),
                subs_wf(self.subs@),
                same_segments(self.subs@, old(self).subs@),
                settled_greatest(self.subs@, i as int, any_key()),
            decreases n - i,
        {
            self.subs[i].Last();
            i += 1;
        }
        let c = find_greatest(&self.subs);
        self.cur = c;
        self.dir = Direction::Backward;
        proof {
            let segs = sub_maps(self.subs@);
            let keys = sub_keys(self.subs@);
            assert(segs =~= sub_maps(old(self).subs@));
            lemma_filters_closed(Seq::empty(), false);
            assert forall|i: int| 0 <= i < segs.len() implies lands_greatest(
                #[trigger] keys[i],
                sieve(segs[i].dom(), any_key()),
            ) by {
                assert(lands_greatest(
                    self.subs@[i].key(),
                    sieve(self.subs@[i].map().dom(), any_key()),
                ));
            }
            lemma_merge_greatest(segs, keys, any_key(), as_int(c));
            assert(sieve(merged(segs).dom(), any_key()) =~= merged(segs).dom());
        }
    }

    /// Moves to the next key of the merged content. Only the cursors that rest
    /// on the merged key move; where the cursors are not lined up upward, each
    /// is first brought to its segment's least key from the merged key on. A
    /// cursor that is on no key stays so.
    #[allow(non_snake_case)]
    pub fn Next(&mut self)
        requires
            old(self).wf(),
        ensures
            final(self).wf(),
            final(self).snapshot() == old(self).snapshot(),
            match old(self).key() {
                Some(k) => {
                    &&& lands_least(final(self).key(), above(final(self).content().dom(), k, true))
                    &&& final(self).heading() == Direction::Forward
                    &&& old(self).heading() == Direction::Forward ==> final(self).ahead() < old(
                        self,
                    ).ahead()
                },
                None => final(self).key() is None && final(self).heading() == old(self).heading(),
            },
    {
        let c = match self.cur {
            Some(c) => c,
            None => {
                return ;
            },
        };
        let k = copy_bytes(self.subs[c].key_ref());
        let lined_up = match self.dir {
            Direction::Forward => true,
            _ => false,
        };
        let n = self.subs.len();
        let mut i: usize = 0;
        while i < n
            invariant
                i <= n,
                c < n,
                n == self.subs@.len(),
                old(self).wf(),
                old(self).cur == Some(c),
                lined_up == (old(self).dir == Direction::Forward),
                Some(k@) == old(self).subs@[c as int].key(),
                subs_wf(self.subs@),
                same_segments(self.subs@, old(self).subs@),
                settled_least(self.subs@, i as int, from_up(k@, true)),
                forall|j: int| i <= j < n ==> self.subs@[j] == old(self).subs@[j],
                lined_up ==> forall|j: int|
                    0 <= j < n ==> (#[trigger] self.subs@[j]).ahead() <= old(self).subs@[j].ahead(),
                lined_up && i > c ==> self.subs@[c as int].ahead() < old(self).subs@[c as int].ahead(),
            decreases n - i,
        {
            let ghost dom = self.subs@[i as int].map().dom();
            if !lined_up {
                self.subs[i].Seek(k.as_slice(), SeekOp::SEEK_GE);
            } else {
                proof {
                    let segs = sub_maps(old(self).subs@);
                    let keys = sub_keys(old(self).subs@);
                    assert(lands_least(keys[i as int], above(segs[i as int].dom(), k@, false)));
                }
            }
            assert(lands_least(self.subs@[i as int].key(), above(dom, k@, false)));
            let mut at_key = false;
            if self.subs[i].IsValid() {
                if let KeyOrder::Equal = compare_keys(self.subs[i].key_ref(), k.as_slice()) {
                    at_key = true;
                }
            }
            if at_key {
                self.subs[i].Next();
            } else {
                proof {
                    // the segment does not hold the merged key, so its least key
                    // from there on is also its least key after it
                    let r = self.subs@[i as int].key();
                    lemma_key_lt_irreflexive(k@);
                    if dom.contains(k@) {
                        assert(above(dom, k@, false).contains(k@));
                        lemma_key_le_antisymmetric(k@, r.unwrap());
                    }
                    assert(above(dom, k@, true) =~= above(dom, k@, false));
                }
            }
            i += 1;
        }
        let next = find_least(&self.subs);
        self.cur = next;
        self.dir = Direction::Forward;
        proof {
            let segs = sub_maps(self.subs@);
            let keys = sub_keys(self.subs@);
            assert(segs =~= sub_maps(old(self).subs@));
            lemma_filters_closed(k@, true);
            assert forall|i: int| 0 <= i < segs.len() implies lands_least(
                #[trigger] keys[i],
                sieve(segs[i].dom(), from_up(k@, true)),
            ) by {
                assert(lands_least(
                    self.subs@[i].key(),
                    sieve(self.subs@[i].map().dom(), from_up(k@, true)),
                ));
            }
            lemma_merge_least(segs, keys, from_up(k@, true), as_int(next));
            if lined_up {
                let a = sub_ahead(self.subs@);
                let b = sub_ahead(old(self).subs@);
                assert forall|j: int| 0 <= j < a.len() implies a[j] <= b[j] by {
                    assert(self.subs@[j].ahead() <= old(self).subs@[j].ahead());
                }
                lemma_total_less(a, b, c as int);
            }
        }
    }

    /// Moves to the previous key of the merged content: the mirror image of
    /// `Next`.
    #[allow(non_snake_case)]
    pub fn Prev(&mut self)
        requires
            old(self).wf(),
        ensures
            final(self).wf(),
            final(self).snapshot() == old(self).snapshot(),
            match old(self).key() {
                Some(k) => {
                    &&& lands_greatest(
                        final(self).key(),
                        below(final(self).content().dom(), k, true),
                    )
                    &&& final(self).heading() == Direction::Backward
                    &&& old(self).heading() == Direction::Backward ==> final(self).behind() < old(
                        self,
                    ).behind()
                },
                None => final(self).key() is None && final(self).heading() == old(self).heading(),
            },
    {
        let c = match self.cur {
            Some(c) => c,
            None => {
                return ;
            },
        };
        let k = copy_bytes(self.subs[c].key_ref());
        let lined_up = match self.dir {
            Direction::Backward => true,
            _ => false,
        };
        let n = self.subs.len();
        let mut i: usize = 0;
        while i < n
            invariant
                i <= n,
                c < n,
                n == self.subs@.len(),
                old(self).wf(),
                old(self).cur == Some(c),
                lined_up == (old(self).dir == Direction::Backward),
                Some(k@) == old(self).subs@[c as int].key(),
                subs_wf(self.subs@),
                same_segments(self.subs@, old(self).subs@),
                settled_greatest(self.subs@, i as int, from_down(k@, true)),
                forall|j: int| i <= j < n ==> self.subs@[j] == old(self).subs@[j],
                lined_up ==> forall|j: int|
                    0 <= j < n ==> (#[trigger] self.subs@[j]).behind() <= old(self).subs@[j].behind(),
                lined_up && i > c ==> self.subs@[c as int].behind() < old(self).subs@[c as int].behind(),
            decreases n - i,
        {
            let ghost dom = self.subs@[i as int].map().dom();
            if !lined_up {
                self.subs[i].Seek(k.as_slice(), SeekOp::SEEK_LE);
            } else {
                proof {
                    let segs = sub_maps(old(self).subs@);
                    let keys = sub_keys(old(self).subs@);
                    assert(lands_greatest(keys[i as int], below(segs[i as int].dom(), k@, false)));
                }
            }
            assert(lands_greatest(self.subs@[i as int].key(), below(dom, k@, false)));
            let mut at_key = false;
            if self.subs[i].IsValid() {
                if let KeyOrder::Equal = compare_keys(self.subs[i].key_ref(), k.as_slice()) {
                    at_key = true;
                }
            }
            if at_key {
                self.subs[i].Prev();
            } else {
                proof {
                    let r = self.subs@[i as int].key();
                    lemma_key_lt_irreflexive(k@);
                    if dom.contains(k@) {
                        assert(below(dom, k@, false).contains(k@));
                        lemma_key_le_antisymmetric(k@, r.unwrap());
                    }
                    assert(below(dom, k@, true) =~= below(dom, k@, false));
                }
            }
            i += 1;
        }
        let next = find_greatest(&self.subs);
        self.cur = next;
        self.dir = Direction::Backward;
        proof {
            let segs = sub_maps(self.subs@);
            let keys = sub_keys(self.subs@);
            assert(segs =~= sub_maps(old(self).subs@));
            lemma_filters_closed(k@, true);
            assert forall|i: int| 0 <= i < segs.len() implies lands_greatest(
                #[trigger] keys[i],
                sieve(segs[i].dom(), from_down(k@, true)),
            ) by {
                assert(lands_greatest(
                    self.subs@[i].key(),
                    sieve(self.subs@[i].map().dom(), from_down(k@, true)),
                ));
            }
            lemma_merge_greatest(segs, keys, from_down(k@, true), as_int(next));
            if lined_up {
                let a = sub_behind(self.subs@);
                let b = sub_behind(old(self).subs@);
                assert forall|j: int| 0 <= j < a.len() implies a[j] <= b[j] by {
                    assert(self.subs@[j].behind() <= old(self).subs@[j].behind());
                }
                lemma_total_less(a, b, c as int);
            }
        }
    }

    /// Moves straight to where `k` is or would be in the merged content. Every
    /// segment's cursor seeks with the same `op`; the merged cursor then rests on
    /// the nearest of their keys, and among equal keys on the newest segment's.
    /// With `SEEK_EQ` only a segment that holds `k` itself counts.
    #[allow(non_snake_case)]
    pub fn Seek(&mut self, k: &[u8], op: SeekOp)
        requires
            old(self).wf(),
        ensures
            final(self).wf(),
            final(self).snapshot() == old(self).snapshot(),
            seek_lands(final(self).key(), final(self).content().dom(), k@, op),
            op == SeekOp::SEEK_GE ==> final(self).heading() == Direction::Forward,
            op == SeekOp::SEEK_LE ==> final(self).heading() == Direction::Backward,
    {
        let n = self.subs.len();
        let mut i: usize = 0;
        while i < n
            invariant
                i <= n,
                n == self.subs@.len(),
                subs_wf(self.subs@),
                same_segments(self.subs@, old(self).subs@),
                forall|j: int|
                    0 <= j < i ==> seek_lands(
                        (#[trigger] self.subs@[j]).key(),
                        self.subs@[j].map().dom(),
                        k@,
                        op,
                    ),
            decreases n - i,
        {
            self.subs[i].Seek(k, op);
            i += 1;
        }
        let ghost segs = sub_maps(self.subs@);
        let ghost keys = sub_keys(self.subs@);
        proof {
            assert(segs =~= sub_maps(old(self).subs@));
            lemma_filters_closed(k@, false);
        }
        match op {
            SeekOp::SEEK_GE => {
                let c = find_least(&self.subs);
                self.cur = c;
                self.dir = Direction::Forward;
                proof {
                    assert forall|i: int| 0 <= i < segs.len() implies lands_least(
                        #[trigger] keys[i],
                        sieve(segs[i].dom(), from_up(k@, false)),
                    ) by {
                        assert(seek_lands(self.subs@[i].key(), self.subs@[i].map().dom(), k@, op));
                    }
                    lemma_merge_least(segs, keys, from_up(k@, false), as_int(c));
                }
            },
            SeekOp::SEEK_LE => {
                let c = find_greatest(&self.subs);
                self.cur = c;
                self.dir = Direction::Backward;
                proof {
                    assert forall|i: int| 0 <= i < segs.len() implies lands_greatest(
                        #[trigger] keys[i],
                        sieve(segs[i].dom(), from_down(k@, false)),
                    ) by {
                        assert(seek_lands(self.subs@[i].key(), self.subs@[i].map().dom(), k@, op));
                    }
                    lemma_merge_greatest(segs, keys, from_down(k@, false), as_int(c));
                }
            },
            SeekOp::SEEK_EQ => {
                let c = find_least(&self.subs);
                self.cur = c;
                self.dir = Direction::Wandering;
                proof {
                    assert forall|i: int| 0 <= i < segs.len() implies lands_least(
                        #[trigger] keys[i],
                        sieve(segs[i].dom(), just(k@)),
                    ) by {
                        assert(seek_lands(self.subs@[i].key(), self.subs@[i].map().dom(), k@, op));
                    }
                    lemma_merge_least(segs, keys, just(k@), as_int(c));
                }
            },
        }
    }

    /// The key under the cursor, borrowed.
    pub fn key_ref(&self) -> (k: &[u8])
        requires
            self.wf(),
            self.key() is Some,
        ensures
            Some(k@) == self.key(),
    {
        self.subs[self.cur.unwrap()].key_ref()
    }

    /// The value under the cursor, borrowed: that of the newest segment that
    /// holds the key.
    pub fn value_ref(&self) -> (b: &Blob)
        requires
            self.wf(),
            self.key() is Some,
        ensures
            self.content().dom().contains(self.key().unwrap()),
            b@ == self.content()[self.key().unwrap()],
    {
        let c = self.cur.unwrap();
        proof {
            lemma_merged_value(sub_maps(self.subs@), c as int, self.key().unwrap());
        }
        self.subs[c].value_ref()
    }

    /// The key under the cursor. To ask for it while the cursor is on no key is
    /// an error of usage.
    #[allow(non_snake_case)]
    pub fn Key(&self) -> (r: Result<Vec<u8>, LsmError>)
        requires
            self.wf(),
        ensures
            match self.key() {
                Some(k) => r matches Ok(v) && v@ == k && self.content().dom().contains(k),
                None => r == Err::<Vec<u8>, LsmError>(LsmError::InvalidUsage),
            },
    {
        proof {
            self.lemma_key_in_content();
        }
        if self.cur.is_some() {
            Ok(copy_bytes(self.key_ref()))
        } else {
            Err(LsmError::InvalidUsage)
        }
    }

    /// The value under the cursor, which may be a tombstone. To ask for it
    /// while the cursor is on no key is an error of usage.
    #[allow(non_snake_case)]
    pub fn Value(&self) -> (r: Result<Blob, LsmError>)
        requires
            self.wf(),
        ensures
            match self.key() {
                Some(k) => r matches Ok(b) && b@ == self.content()[k],
                None => r matches Err(e) && e == LsmError::InvalidUsage,
            },
    {
        if self.cur.is_some() {
            Ok(self.value_ref().duplicate())
        } else {
            Err(LsmError::InvalidUsage)
        }
    }

    /// The length of the value under the cursor, `None` for a tombstone.
    #[allow(non_snake_case)]
    pub fn ValueLength(&self) -> (r: Result<Option<usize>, LsmError>)
        requires
            self.wf(),
        ensures
            match self.key() {
                Some(k) => r matches Ok(n) && match self.content()[k] {
                    Some(a) => n == Some(a.len() as usize),
                    None => n is None,
                },
                None => r == Err::<Option<usize>, LsmError>(LsmError::InvalidUsage),
            },
    {
        if self.cur.is_some() {
            Ok(self.value_ref().len())
        } else {
            Err(LsmError::InvalidUsage)
        }
    }
}

} // verus!
