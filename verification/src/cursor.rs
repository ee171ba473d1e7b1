//! A cursor over one segment.
use vstd::prelude::*;
use std::sync::Arc;
use crate::blob::{copy_bytes, Blob};
use crate::key::{
    compare_keys, key_le, key_lt, lemma_key_lt_asymmetric, lemma_key_lt_irreflexive,
    lemma_key_lt_total, KeyOrder,
};
use crate::model::{above, below, lands_greatest, lands_least, lemma_pairs_map_sorted, only};
use crate::segment::{lemma_sorted_order, LsmError, Segment};

verus! {

/// How a seek treats a key that is absent.
#[allow(non_camel_case_types)]
#[derive(Clone, Copy, Debug, PartialEq, Eq, Structural)]
pub enum SeekOp {
    /// Land on the key itself, or nowhere.
    SEEK_EQ,
    /// Land on the greatest key that is not after the target.
    SEEK_LE,
    /// Land on the least key that is not before the target.
    SEEK_GE,
}

/// Where a seek for `k` with `op` comes to rest among the keys `s`.
pub open spec fn seek_lands(r: Option<Seq<u8>>, s: Set<Seq<u8>>, k: Seq<u8>, op: SeekOp) -> bool {
    match op {
        SeekOp::SEEK_EQ => lands_least(r, only(s, k)),
        SeekOp::SEEK_LE => lands_greatest(r, below(s, k, false)),
        SeekOp::SEEK_GE => lands_least(r, above(s, k, false)),
    }
}

/// A position in one segment: on one of its keys, or on none.
pub struct SegmentCursor {
    seg: Arc<Segment>,
    pos: Option<usize>,
}

impl SegmentCursor {
    /// The segment that the cursor walks.
    pub closed spec fn segment(&self) -> Segment {
        *self.seg
    }

    /// The segment is sorted and the position lies in it.
    pub closed spec fn wf(&self) -> bool {
        &&& self.seg.wf()
        &&& self.pos matches Some(i) ==> i < self.seg@.len()
    }

    /// The content of the segment as a map.
    pub open spec fn map(&self) -> Map<Seq<u8>, Option<Seq<u8>>> {
        self.segment().map()
    }

    /// The key that the cursor is on, if it is on one.
    pub closed spec fn key(&self) -> Option<Seq<u8>> {
        match self.pos {
            Some(i) => Some(self.seg@[i as int].0),
            None => None,
        }
    }

    /// How many keys lie from the cursor to the end of the segment, the key
    /// under it counted; none if it is on no key.
    pub closed spec fn ahead(&self) -> nat {
        match self.pos {
            Some(i) => (self.seg@.len() - i) as nat,
            None => 0,
        }
    }

    /// How many keys lie from the start of the segment to the cursor, the key
    /// under it counted; none if it is on no key.
    pub closed spec fn behind(&self) -> nat {
        match self.pos {
            Some(i) => (i + 1) as nat,
            None => 0,
        }
    }

    /// A cursor over `seg`, on no key.
    pub fn new(seg: Arc<Segment>) -> (c: SegmentCursor)
        requires
            seg.wf(),
        ensures
            c.wf(),
            c.segment() == *seg,
            c.key() is None,
    {
        SegmentCursor { seg, pos: None }
    }

    /// Whether the cursor is on a key.
    #[allow(non_snake_case)]
    pub fn IsValid(&self) -> (r: bool)
        ensures
            r == (self.key() is Some),
    {
        self.pos.is_some()
    }

    /// Moves to the lowest key.
    #[allow(non_snake_case)]
    pub fn First(&mut self)
        requires
            old(self).wf(),
        ensures
            final(self).wf(),
            final(self).segment() == old(self).segment(),
            lands_least(final(self).key(), final(self).map().dom()),
    {
        proof {
            lemma_pairs_map_sorted(self.seg@);
        }
        if self.seg.len() > 0 {
            self.pos = Some(0);
            proof {
                let p = self.seg@;
                assert forall|x: Seq<u8>| #[trigger] self.map().dom().contains(x) implies key_le(
                    p[0].0,
                    x,
                ) by {
                    let i = choose|i: int| 0 <= i < p.len() && #[trigger] p[i].0 == x;
                    if i > 0 {
                        assert(key_lt(p[0].0, p[i].0));
                        lemma_key_lt_asymmetric(p[0].0, x);
                    } else {
                        lemma_key_lt_irreflexive(x);
                    }
                }
            }
        } else {
            self.pos = None;
        }
    }

    /// Moves to the highest key.
    #[allow(non_snake_case)]
    pub fn Last(&mut self)
        requires
            old(self).wf(),
        ensures
            final(self).wf(),
            final(self).segment() == old(self).segment(),
            lands_greatest(final(self).key(), final(self).map().dom()),
    {
        proof {
            lemma_pairs_map_sorted(self.seg@);
        }
        let n = self.seg.len();
        if n > 0 {
            self.pos = Some(n - 1);
            proof {
                let p = self.seg@;
                assert forall|x: Seq<u8>| #[trigger] self.map().dom().contains(x) implies key_le(
                    x,
                    p[n - 1].0,
                ) by {
                    let i = choose|i: int| 0 <= i < p.len() && #[trigger] p[i].0 == x;
                    lemma_sorted_order(p, i, n - 1);
                }
            }
        } else {
            self.pos = None;
        }
    }

    /// Moves one key up. From the highest key the cursor leaves the segment; a
    /// cursor that is on no key stays so.
    #[allow(non_snake_case)]
    pub fn Next(&mut self)
        requires
            old(self).wf(),
        ensures
            final(self).wf(),
            final(self).segment() == old(self).segment(),
            match old(self).key() {
                Some(k) => lands_least(final(self).key(), above(final(self).map().dom(), k, true))
                    && final(self).ahead() < old(self).ahead(),
                None => final(self).key() is None,
            },
    {
        proof {
            lemma_pairs_map_sorted(self.seg@);
        }
        if let Some(i) = self.pos {
            let ghost p = self.seg@;
            let ghost k = p[i as int].0;
            proof {
                assert forall|x: Seq<u8>| #[trigger]
                    above(self.map().dom(), k, true).contains(x) implies exists|j: int|
                    i < j < p.len() && p[j].0 == x by {
                    let j = choose|j: int| 0 <= j < p.len() && #[trigger] p[j].0 == x;
                    lemma_sorted_order(p, i as int, j);
                }
            }
            let n = self.seg.len();
            if i + 1 < n {
                self.pos = Some(i + 1);
                proof {
                    lemma_sorted_order(p, i as int, i + 1);
                    assert forall|x: Seq<u8>| #[trigger]
                        above(self.map().dom(), k, true).contains(x) implies key_le(
                        p[i + 1].0,
                        x,
                    ) by {
                        let j = choose|j: int| i < j < p.len() && p[j].0 == x;
                        lemma_sorted_order(p, i + 1, j);
                    }
                }
            } else {
                self.pos = None;
            }
        }
    }

    /// Moves one key down. From the lowest key the cursor leaves the segment; a
    /// cursor that is on no key stays so.
    #[allow(non_snake_case)]
    pub fn Prev(&mut self)
        requires
            old(self).wf(),
        ensures
            final(self).wf(),
            final(self).segment() == old(self).segment(),
            match old(self).key() {
                Some(k) => lands_greatest(
                    final(self).key(),
                    below(final(self).map().dom(), k, true),
                ) && final(self).behind() < old(self).behind(),
                None => final(self).key() is None,
            },
    {
        proof {
            lemma_pairs_map_sorted(self.seg@);
        }
        if let Some(i) = self.pos {
            let ghost p = self.seg@;
            let ghost k = p[i as int].0;
            proof {
                assert forall|x: Seq<u8>| #[trigger]
                    below(self.map().dom(), k, true).contains(x) implies exists|j: int|
                    0 <= j < i && p[j].0 == x by {
                    let j = choose|j: int| 0 <= j < p.len() && #[trigger] p[j].0 == x;
                    lemma_sorted_order(p, j, i as int);
                }
            }
            if i > 0 {
                self.pos = Some(i - 1);
                proof {
                    lemma_sorted_order(p, i - 1, i as int);
                    assert forall|x: Seq<u8>| #[trigger]
                        below(self.map().dom(), k, true).contains(x) implies key_le(
                        x,
                        p[i - 1].0,
                    ) by {
                        let j = choose|j: int| 0 <= j < i && p[j].0 == x;
                        lemma_sorted_order(p, j, i - 1);
                    }
                }
            } else {
                self.pos = None;
            }
        }
    }

    /// Moves straight to where `k` is or would be, by halving the segment:
    /// onto `k` itself, onto its nearest neighbour on the side that `op` names,
    /// or onto no key where there is none.
    #[allow(non_snake_case)]
    pub fn Seek(&mut self, k: &[u8], op: SeekOp)
        requires
            old(self).wf(),
        ensures
            final(self).wf(),
            final(self).segment() == old(self).segment(),
            seek_lands(final(self).key(), final(self).map().dom(), k@, op),
    {
        let n = self.seg.len();
        let at = self.seg.lower_bound(k);
        let ghost p = self.seg@;
        let mut hit = false;
        if at < n {
            if let KeyOrder::Equal = compare_keys(self.seg.key_at(at), k) {
                hit = true;
            }
        }
        proof {
            lemma_pairs_map_sorted(p);
            lemma_key_lt_irreflexive(k@);
            assert(hit <==> at < n && p[at as int].0 == k@);
            // every key of the segment sits at some position, before `at` if it
            // sorts before `k` and from `at` on if not
            assert forall|x: Seq<u8>| #[trigger] self.map().dom().contains(x) implies exists|j: int|
                0 <= j < p.len() && p[j].0 == x && (j < at <==> key_lt(x, k@)) by {
                let j = choose|j: int| 0 <= j < p.len() && #[trigger] p[j].0 == x;
                if j < at {
                    assert(key_lt(p[j].0, k@));
                } else {
                    assert(key_le(k@, p[j].0));
                }
            }
        }
        match op {
            SeekOp::SEEK_EQ => {
                if hit {
                    self.pos = Some(at);
                } else {
                    self.pos = None;
                    proof {
                        assert forall|x: Seq<u8>| !#[trigger] only(self.map().dom(), k@).contains(
                            x,
                        ) by {
                            if self.map().dom().contains(x) && x == k@ {
                                let j = choose|j: int|
                                    0 <= j < p.len() && p[j].0 == x && (j < at <==> key_lt(x, k@));
                                lemma_sorted_order(p, j, at as int);
                            }
                        }
                    }
                }
            },
            SeekOp::SEEK_GE => {
                if at < n {
                    self.pos = Some(at);
                    proof {
                        assert(key_le(k@, p[at as int].0));
                        assert forall|x: Seq<u8>| #[trigger]
                            above(self.map().dom(), k@, false).contains(x) implies key_le(
                            p[at as int].0,
                            x,
                        ) by {
                            let j = choose|j: int|
                                0 <= j < p.len() && p[j].0 == x && (j < at <==> key_lt(x, k@));
                            lemma_sorted_order(p, at as int, j);
                        }
                    }
                } else {
                    self.pos = None;
                    proof {
                        assert forall|x: Seq<u8>| !#[trigger] above(
                            self.map().dom(),
                            k@,
                            false,
                        ).contains(x) by {
                            if self.map().dom().contains(x) {
                                let j = choose|j: int|
                                    0 <= j < p.len() && p[j].0 == x && (j < at <==> key_lt(x, k@));
                            }
                        }
                    }
                }
            },
            SeekOp::SEEK_LE => {
                if hit {
                    self.pos = Some(at);
                    proof {
                        assert forall|x: Seq<u8>| #[trigger]
                            below(self.map().dom(), k@, false).contains(x) implies key_le(
                            x,
                            p[at as int].0,
                        ) by {}
                    }
                } else if at > 0 {
                    self.pos = Some(at - 1);
                    proof {
                        assert(key_lt(p[at - 1].0, k@));
                        lemma_key_lt_asymmetric(p[at - 1].0, k@);
                        assert forall|x: Seq<u8>| #[trigger]
                            below(self.map().dom(), k@, false).contains(x) implies key_le(
                            x,
                            p[at - 1].0,
                        ) by {
                            let j = choose|j: int|
                                0 <= j < p.len() && p[j].0 == x && (j < at <==> key_lt(x, k@));
                            lemma_key_lt_total(x, k@);
                            if j >= at {
                                lemma_sorted_order(p, j, at as int);
                            } else {
                                lemma_sorted_order(p, j, at - 1);
                            }
                        }
                    }
                } else {
                    self.pos = None;
                    proof {
                        assert forall|x: Seq<u8>| !#[trigger] below(
                            self.map().dom(),
                            k@,
                            false,
                        ).contains(x) by {
                            if self.map().dom().contains(x) && key_le(x, k@) {
                                let j = choose|j: int|
                                    0 <= j < p.len() && p[j].0 == x && (j < at <==> key_lt(x, k@));
                                lemma_key_lt_total(x, k@);
                                if x == k@ {
                                    lemma_sorted_order(p, j, at as int);
                                }
                            }
                        }
                    }
                }
            },
        }
    }

    /// The key under the cursor, borrowed.
    pub fn key_ref(&self) -> (k: &[u8])
        requires
            self.wf(),
            self.key() is Some,
        ensures
            Some(k@) == self.key(),
    {
        self.seg.key_at(self.pos.unwrap())
    }

    /// The value under the cursor, borrowed.
    pub fn value_ref(&self) -> (b: &Blob)
        requires
            self.wf(),
            self.key() is Some,
        ensures
            b@ == self.map()[self.key().unwrap()],
    {
        proof {
            lemma_pairs_map_sorted(self.seg@);
        }
        self.seg.value_at(self.pos.unwrap())
    }

    /// The key under the cursor. To ask for it while the cursor is on no key is
    /// an error of usage.
    #[allow(non_snake_case)]
    pub fn Key(&self) -> (r: Result<Vec<u8>, LsmError>)
        requires
            self.wf(),
        ensures
            match self.key() {
                Some(k) => r matches Ok(v) && v@ == k && self.map().dom().contains(k),
                None => r == Err::<Vec<u8>, LsmError>(LsmError::InvalidUsage),
            },
    {
        proof {
            lemma_pairs_map_sorted(self.seg@);
        }
        if self.pos.is_some() {
            Ok(copy_bytes(self.key_ref()))
        } else {
            Err(LsmError::InvalidUsage)
        }
    }

    /// The value under the cursor. To ask for it while the cursor is on no key
    /// is an error of usage.
    #[allow(non_snake_case)]
    pub fn Value(&self) -> (r: Result<Blob, LsmError>)
        requires
            self.wf(),
        ensures
            match self.key() {
                Some(k) => r matches Ok(b) && b@ == self.map()[k],
                None => r matches Err(e) && e == LsmError::InvalidUsage,
            },
    {
        if self.pos.is_some() {
            Ok(self.value_ref().duplicate())
        } else {
            Err(LsmError::InvalidUsage)
        }
    }

    /// The length of the value under the cursor, `None` for a tombstone.
    #[allow(non_snake_case)]
    pub fn ValueLength(&self) -> (r: Result<Option<usize>, LsmError>)
        requires
            self.wf(),
        ensures
            match self.key() {
                Some(k) => r matches Ok(n) && match self.map()[k] {
                    Some(a) => n == Some(a.len() as usize),
                    None => n is None,
                },
                None => r == Err::<Option<usize>, LsmError>(LsmError::InvalidUsage),
            },
    {
        if self.pos.is_some() {
            Ok(self.value_ref().len())
        } else {
            Err(LsmError::InvalidUsage)
        }
    }
}

} // verus!
