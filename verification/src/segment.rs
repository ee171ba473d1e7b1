//! A segment: an immutable run of pairs whose keys increase strictly.
use vstd::prelude::*;
use crate::blob::Blob;
use crate::key::{
    compare_keys, key_le, key_lt, lemma_key_le_lt_transitive, lemma_key_lt_irreflexive,
    lemma_key_lt_total, lemma_key_lt_transitive, lemma_key_lt_asymmetric, KeyOrder,
};
use crate::model::{lemma_pairs_map_sorted, pairs_map, pairs_sorted};

verus! {

/// What went wrong in a call on the store.
#[derive(Clone, Copy, Debug, PartialEq, Eq, Structural)]
pub enum LsmError {
    /// The input breaks a rule of the store: keys that should increase do not.
    ConsistencyError,
    /// The call makes no sense in the state the cursor is in.
    InvalidUsage,
}

/// The pairs of a list as mathematical values.
pub open spec fn pairs_view(v: Seq<(Vec<u8>, Blob)>) -> Seq<(Seq<u8>, Option<Seq<u8>>)> {
    Seq::new(v.len(), |i: int| (v[i].0@, v[i].1@))
}

/// An immutable sorted run of key-value pairs.
pub struct Segment {
    pairs: Vec<(Vec<u8>, Blob)>,
}

impl View for Segment {
    type V = Seq<(Seq<u8>, Option<Seq<u8>>)>;

    /// The pairs in the order in which the segment holds them.
    closed spec fn view(&self) -> Seq<(Seq<u8>, Option<Seq<u8>>)> {
        pairs_view(self.pairs@)
    }
}

impl Segment {
    /// The keys increase strictly, so no key occurs twice.
    pub open spec fn wf(&self) -> bool {
        pairs_sorted(self@)
    }

    /// The segment as a map from keys to values.
    pub open spec fn map(&self) -> Map<Seq<u8>, Option<Seq<u8>>> {
        pairs_map(self@)
    }

    /// The number of pairs.
    pub fn len(&self) -> (n: usize)
        ensures
            n == self@.len(),
    {
        self.pairs.len()
    }

    /// The key of pair number `i`.
    pub fn key_at(&self, i: usize) -> (k: &[u8])
        requires
            i < self@.len(),
        ensures
            k@ == self@[i as int].0,
    {
        self.pairs[i].0.as_slice()
    }

    /// The value of pair number `i`.
    pub fn value_at(&self, i: usize) -> (b: &Blob)
        requires
            i < self@.len(),
        ensures
            b@ == self@[i as int].1,
    {
        &self.pairs[i].1
    }

    /// The number of keys that sort strictly before `k`, found by halving.
    pub fn lower_bound(&self, k: &[u8]) -> (n: usize)
        requires
            self.wf(),
        ensures
            n <= self@.len(),
            forall|i: int| 0 <= i < n ==> key_lt(#[trigger] self@[i].0, k@),
            forall|i: int| n <= i < self@.len() ==> key_le(k@, #[trigger] self@[i].0),
    {
        let mut lo: usize = 0;
        let mut hi: usize = self.pairs.len();
        while lo < hi
            invariant
                self.wf(),
                lo <= hi <= self@.len(),
                self@.len() == self.pairs@.len(),
                forall|i: int| 0 <= i < lo ==> key_lt(#[trigger] self@[i].0, k@),
                forall|i: int| hi <= i < self@.len() ==> key_le(k@, #[trigger] self@[i].0),
            decreases hi - lo,
        {
            let mid = lo + (hi - lo) / 2;
            let ord = compare_keys(self.key_at(mid), k);
            match ord {
                KeyOrder::Less => {
                    proof {
                        assert forall|i: int| 0 <= i < mid + 1 implies key_lt(
                            #[trigger] self@[i].0,
                            k@,
                        ) by {
                            if i < mid {
                                lemma_key_lt_transitive(self@[i].0, self@[mid as int].0, k@);
                            }
                        }
                    }
                    lo = mid + 1;
                },
                _ => {
                    proof {
                        lemma_key_lt_irreflexive(k@);
                        lemma_key_lt_total(self@[mid as int].0, k@);
                        lemma_key_lt_asymmetric(self@[mid as int].0, k@);
                        assert(key_le(k@, self@[mid as int].0));
                        assert forall|i: int| mid <= i < self@.len() implies key_le(
                            k@,
                            #[trigger] self@[i].0,
                        ) by {
                            if mid < i {
                                assert(key_lt(self@[mid as int].0, self@[i].0));
                                if key_lt(self@[i].0, k@) {
                                    lemma_key_lt_transitive(
                                        self@[mid as int].0,
                                        self@[i].0,
                                        k@,
                                    );
                                }
                            }
                        }
                    }
                    hi = mid;
                },
            }
        }
        lo
    }

    /// Builds a segment from pairs that the caller holds to be sorted. Each
    /// neighbouring pair of keys is checked; where one does not increase, the
    /// input is refused and no segment is made.
    pub fn from_sorted(pairs: Vec<(Vec<u8>, Blob)>) -> (r: Result<Segment, LsmError>)
        ensures
            r is Ok <==> pairs_sorted(pairs_view(pairs@)),
            r matches Ok(s) ==> s@ == pairs_view(pairs@) && s.wf(),
            r matches Err(e) ==> e == LsmError::ConsistencyError,
    {
        let ghost pv = pairs_view(pairs@);
        let mut i: usize = 1;
        while i < pairs.len()
            invariant
                1 <= i,
                pv == pairs_view(pairs@),
                pv.len() == pairs@.len(),
                forall|a: int| 0 < a < i && a < pv.len() ==> key_lt(#[trigger] pv[a - 1].0, pv[a].0),
            decreases pairs.len() - i,
        {
            let ord = compare_keys(pairs[i - 1].0.as_slice(), pairs[i].0.as_slice());
            match ord {
                KeyOrder::Less => {},
                _ => {
                    proof {
                        assert(!key_lt(pv[i - 1].0, pv[i as int].0));
                    }
                    return Err(LsmError::ConsistencyError);
                },
            }
            i += 1;
        }
        proof {
            lemma_adjacent_sorted(pv);
        }
        // what is left in a stream is read now, so that the segment holds
        // every value in full
        let mut pairs = pairs;
        let n = pairs.len();
        let mut j: usize = 0;
        while j < n
            invariant
                j <= n,
                n == pairs@.len(),
                pairs_view(pairs@) == pv,
            decreases n - j,
        {
            let mut value = Blob::Tombstone;
            core::mem::swap(&mut value, &mut pairs[j].1);
            pairs[j].1 = value.materialize();
            assert(pairs_view(pairs@) =~= pv);
            j += 1;
        }
        Ok(Segment { pairs })
    }

    /// Builds a segment from pairs in any order. Where a key occurs more than
    /// once, the pair that comes last decides its value.
    pub fn from_unsorted(pairs: Vec<(Vec<u8>, Blob)>) -> (s: Segment)
        ensures
            s.wf(),
            s.map() == pairs_map(pairs_view(pairs@)),
    {
        let ghost pv = pairs_view(pairs@);
        let mut pairs = pairs;
        let n = pairs.len();
        let mut seg = Segment { pairs: Vec::with_capacity(n) };
        let mut i: usize = 0;
        proof {
            assert(pv.subrange(0, 0) =~= Seq::empty());
            assert(seg@ =~= Seq::empty());
        }
        while i < n
            invariant
                i <= n,
                n == pairs@.len(),
                pv.len() == n,
                forall|j: int| i <= j < n ==> (#[trigger] pairs@[j]).0@ == pv[j].0 && pairs@[j].1@ == pv[j].1,
                seg.wf(),
                seg.map() == pairs_map(pv.subrange(0, i as int)),
            decreases n - i,
        {
            // the pair is taken out of the list, so that a long value is moved
            // and not copied
            let mut item: (Vec<u8>, Blob) = (Vec::new(), Blob::Tombstone);
            core::mem::swap(&mut item, &mut pairs[i]);
            let (key, value) = item;
            proof {
                assert(pv.subrange(0, i + 1).drop_last() =~= pv.subrange(0, i as int));
                assert(pv.subrange(0, i + 1).last() == pv[i as int]);
            }
            seg.put(key, value.materialize());
            i += 1;
        }
        proof {
            assert(pv.subrange(0, n as int) =~= pv);
        }
        seg
    }

    /// Binds `key` to `value`, in the place that keeps the keys sorted.
    fn put(&mut self, key: Vec<u8>, value: Blob)
        requires
            old(self).wf(),
        ensures
            final(self).wf(),
            final(self).map() == old(self).map().insert(key@, value@),
    {
        let n = self.lower_bound(key.as_slice());
        let ghost before = self@;
        proof {
            lemma_pairs_map_sorted(before);
        }
        let mut found = false;
        if n < self.pairs.len() {
            if let KeyOrder::Equal = compare_keys(self.pairs[n].0.as_slice(), key.as_slice()) {
                found = true;
                proof {
                    assert(before[n as int].0 == key@);
                }
            }
        }
        assert(found ==> before[n as int].0 == key@);
        if found {
            self.pairs.set(n, (key, value));
            proof {
                let after = self@;
                assert(after =~= before.update(n as int, (key@, value@)));
                assert forall|i: int, j: int| 0 <= i < j < after.len() implies key_lt(
                    #[trigger] after[i].0,
                    #[trigger] after[j].0,
                ) by {
                    assert(key_lt(before[i].0, before[j].0));
                }
                lemma_pairs_map_sorted(after);
                assert forall|k: Seq<u8>| #[trigger]
                    pairs_map(after).dom().contains(k) <==> pairs_map(before).insert(
                        key@,
                        value@,
                    ).dom().contains(k) by {
                    if pairs_map(after).dom().contains(k) {
                        let i = choose|i: int| 0 <= i < after.len() && #[trigger] after[i].0 == k;
                        assert(before[i].0 == k);
                    }
                    if pairs_map(before).dom().contains(k) {
                        let i = choose|i: int| 0 <= i < before.len() && #[trigger] before[i].0 == k;
                        assert(after[i].0 == k);
                    }
                    if k == key@ {
                        assert(after[n as int].0 == k);
                    }
                }
                assert forall|k: Seq<u8>| #[trigger]
                    pairs_map(after).dom().contains(k) implies pairs_map(after)[k] == pairs_map(
                    before,
                ).insert(key@, value@)[k] by {
                    let i = choose|i: int| 0 <= i < after.len() && #[trigger] after[i].0 == k;
                    if i != n {
                        assert(before[i].0 == k);
                        if k == key@ {
                            if i < n {
                                assert(key_lt(before[i].0, before[n as int].0));
                            } else {
                                assert(key_lt(before[n as int].0, before[i].0));
                            }
                            lemma_key_lt_irreflexive(k);
                        }
                    }
                }
                assert(pairs_map(after) =~= pairs_map(before).insert(key@, value@));
            }
        } else {
            self.pairs.insert(n, (key, value));
            proof {
                let after = self@;
                assert(after =~= before.insert(n as int, (key@, value@)));
                lemma_key_lt_irreflexive(key@);
                if n < before.len() {
                    lemma_key_lt_total(before[n as int].0, key@);
                }
                assert forall|i: int, j: int| 0 <= i < j < after.len() implies key_lt(
                    #[trigger] after[i].0,
                    #[trigger] after[j].0,
                ) by {
                    if j < n {
                        assert(key_lt(before[i].0, before[j].0));
                    } else if j == n {
                        assert(key_lt(before[i].0, key@));
                    } else if i == n {
                        assert(key_le(key@, before[j - 1].0));
                        if j - 1 > n {
                            assert(key_lt(before[n as int].0, before[j - 1].0));
                            lemma_key_lt_transitive(key@, before[n as int].0, before[j - 1].0);
                        }
                    } else if i < n {
                        assert(key_lt(before[i].0, key@));
                        assert(key_le(key@, before[j - 1].0));
                        lemma_key_le_lt_transitive(before[i].0, key@, before[j - 1].0);
                    } else {
                        assert(key_lt(before[i - 1].0, before[j - 1].0));
                    }
                }
                lemma_pairs_map_sorted(after);
                assert forall|k: Seq<u8>| #[trigger]
                    pairs_map(after).dom().contains(k) <==> pairs_map(before).insert(
                        key@,
                        value@,
                    ).dom().contains(k) by {
                    if pairs_map(after).dom().contains(k) {
                        let i = choose|i: int| 0 <= i < after.len() && #[trigger] after[i].0 == k;
                        if i < n {
                            assert(before[i].0 == k);
                        } else if i > n {
                            assert(before[i - 1].0 == k);
                        }
                    }
                    if pairs_map(before).dom().contains(k) {
                        let i = choose|i: int| 0 <= i < before.len() && #[trigger] before[i].0 == k;
                        if i < n {
                            assert(after[i].0 == k);
                        } else {
                            assert(after[i + 1].0 == k);
                        }
                    }
                    if k == key@ {
                        assert(after[n as int].0 == k);
                    }
                }
                assert forall|k: Seq<u8>| #[trigger]
                    pairs_map(after).dom().contains(k) implies pairs_map(after)[k] == pairs_map(
                    before,
                ).insert(key@, value@)[k] by {
                    let i = choose|i: int| 0 <= i < after.len() && #[trigger] after[i].0 == k;
                    if i < n {
                        assert(before[i].0 == k);
                        assert(key_lt(after[i].0, after[n as int].0));
                    } else if i > n {
                        assert(before[i - 1].0 == k);
                        assert(key_lt(after[n as int].0, after[i].0));
                    }
                }
                assert(pairs_map(after) =~= pairs_map(before).insert(key@, value@));
            }
        }
    }
}

/// In a sorted list the keys are ordered as their positions are.
pub proof fn lemma_sorted_order(p: Seq<(Seq<u8>, Option<Seq<u8>>)>, i: int, j: int)
    requires
        pairs_sorted(p),
        0 <= i < p.len(),
        0 <= j < p.len(),
    ensures
        i < j <==> key_lt(p[i].0, p[j].0),
        i == j <==> p[i].0 == p[j].0,
        i <= j <==> key_le(p[i].0, p[j].0),
{
    lemma_key_lt_irreflexive(p[i].0);
    lemma_key_lt_asymmetric(p[i].0, p[j].0);
    if i < j {
        assert(key_lt(p[i].0, p[j].0));
    }
    if j < i {
        assert(key_lt(p[j].0, p[i].0));
    }
}

/// Keys that increase from each pair to the next increase over the whole list.
pub proof fn lemma_adjacent_sorted(p: Seq<(Seq<u8>, Option<Seq<u8>>)>)
    requires
        forall|a: int| 0 < a < p.len() ==> key_lt(#[trigger] p[a - 1].0, p[a].0),
    ensures
        pairs_sorted(p),
{
    assert forall|i: int, j: int| 0 <= i < j < p.len() implies key_lt(
        #[trigger] p[i].0,
        #[trigger] p[j].0,
    ) by {
        lemma_adjacent_chain(p, i, j);
    }
}

proof fn lemma_adjacent_chain(p: Seq<(Seq<u8>, Option<Seq<u8>>)>, i: int, j: int)
    requires
        forall|a: int| 0 < a < p.len() ==> key_lt(#[trigger] p[a - 1].0, p[a].0),
        0 <= i < j < p.len(),
    ensures
        key_lt(p[i].0, p[j].0),
    decreases j - i,
{
    assert(key_lt(p[j - 1].0, p[j].0));
    if i < j - 1 {
        lemma_adjacent_chain(p, i, j - 1);
        lemma_key_lt_transitive(p[i].0, p[j - 1].0, p[j].0);
    }
}

} // verus!
