//! The store: written segments, the catalog of committed ones, the write lock
//! that alone extends the catalog, and cursors over a snapshot of it.
use vstd::prelude::*;
use std::sync::Arc;
use crate::blob::Blob;
use crate::living::LivingCursor;
use crate::model::{pairs_map, pairs_sorted};
use crate::multicursor::{segment_maps, segments_wf, MultiCursor};
use crate::segment::{pairs_view, LsmError, Segment};

verus! {

/// How the store lays segments out.
#[allow(non_snake_case)]
#[derive(Clone, Copy, Debug, PartialEq, Eq, Structural)]
pub struct DbSettings {
    /// The size of a page in bytes.
    pub DefaultPageSize: usize,
    /// The number of pages that make up a block.
    pub PagesPerBlock: usize,
}

impl Default for DbSettings {
    fn default() -> (s: DbSettings)
        ensures
            s == (DbSettings { DefaultPageSize: 4096, PagesPerBlock: 256 }),
    {
        DbSettings { DefaultPageSize: 4096, PagesPerBlock: 256 }
    }
}

/// A written segment, not yet or already committed. Whoever holds the handle
/// can commit the segment; nothing can change it.
pub struct SegmentHandle {
    seg: Arc<Segment>,
}

impl SegmentHandle {
    /// The pairs of the segment in the order in which it holds them.
    pub closed spec fn pairs(&self) -> Seq<(Seq<u8>, Option<Seq<u8>>)> {
        self.seg@
    }

    /// The segment as a map.
    pub open spec fn map(&self) -> Map<Seq<u8>, Option<Seq<u8>>> {
        pairs_map(self.pairs())
    }

    /// The keys of the segment increase strictly in byte order.
    pub open spec fn wf(&self) -> bool {
        pairs_sorted(self.pairs())
    }

    /// Another handle to the same segment.
    pub fn duplicate(&self) -> (h: SegmentHandle)
        ensures
            h.map() == self.map(),
            h.pairs() == self.pairs(),
            h.wf() == self.wf(),
    {
        SegmentHandle { seg: self.seg.clone() }
    }
}

impl Clone for SegmentHandle {
    fn clone(&self) -> (h: SegmentHandle)
        ensures
            h.map() == self.map(),
            h.pairs() == self.pairs(),
            h.wf() == self.wf(),
    {
        self.duplicate()
    }
}

/// The segments behind a list of handles, as maps.
pub open spec fn handle_maps(handles: Seq<SegmentHandle>) -> Seq<Map<Seq<u8>, Option<Seq<u8>>>> {
    Seq::new(handles.len(), |i: int| handles[i].map())
}

/// Every handle of the list names a sorted segment.
pub open spec fn handles_wf(handles: Seq<SegmentHandle>) -> bool {
    forall|i: int| 0 <= i < handles.len() ==> (#[trigger] handles[i]).wf()
}

/// Pairs whose values are all plain bytes, as mathematical values.
pub open spec fn array_pairs_view(v: Seq<(Vec<u8>, Vec<u8>)>) -> Seq<(Seq<u8>, Option<Seq<u8>>)> {
    Seq::new(v.len(), |i: int| (v[i].0@, Some(v[i].1@)))
}

/// The store.
#[allow(non_camel_case_types)]
pub struct db {
    settings: DbSettings,
    catalog: Vec<Arc<Segment>>,
    version: u64,
}

impl db {
    /// The committed segments as maps, oldest first.
    pub closed spec fn catalog(&self) -> Seq<Map<Seq<u8>, Option<Seq<u8>>>> {
        segment_maps(self.catalog@)
    }

    /// The settings that the store was made with.
    pub closed spec fn settings(&self) -> DbSettings {
        self.settings
    }

    /// The version of the catalog: the number of commits so far.
    pub closed spec fn version(&self) -> u64 {
        self.version
    }

    /// Every committed segment is sorted.
    pub closed spec fn wf(&self) -> bool {
        segments_wf(self.catalog@)
    }

    /// An empty store.
    pub fn new(settings: DbSettings) -> (d: db)
        ensures
            d.wf(),
            d.catalog() == Seq::<Map<Seq<u8>, Option<Seq<u8>>>>::empty(),
            d.settings() == settings,
            d.version() == 0,
    {
        let d = db { settings, catalog: Vec::new(), version: 0 };
        proof {
            assert(d.catalog() =~= Seq::empty());
        }
        d
    }

    /// The settings that the store was made with.
    pub fn get_settings(&self) -> (s: DbSettings)
        ensures
            s == self.settings(),
    {
        self.settings
    }

    /// The version of the catalog: the number of commits so far.
    pub fn get_version(&self) -> (v: u64)
        ensures
            v == self.version(),
    {
        self.version
    }

    /// Writes a segment from pairs in any order, all of them plain values. The
    /// catalog does not change: the segment is invisible until committed.
    #[allow(non_snake_case)]
    pub fn WriteSegment(&self, pairs: Vec<(Vec<u8>, Vec<u8>)>) -> (h: SegmentHandle)
        ensures
            h.wf(),
            h.map() == pairs_map(array_pairs_view(pairs@)),
    {
        let ghost given = pairs@;
        let mut pairs = pairs;
        let n = pairs.len();
        let mut blobs: Vec<(Vec<u8>, Blob)> = Vec::with_capacity(n);
        let mut i: usize = 0;
        while i < n
            invariant
                i <= n,
                n == pairs@.len(),
                given.len() == n,
                blobs@.len() == i,
                forall|j: int| i <= j < n ==> (#[trigger] pairs@[j]).0@ == given[j].0@ && pairs@[j].1@
                    == given[j].1@,
                forall|j: int|
                    0 <= j < i ==> (#[trigger] blobs@[j]).0@ == given[j].0@ && blobs@[j].1@ == Some(
                        given[j].1@,
                    ),
            decreases n - i,
        {
            // the pair is taken out of the list, so that its bytes are moved
            // and not copied
            let mut item: (Vec<u8>, Vec<u8>) = (Vec::new(), Vec::new());
            core::mem::swap(&mut item, &mut pairs[i]);
            let (key, value) = item;
            blobs.push((key, Blob::Array(value)));
            i += 1;
        }
        proof {
            assert(pairs_view(blobs@) =~= array_pairs_view(given));
        }
        SegmentHandle { seg: Arc::new(Segment::from_unsorted(blobs)) }
    }

    /// Writes a segment from pairs in any order, whose values may be
    /// tombstones. Where a key occurs twice the later pair decides.
    #[allow(non_snake_case)]
    pub fn WriteSegment2(&self, pairs: Vec<(Vec<u8>, Blob)>) -> (h: SegmentHandle)
        ensures
            h.wf(),
            h.map() == pairs_map(pairs_view(pairs@)),
    {
        SegmentHandle { seg: Arc::new(Segment::from_unsorted(pairs)) }
    }

    /// Writes a segment from pairs that are already sorted, without sorting.
    /// Pairs whose keys do not increase strictly are refused.
    #[allow(non_snake_case)]
    pub fn WriteSegmentFromSortedSequence(&self, pairs: Vec<(Vec<u8>, Blob)>) -> (r: Result<
        SegmentHandle,
        LsmError,
    >)
        ensures
            r is Ok <==> pairs_sorted(pairs_view(pairs@)),
            r matches Ok(h) ==> h.wf() && h.pairs() == pairs_view(pairs@) && h.map() == pairs_map(
                pairs_view(pairs@),
            ),
            r matches Err(e) ==> e == LsmError::ConsistencyError,
    {
        match Segment::from_sorted(pairs) {
            Ok(seg) => Ok(SegmentHandle { seg: Arc::new(seg) }),
            Err(e) => Err(e),
        }
    }

    /// Takes the write lock: the exclusive right to extend the catalog. Nobody
    /// else can reach the store while the lock is held, and it is given back
    /// when the lock goes out of scope, whatever happened under it.
    #[allow(non_snake_case)]
    pub fn GetWriteLock(&mut self) -> (l: &mut db)
        ensures
            *l == *old(self),
            *final(self) == *final(l),
    {
        self
    }

    /// Appends the segments to the catalog, in the order given, all of them
    /// at once, which makes the next version of the catalog. This is the only
    /// way in which a segment becomes visible.
    #[allow(non_snake_case)]
    pub fn commitSegments(&mut self, handles: Vec<SegmentHandle>)
        requires
            old(self).wf(),
            handles_wf(handles@),
            old(self).version() < u64::MAX,
        ensures
            final(self).wf(),
            final(self).settings() == old(self).settings(),
            final(self).catalog() == old(self).catalog() + handle_maps(handles@),
            final(self).version() == old(self).version() + 1,
    {
        self.version = self.version + 1;
        let n = handles.len();
        let mut i: usize = 0;
        proof {
            assert(handle_maps(handles@).subrange(0, 0) =~= Seq::empty());
            assert(self.catalog() + Seq::empty() =~= self.catalog());
        }
        while i < n
            invariant
                i <= n,
                n == handles@.len(),
                handles_wf(handles@),
                self.wf(),
                self.settings() == old(self).settings(),
                self.version() == old(self).version() + 1,
                self.catalog() == old(self).catalog() + handle_maps(handles@).subrange(0, i as int),
            decreases n - i,
        {
            let ghost before = self.catalog@;
            assert(handles@[i as int].wf());
            self.catalog.push(handles[i].seg.clone());
            proof {
                assert(self.catalog() =~= segment_maps(before).push(handles@[i as int].map()));
                assert(handle_maps(handles@).subrange(0, i + 1) =~= handle_maps(handles@).subrange(
                    0,
                    i as int,
                ).push(handles@[i as int].map()));
            }
            i += 1;
        }
        proof {
            assert(handle_maps(handles@).subrange(0, n as int) =~= handle_maps(handles@));
        }
    }

    /// Opens a cursor over the segments committed so far. Segments committed
    /// later do not reach it.
    #[allow(non_snake_case)]
    pub fn OpenCursor(&self) -> (c: LivingCursor)
        requires
            self.wf(),
        ensures
            c.wf(),
            c.snapshot() == self.catalog(),
            c.key() is None,
    {
        LivingCursor::new(MultiCursor::new(&self.catalog))
    }
}

} // verus!
