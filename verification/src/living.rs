//! A cursor over the living keys of a snapshot: the merged cursor, with the
//! keys whose newest value is a tombstone passed over.
use vstd::prelude::*;
use crate::blob::{copy_bytes, Blob};
use crate::cursor::{seek_lands, SeekOp};
use crate::key::{key_le, lemma_key_lt_irreflexive};
use crate::model::{
    above, any_key, below, closed_downward, closed_upward, from_down, from_up, just,
    lands_greatest,
    lands_least, lemma_filters_closed, live_keys, living, merged, sieve,
};
use crate::multicursor::{Direction, MultiCursor};
use crate::segment::LsmError;

verus! {

/// A cursor that sees only the keys that are alive.
pub struct LivingCursor {
    chain: MultiCursor,
}

impl LivingCursor {
    /// The segments under the cursor as maps, oldest first.
    pub closed spec fn snapshot(&self) -> Seq<Map<Seq<u8>, Option<Seq<u8>>>> {
        self.chain.snapshot()
    }

    /// The merged content under the cursor, tombstones included.
    pub open spec fn content(&self) -> Map<Seq<u8>, Option<Seq<u8>>> {
        merged(self.snapshot())
    }

    /// The keys that the cursor can rest on.
    pub open spec fn live(&self) -> Set<Seq<u8>> {
        live_keys(self.snapshot())
    }

    /// The merged cursor underneath is well formed.
    pub closed spec fn wf(&self) -> bool {
        self.chain.wf()
    }

    /// The key that the cursor is on, if it is on one. A cursor whose merged
    /// cursor rests on a tombstone is on no key.
    pub closed spec fn key(&self) -> Option<Seq<u8>> {
        match self.chain.key() {
            Some(k) => if self.chain.content()[k] is Some {
                Some(k)
            } else {
                None
            },
            None => None,
        }
    }

    /// A living cursor over a merged cursor, on no key.
    pub fn new(chain: MultiCursor) -> (c: LivingCursor)
        requires
            chain.wf(),
            chain.key() is None,
        ensures
            c.wf(),
            c.snapshot() == chain.snapshot(),
            c.key() is None,
    {
        LivingCursor { chain }
    }

    /// Whether the cursor is on a key.
    #[allow(non_snake_case)]
    pub fn IsValid(&self) -> (r: bool)
        requires
            self.wf(),
        ensures
            r == (self.key() is Some),
    {
        self.chain.IsValid() && !self.chain.value_ref().is_tombstone()
    }

    /// Whether the merged cursor rests on a tombstone.
    fn on_tombstone(&self) -> (r: bool)
        requires
            self.wf(),
        ensures
            r == (self.chain.key() is Some && self.key() is None),
    {
        self.chain.IsValid() && self.chain.value_ref().is_tombstone()
    }

    /// Steps upward until the merged cursor rests on a living key or on none.
    fn skip_up(&mut self, Ghost(f): Ghost<spec_fn(Seq<u8>) -> bool>)
        requires
            old(self).wf(),
            closed_upward(f),
            old(self).chain.key() is Some ==> old(self).chain.heading() == Direction::Forward,
            lands_least(old(self).chain.key(), sieve(old(self).content().dom(), f)),
        ensures
            final(self).wf(),
            final(self).snapshot() == old(self).snapshot(),
            lands_least(final(self).key(), sieve(final(self).live(), f)),
            final(self).chain.key() is None || final(self).key() is Some,
    {
        proof {
            assert forall|x: Seq<u8>| #[trigger] sieve(self.live(), f).contains(x) implies sieve(
                self.content().dom(),
                f,
            ).contains(x) by {}
        }
        let mut tomb = self.on_tombstone();
        while tomb
            invariant
                self.wf(),
                self.snapshot() == old(self).snapshot(),
                closed_upward(f),
                self.chain.key() is Some ==> self.chain.heading() == Direction::Forward,
                tomb == (self.chain.key() is Some && self.key() is None),
                match self.chain.key() {
                    Some(k) => {
                        &&& f(k)
                        &&& self.content().dom().contains(k)
                        &&& forall|x: Seq<u8>| #[trigger]
                            sieve(self.live(), f).contains(x) ==> key_le(k, x)
                    },
                    None => forall|x: Seq<u8>| !#[trigger] sieve(self.live(), f).contains(x),
                },
            decreases self.chain.ahead(),
        {
            let ghost k = self.chain.key().unwrap();
            let ghost dom = self.content().dom();
            let ghost live = self.live();
            proof {
                assert(self.content()[k] is None);
                assert forall|x: Seq<u8>| #[trigger] sieve(live, f).contains(x) implies above(
                    dom,
                    k,
                    true,
                ).contains(x) by {
                    assert(key_le(k, x));
                    assert(live.contains(x));
                    assert(dom.contains(x) && self.content()[x] is Some);
                }
            }
            self.chain.Next();
            proof {
                assert(self.live() == live);
                match self.chain.key() {
                    Some(k2) => {
                        assert(above(dom, k, true).contains(k2));
                        assert(f(k) && key_le(k, k2));
                    },
                    None => {},
                }
            }
            tomb = self.on_tombstone();
        }
    }

    /// Steps downward until the merged cursor rests on a living key or on none.
    fn skip_down(&mut self, Ghost(f): Ghost<spec_fn(Seq<u8>) -> bool>)
        requires
            old(self).wf(),
            closed_downward(f),
            old(self).chain.key() is Some ==> old(self).chain.heading() == Direction::Backward,
            lands_greatest(old(self).chain.key(), sieve(old(self).content().dom(), f)),
        ensures
            final(self).wf(),
            final(self).snapshot() == old(self).snapshot(),
            lands_greatest(final(self).key(), sieve(final(self).live(), f)),
            final(self).chain.key() is None || final(self).key() is Some,
    {
        proof {
            assert forall|x: Seq<u8>| #[trigger] sieve(self.live(), f).contains(x) implies sieve(
                self.content().dom(),
                f,
            ).contains(x) by {}
        }
        let mut tomb = self.on_tombstone();
        while tomb
            invariant
                self.wf(),
                self.snapshot() == old(self).snapshot(),
                closed_downward(f),
                self.chain.key() is Some ==> self.chain.heading() == Direction::Backward,
                tomb == (self.chain.key() is Some && self.key() is None),
                match self.chain.key() {
                    Some(k) => {
                        &&& f(k)
                        &&& self.content().dom().contains(k)
                        &&& forall|x: Seq<u8>| #[trigger]
                            sieve(self.live(), f).contains(x) ==> key_le(x, k)
                    },
                    None => forall|x: Seq<u8>| !#[trigger] sieve(self.live(), f).contains(x),
                },
            decreases self.chain.behind(),
        {
            let ghost k = self.chain.key().unwrap();
            let ghost dom = self.content().dom();
            let ghost live = self.live();
            proof {
                assert(self.content()[k] is None);
                assert forall|x: Seq<u8>| #[trigger] sieve(live, f).contains(x) implies below(
                    dom,
                    k,
                    true,
                ).contains(x) by {
                    assert(key_le(x, k));
                    assert(live.contains(x));
                    assert(dom.contains(x) && self.content()[x] is Some);
                }
            }
            self.chain.Prev();
            proof {
                assert(self.live() == live);
                match self.chain.key() {
                    Some(k2) => {
                        assert(below(dom, k, true).contains(k2));
                        assert(f(k) && key_le(k2, k));
                    },
                    None => {},
                }
            }
            tomb = self.on_tombstone();
        }
    }

    /// Moves to the lowest living key.
    #[allow(non_snake_case)]
    pub fn First(&mut self)
        requires
            old(self).wf(),
        ensures
            final(self).wf(),
            final(self).snapshot() == old(self).snapshot(),
            lands_least(final(self).key(), final(self).live()),
    {
        self.chain.First();
        proof {
            lemma_filters_closed(Seq::empty(), false);
            assert(sieve(self.content().dom(), any_key()) =~= self.content().dom());
        }
        self.skip_up(Ghost(any_key()));
        proof {
            assert(sieve(self.live(), any_key()) =~= self.live());
        }
    }

    /// Moves to the highest living key.
    #[allow(non_snake_case)]
    pub fn Last(&mut self)
        requires
            old(self).wf(),
        ensures
            final(self).wf(),
            final(self).snapshot() == old(self).snapshot(),
            lands_greatest(final(self).key(), final(self).live()),
    {
        self.chain.Last();
        proof {
            lemma_filters_closed(Seq::empty(), false);
            assert(sieve(self.content().dom(), any_key()) =~= self.content().dom());
        }
        self.skip_down(Ghost(any_key()));
        proof {
            assert(sieve(self.live(), any_key()) =~= self.live());
        }
    }

    /// Moves to the next living key. Past the highest one the cursor is on no
    /// key; a cursor that is on no key stays so.
    #[allow(non_snake_case)]
    pub fn Next(&mut self)
        requires
            old(self).wf(),
        ensures
            final(self).wf(),
            final(self).snapshot() == old(self).snapshot(),
            match old(self).key() {
                Some(k) => lands_least(final(self).key(), above(final(self).live(), k, true)),
                None => final(self).key() is None,
            },
    {
        if !self.IsValid() {
            return ;
        }
        let ghost k = self.key().unwrap();
        self.chain.Next();
        proof {
            lemma_filters_closed(k, true);
        }
        self.skip_up(Ghost(from_up(k, true)));
    }

    /// Moves to the previous living key. Past the lowest one the cursor is on
    /// no key; a cursor that is on no key stays so.
    #[allow(non_snake_case)]
    pub fn Prev(&mut self)
        requires
            old(self).wf(),
        ensures
            final(self).wf(),
            final(self).snapshot() == old(self).snapshot(),
            match old(self).key() {
                Some(k) => lands_greatest(final(self).key(), below(final(self).live(), k, true)),
                None => final(self).key() is None,
            },
    {
        if !self.IsValid() {
            return ;
        }
        let ghost k = self.key().unwrap();
        self.chain.Prev();
        proof {
            lemma_filters_closed(k, true);
        }
        self.skip_down(Ghost(from_down(k, true)));
    }

    /// Moves straight to where `k` is or would be among the living keys: onto
    /// `k` itself if it is alive, else onto its nearest living neighbour on the
    /// side that `op` names, or onto no key.
    #[allow(non_snake_case)]
    pub fn Seek(&mut self, k: &[u8], op: SeekOp)
        requires
            old(self).wf(),
        ensures
            final(self).wf(),
            final(self).snapshot() == old(self).snapshot(),
            seek_lands(final(self).key(), final(self).live(), k@, op),
    {
        self.chain.Seek(k, op);
        proof {
            lemma_filters_closed(k@, false);
            self.chain.lemma_key_in_content();
        }
        match op {
            SeekOp::SEEK_GE => {
                self.skip_up(Ghost(from_up(k@, false)));
            },
            SeekOp::SEEK_LE => {
                self.skip_down(Ghost(from_down(k@, false)));
            },
            SeekOp::SEEK_EQ => {
                proof {
                    lemma_key_lt_irreflexive(k@);
                    let dom = self.content().dom();
                    assert forall|x: Seq<u8>| #[trigger]
                        sieve(self.live(), just(k@)).contains(x) implies sieve(
                        dom,
                        just(k@),
                    ).contains(x) by {}
                }
            },
        }
    }

    /// The key under the cursor. To ask for it while the cursor is on no key is
    /// an error of usage.
    #[allow(non_snake_case)]
    pub fn Key(&self) -> (r: Result<Vec<u8>, LsmError>)
        requires
            self.wf(),
        ensures
            match self.key() {
                Some(k) => r matches Ok(v) && v@ == k && self.live().contains(k),
                None => r == Err::<Vec<u8>, LsmError>(LsmError::InvalidUsage),
            },
    {
        proof {
            self.chain.lemma_key_in_content();
        }
        if self.IsValid() {
            Ok(copy_bytes(self.chain.key_ref()))
        } else {
            Err(LsmError::InvalidUsage)
        }
    }

    /// The value under the cursor: that of the newest segment that holds the
    /// key, which is no tombstone. To ask for it while the cursor is on no key
    /// is an error of usage.
    #[allow(non_snake_case)]
    pub fn Value(&self) -> (r: Result<Blob, LsmError>)
        requires
            self.wf(),
        ensures
            match self.key() {
                Some(k) => r matches Ok(b) && b@ is Some && b@ == self.content()[k],
                None => r matches Err(e) && e == LsmError::InvalidUsage,
            },
    {
        if self.IsValid() {
            Ok(self.chain.value_ref().duplicate())
        } else {
            Err(LsmError::InvalidUsage)
        }
    }

    /// The length of the value under the cursor.
    #[allow(non_snake_case)]
    pub fn ValueLength(&self) -> (r: Result<Option<usize>, LsmError>)
        requires
            self.wf(),
        ensures
            match self.key() {
                Some(k) => r matches Ok(n) && self.content()[k] matches Some(a) && n == Some(
                    a.len() as usize,
                ),
                None => r == Err::<Option<usize>, LsmError>(LsmError::InvalidUsage),
            },
    {
        if self.IsValid() {
            Ok(self.chain.value_ref().len())
        } else {
            Err(LsmError::InvalidUsage)
        }
    }
}

} // verus!
