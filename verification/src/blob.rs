//! The value stored under a key: bytes, held in full or handed over as a
//! stream, or a tombstone that marks the key as deleted.
use vstd::prelude::*;

verus! {

/// A source of bytes that is read once, from front to back. How many bytes
/// are left in it is known before any is read.
#[derive(Debug)]
pub struct ByteStream {
    data: Vec<u8>,
    pos: usize,
}

impl ByteStream {
    /// The bytes that have not been read yet.
    pub closed spec fn remaining(&self) -> Seq<u8> {
        if self.pos <= self.data@.len() {
            self.data@.subrange(self.pos as int, self.data@.len() as int)
        } else {
            Seq::empty()
        }
    }

    /// A stream over the bytes `data`, none of them read.
    pub fn new(data: Vec<u8>) -> (s: ByteStream)
        ensures
            s.remaining() == data@,
    {
        let s = ByteStream { data, pos: 0 };
        assert(s.remaining() =~= data@);
        s
    }

    /// The number of bytes that are left.
    pub fn len(&self) -> (n: usize)
        ensures
            n == self.remaining().len(),
    {
        if self.pos <= self.data.len() {
            self.data.len() - self.pos
        } else {
            0
        }
    }

    /// Reads at most `max` bytes and appends them to `buf`. The bytes that
    /// were read are gone from the stream. Says how many were read, which is
    /// fewer than `max` only if the stream has ended.
    pub fn read(&mut self, buf: &mut Vec<u8>, max: usize) -> (n: usize)
        ensures
            n == if max < old(self).remaining().len() {
                max as int
            } else {
                old(self).remaining().len() as int
            },
            final(buf)@ == old(buf)@ + old(self).remaining().subrange(0, n as int),
            final(self).remaining() == old(self).remaining().subrange(
                n as int,
                old(self).remaining().len() as int,
            ),
    {
        let ghost before = self.remaining();
        if self.pos > self.data.len() {
            assert(self.remaining().subrange(0, 0) =~= self.remaining());
            assert(buf@ + before.subrange(0, 0) =~= buf@);
            return 0;
        }
        let total = self.data.len();
        let left = total - self.pos;
        let n = if max < left {
            max
        } else {
            left
        };
        let mut i: usize = 0;
        assert(before.subrange(0, before.len() as int) =~= before);
        assert(buf@ + before.subrange(0, 0) =~= buf@);
        while i < n
            invariant
                i <= n <= left,
                left == before.len(),
                total == self.data@.len(),
                self.data@ == old(self).data@,
                old(self).pos + left == total,
                self.pos == old(self).pos + i,
                before == old(self).data@.subrange(old(self).pos as int, total as int),
                buf@ == old(buf)@ + before.subrange(0, i as int),
            decreases n - i,
        {
            buf.push(self.data[self.pos]);
            self.pos = self.pos + 1;
            i += 1;
            assert(buf@ =~= old(buf)@ + before.subrange(0, i as int));
        }
        assert(self.remaining() =~= before.subrange(n as int, before.len() as int));
        n
    }

    /// Reads all that is left and appends it to `buf`. Nothing is left in the
    /// stream afterwards.
    pub fn read_to_end(&mut self, buf: &mut Vec<u8>) -> (n: usize)
        ensures
            n == old(self).remaining().len(),
            final(buf)@ == old(buf)@ + old(self).remaining(),
            final(self).remaining() == Seq::<u8>::empty(),
    {
        let left = self.len();
        let ghost before = self.remaining();
        let n = self.read(buf, left);
        assert(before.subrange(0, n as int) =~= before);
        n
    }

    /// The bytes that are left, copied; the stream is left as it is.
    pub fn peek_all(&self) -> (r: Vec<u8>)
        ensures
            r@ == self.remaining(),
    {
        let mut r: Vec<u8> = Vec::new();
        if self.pos <= self.data.len() {
            let mut i: usize = self.pos;
            while i < self.data.len()
                invariant
                    self.pos <= i <= self.data@.len(),
                    r@ == self.data@.subrange(self.pos as int, i as int),
                decreases self.data@.len() - i,
            {
                r.push(self.data[i]);
                i += 1;
            }
        }
        r
    }
}

/// A value of the store.
#[derive(Debug)]
pub enum Blob {
    /// The key is deleted.
    Tombstone,
    /// The value, held in memory in full.
    Array(Vec<u8>),
    /// The value, to be read from a stream; what is left in the stream is the
    /// value.
    Stream(ByteStream),
}

impl View for Blob {
    type V = Option<Seq<u8>>;

    /// `None` for a tombstone, else the bytes.
    open spec fn view(&self) -> Option<Seq<u8>> {
        match self {
            Blob::Tombstone => None,
            Blob::Array(a) => Some(a@),
            Blob::Stream(s) => Some(s.remaining()),
        }
    }
}

/// Copies a byte string.
pub fn copy_bytes(v: &[u8]) -> (r: Vec<u8>)
    ensures
        r@ == v@,
{
    let mut r: Vec<u8> = Vec::with_capacity(v.len());
    let mut i: usize = 0;
    while i < v.len()
        invariant
            i <= v.len(),
            r@ == v@.subrange(0, i as int),
        decreases v.len() - i,
    {
        r.push(v[i]);
        i += 1;
    }
    r
}

impl Blob {
    /// Whether the value marks a deletion.
    pub fn is_tombstone(&self) -> (r: bool)
        ensures
            r == (self@ is None),
    {
        match self {
            Blob::Tombstone => true,
            Blob::Array(_) => false,
            Blob::Stream(_) => false,
        }
    }

    /// The number of bytes of the value; a tombstone has none.
    pub fn len(&self) -> (r: Option<usize>)
        ensures
            match self@ {
                Some(a) => r == Some(a.len() as usize),
                None => r is None,
            },
    {
        match self {
            Blob::Tombstone => None,
            Blob::Array(a) => Some(a.len()),
            Blob::Stream(s) => Some(s.len()),
        }
    }

    /// A copy of the value, held in full: what is left in a stream is copied
    /// out of it, and the stream is left as it is.
    pub fn duplicate(&self) -> (r: Blob)
        ensures
            r@ == self@,
            !(r is Stream),
    {
        match self {
            Blob::Tombstone => Blob::Tombstone,
            Blob::Array(a) => Blob::Array(copy_bytes(a.as_slice())),
            Blob::Stream(s) => Blob::Array(s.peek_all()),
        }
    }

    /// The value held in full: a stream is read to its end.
    pub fn materialize(self) -> (r: Blob)
        ensures
            r@ == self@,
            !(r is Stream),
    {
        match self {
            Blob::Tombstone => Blob::Tombstone,
            Blob::Array(a) => Blob::Array(a),
            Blob::Stream(s) => {
                let mut s = s;
                let mut a: Vec<u8> = Vec::new();
                s.read_to_end(&mut a);
                Blob::Array(a)
            },
        }
    }
}

impl Clone for Blob {
    fn clone(&self) -> (r: Blob)
        ensures
            r@ == self@,
    {
        self.duplicate()
    }
}

} // verus!
