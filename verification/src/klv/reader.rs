//! An in-memory, seekable byte source with the semantics of
//! `std::io::Cursor<Vec<u8>>`: the byte source that KLV and MXF parsing read.
use vstd::prelude::*;

verus! {

/// Bytes together with a read position, which may lie past the end.
#[derive(Debug, Clone)]
pub struct MemReader {
    pub data: Vec<u8>,
    pub pos: u64,
}

/// Big-endian value of a byte sequence.
pub open spec fn be_value(s: Seq<u8>) -> nat
    decreases s.len(),
{
    if s.len() == 0 {
        0
    } else {
        be_value(s.drop_last()) * 256 + s.last() as nat
    }
}

impl MemReader {
    /// The bytes still to be read (none where the position lies past the end).
    pub open spec fn remaining(&self) -> Seq<u8> {
        if self.pos < self.data@.len() {
            self.data@.skip(self.pos as int)
        } else {
            Seq::empty()
        }
    }

    /// Whether `n` more bytes can be read.
    pub open spec fn has(&self, n: int) -> bool {
        self.pos + n <= self.data@.len()
    }

    /// The `n` bytes at the read position.
    pub open spec fn peek(&self, n: int) -> Seq<u8> {
        self.data@.subrange(self.pos as int, self.pos + n)
    }

    pub fn new(data: Vec<u8>) -> (r: MemReader)
        ensures
            r.data@ == data@,
            r.pos == 0,
    {
        MemReader { data, pos: 0 }
    }

    /// The current read position (`stream_position`).
    pub fn position(&self) -> (r: u64)
        ensures
            r == self.pos,
    {
        self.pos
    }

    /// Total length of the source.
    pub fn len(&self) -> (r: u64)
        ensures
            r == self.data@.len(),
    {
        self.data.len() as u64
    }

    /// `seek(SeekFrom::Start(off))`.
    pub fn seek_start(&mut self, off: u64) -> (r: u64)
        ensures
            final(self).data == old(self).data,
            final(self).pos == off,
            r == off,
    {
        self.pos = off;
        off
    }

    /// `seek(SeekFrom::End(-back))`: fails where that lies before the start.
    pub fn seek_end_back(&mut self, back: u64) -> (r: Result<u64, ()>)
        ensures
            final(self).data == old(self).data,
            back <= old(self).data@.len() ==> r == Ok::<u64, ()>(
                (old(self).data@.len() - back) as u64,
            ) && final(self).pos == old(self).data@.len() - back,
            back > old(self).data@.len() ==> r is Err && final(self).pos == old(self).pos,
    {
        let n = self.data.len() as u64;
        if back <= n {
            self.pos = n - back;
            Ok(self.pos)
        } else {
            Err(())
        }
    }

    /// `read(&mut buf)` with a buffer of `n` bytes: reads what is there, up to `n`.
    pub fn read_up_to(&mut self, n: usize) -> (r: Vec<u8>)
        ensures
            final(self).data == old(self).data,
            old(self).has(n as int) ==> r@ == old(self).peek(n as int),
            !old(self).has(n as int) ==> r@ == old(self).remaining(),
            final(self).pos == old(self).pos + r@.len(),
    {
        let len = self.data.len();
        let mut out: Vec<u8> = Vec::new();
        if self.pos >= len as u64 {
            return out;
        }
        let start = self.pos as usize;
        let end = if n <= len - start { start + n } else { len };
        let mut i = start;
        while i < end
            invariant
                start <= i <= end <= len == self.data@.len(),
                out@ == self.data@.subrange(start as int, i as int),
            decreases end - i,
        {
            out.push(self.data[i]);
            i = i + 1;
            proof {
                assert(out@ =~= self.data@.subrange(start as int, i as int));
            }
        }
        self.pos = end as u64;
        proof {
            if !old(self).has(n as int) {
                assert(out@ =~= old(self).remaining());
            }
        }
        out
    }

    /// `read_exact` of `n` bytes; on failure the position moves to the end,
    /// as `std::io::Cursor` does.
    pub fn read_exact(&mut self, n: u64) -> (r: Result<Vec<u8>, ()>)
        ensures
            final(self).data == old(self).data,
            old(self).has(n as int) ==> (r matches Ok(v) && v@ == old(self).peek(n as int))
                && final(self).pos == old(self).pos + n,
            !old(self).has(n as int) ==> r is Err && final(self).pos == old(self).data@.len(),
            old(self).pos <= old(self).data@.len() ==> old(self).pos <= final(self).pos <= old(self).data@.len(),
    {
        let len = self.data.len() as u64;
        if self.pos > len || n > len - self.pos {
            self.pos = len;
            return Err(());
        }
        let v = self.read_up_to(n as usize);
        Ok(v)
    }
}

} // verus!
