//! Sequential reading of KLV triplets.
use vstd::prelude::*;

use super::ber::{ber_encoded_len, read_ber_length, spec_ber_at, spec_ber_encoded_len};
use super::error::KlvError;
use super::reader::MemReader;
use super::triplet::MemoryTriplet;
use crate::types::auid::{auid_of_bytes, Auid};

verus! {

/// Default upper bound on a value's length: 256 MiB.
pub const DEFAULT_MAX_VALUE_LEN: u64 = 268435456;

/// One step of triplet reading over `data` from position `pos`: `Ok(None)` at
/// the end, else the key bytes, the length, and the position after the value.
pub open spec fn spec_next_triplet(data: Seq<u8>, pos: int, max: u64) -> Result<
    Option<(Seq<u8>, u64, int)>,
    KlvError,
> {
    if pos >= data.len() {
        Ok(None)
    } else if pos + 16 > data.len() {
        Err(KlvError::UnexpectedEof)
    } else {
        match spec_ber_at(data, pos + 16) {
            Err(e) => Err(e),
            Ok((length, after)) => if length > max {
                Err(KlvError::ValueTooLarge(length, max))
            } else if after + length > data.len() {
                Err(KlvError::Io)
            } else {
                Ok(Some((data.subrange(pos, pos + 16), length, after + length)))
            },
        }
    }
}

/// A triplet that [`spec_next_triplet`] finds lies inside `data`, after
/// its 16 key bytes and at least one length byte.
pub proof fn lemma_next_triplet_bounds(data: Seq<u8>, pos: int, max: u64)
    requires
        0 <= pos,
        data.len() <= u64::MAX,
        spec_next_triplet(data, pos, max) is Ok,
        spec_next_triplet(data, pos, max)->Ok_0 is Some,
    ensures
        ({
            let (key, len, after) = spec_next_triplet(data, pos, max)->Ok_0->0;
            &&& key.len() == 16
            &&& pos + 17 + len <= after <= data.len()
            &&& len <= max
        }),
{
}

/// Reading `k` triplets one after another from `pos` (see
/// [`KlvStream::read_triplet`]): where the reader stands after them, and how
/// much the stream position grows (16 key bytes, the length's BER size and
/// the value, for each); `None` where one of them is not found.
pub open spec fn reads_from(data: Seq<u8>, pos: int, max: u64, k: nat) -> Option<(int, int)>
    decreases k,
{
    if k == 0 {
        Some((pos, 0))
    } else {
        match reads_from(data, pos, max, (k - 1) as nat) {
            Some((p, grown)) => match spec_next_triplet(data, p, max) {
                Ok(Some((_, length, after))) => Some((after, grown + 16 + spec_ber_encoded_len(length) + length)),
                _ => None,
            },
            None => None,
        }
    }
}

/// Whether each of the first `k` triplets read from `pos` has its length
/// written in its shortest BER form.
pub open spec fn short_lengths(data: Seq<u8>, pos: int, max: u64, k: nat) -> bool
    decreases k,
{
    k == 0 || (short_lengths(data, pos, max, (k - 1) as nat) && match reads_from(data, pos, max, (k - 1) as nat) {
        Some((p, _)) => match spec_ber_at(data, p + 16) {
            Ok((length, after)) => after == p + 16 + spec_ber_encoded_len(length),
            Err(_) => true,
        },
        None => true,
    })
}

/// Over successive reads whose lengths are in their shortest form, the
/// stream position grows by exactly the bytes the reads consumed.
pub proof fn lemma_position_sum(data: Seq<u8>, pos: int, max: u64, k: nat)
    requires
        reads_from(data, pos, max, k) is Some,
        short_lengths(data, pos, max, k),
    ensures
        reads_from(data, pos, max, k) matches Some((p, grown)) && grown == p - pos,
    decreases k,
{
    if k > 0 {
        lemma_position_sum(data, pos, max, (k - 1) as nat);
    }
}

/// Whether `t` is the stream `s` after one [`KlvStream::read_triplet`] that
/// found a triplet.
pub open spec fn read_step(s: KlvStream, t: KlvStream) -> bool {
    &&& t.source().data == s.source().data
    &&& t.spec_max_value_len() == s.spec_max_value_len()
    &&& match spec_next_triplet(s.source().data@, s.source().pos as int, s.spec_max_value_len()) {
        Ok(Some((_, length, after))) => t.source().pos == after && t.spec_position() == s.spec_position() + 16
            + spec_ber_encoded_len(length) + length,
        _ => false,
    }
}

/// Whether `ss` are the states of a stream over reads that each found a
/// triplet: each one the one before it after a read.
pub open spec fn read_trace(ss: Seq<KlvStream>) -> bool {
    forall|i: int| 0 <= i < ss.len() - 1 ==> #[trigger] read_step(ss[i], ss[i + 1])
}

/// After reads that each found a triplet (states `ss`, first to last), the
/// stream position has grown by the sum, over the triplets read, of 16 key
/// bytes, the size of the value's length in its shortest BER form and the
/// value (see [`reads_from`]); where every length was written in that form,
/// that is the number of bytes the reads consumed.
pub proof fn lemma_reads_position(ss: Seq<KlvStream>)
    requires
        ss.len() >= 1,
        read_trace(ss),
    ensures
        ss.last().source().data == ss[0].source().data,
        ss.last().spec_max_value_len() == ss[0].spec_max_value_len(),
        reads_from(ss[0].source().data@, ss[0].source().pos as int, ss[0].spec_max_value_len(), (ss.len() - 1) as nat)
            == Some((ss.last().source().pos as int, ss.last().spec_position() - ss[0].spec_position())),
        short_lengths(ss[0].source().data@, ss[0].source().pos as int, ss[0].spec_max_value_len(), (ss.len() - 1) as nat)
            ==> ss.last().spec_position() - ss[0].spec_position() == ss.last().source().pos - ss[0].source().pos,
    decreases ss.len(),
{
    let k = (ss.len() - 1) as nat;
    if ss.len() > 1 {
        let front = ss.drop_last();
        assert forall|i: int| 0 <= i < front.len() - 1 implies #[trigger] read_step(front[i], front[i + 1]) by {
            assert(read_step(ss[i], ss[i + 1]));
        }
        lemma_reads_position(front);
        let j = ss.len() - 2;
        assert(read_step(ss[j], ss[j + 1]));
        assert(ss[j + 1] == ss.last());
        assert(front.last() == ss[j]);
        assert(front[0] == ss[0]);
    }
    if short_lengths(ss[0].source().data@, ss[0].source().pos as int, ss[0].spec_max_value_len(), k) {
        lemma_position_sum(ss[0].source().data@, ss[0].source().pos as int, ss[0].spec_max_value_len(), k);
    }
}

/// Sequential KLV triplet reader over a byte source.
pub struct KlvStream {
    inner: MemReader,
    position: u64,
    max_value_len: u64,
    start: Ghost<u64>,
}

impl KlvStream {
    /// The stream's internal bookkeeping holds together.
    pub closed spec fn wf(self) -> bool {
        &&& self.inner.data@.len() <= i64::MAX
        &&& self.start@ <= self.inner.pos
        &&& self.position + 2 * self.start@ <= 2 * self.inner.pos
        &&& self.inner.pos <= self.start@ || self.inner.pos <= self.inner.data@.len()
    }

    /// The byte source, at its current position.
    pub closed spec fn source(self) -> MemReader {
        self.inner
    }

    /// Sum over the triplets read of key, encoded length and value sizes.
    pub closed spec fn spec_position(self) -> u64 {
        self.position
    }

    /// The largest value length accepted.
    pub closed spec fn spec_max_value_len(self) -> u64 {
        self.max_value_len
    }

    pub fn new(r: MemReader) -> (s: KlvStream)
        requires
            r.data@.len() <= i64::MAX,
        ensures
            s.wf(),
            s.source() == r,
            s.spec_position() == 0,
            s.spec_max_value_len() == DEFAULT_MAX_VALUE_LEN,
    {
        let ghost start = r.pos;
        KlvStream { inner: r, position: 0, max_value_len: DEFAULT_MAX_VALUE_LEN, start: Ghost(start) }
    }

    pub fn with_max_value_len(self, max: u64) -> (s: KlvStream)
        requires
            self.wf(),
        ensures
            s.wf(),
            s.source() == self.source(),
            s.spec_position() == self.spec_position(),
            s.spec_max_value_len() == max,
    {
        KlvStream { inner: self.inner, position: self.position, max_value_len: max, start: self.start }
    }

    pub fn position(&self) -> (r: u64)
        ensures
            r == self.spec_position(),
    {
        self.position
    }

    pub fn into_inner(self) -> (r: MemReader)
        ensures
            r == self.source(),
    {
        self.inner
    }

    /// Read the next KLV triplet, or return `None` at end-of-stream.
    pub fn read_triplet(&mut self) -> (res: Result<Option<MemoryTriplet>, KlvError>)
        requires
            old(self).wf(),
        ensures
            final(self).wf(),
            final(self).source().data == old(self).source().data,
            final(self).spec_max_value_len() == old(self).spec_max_value_len(),
            match spec_next_triplet(
                old(self).source().data@,
                old(self).source().pos as int,
                old(self).spec_max_value_len(),
            ) {
                Err(e) => res == Err::<Option<MemoryTriplet>, KlvError>(e) && final(self).spec_position()
                    == old(self).spec_position(),
                Ok(None) => res matches Ok(None) && final(self).source() == old(self).source()
                    && final(self).spec_position() == old(self).spec_position(),
                Ok(Some((key, length, after))) => res matches Ok(Some(t)) && auid_of_bytes(key, t.key)
                    && t.value@ == old(self).source().data@.subrange(after - length, after)
                    && final(self).source().pos == after && final(self).spec_position()
                    == old(self).spec_position() + 16 + spec_ber_encoded_len(length) + length,
            },
            res matches Ok(Some(_)) ==> read_step(*old(self), *final(self)),
    {
        let first = self.inner.read_up_to(1);
        if first.len() == 0 {
            return Ok(None);
        }
        let rest = match self.inner.read_exact(15) {
            Ok(v) => v,
            Err(_) => {
                return Err(KlvError::UnexpectedEof);
            },
        };
        let b0 = first[0];
        let mut key_bytes = [0u8; 16];
        key_bytes[0] = b0;
        let mut i: usize = 0;
        while i < 15
            invariant
                rest@.len() == 15,
                i <= 15,
                key_bytes@[0] == b0,
                forall|j: int| 0 <= j < i ==> key_bytes@[j + 1] == rest@[j],
            decreases 15 - i,
        {
            key_bytes[i + 1] = rest[i];
            i = i + 1;
        }
        let ghost p0 = old(self).inner.pos as int;
        proof {
            assert(p0 < old(self).inner.data@.len());
            assert(b0 == old(self).inner.data@[p0]);
            assert(rest@ == old(self).inner.data@.subrange(p0 + 1, p0 + 16));
            assert forall|k: int| 1 <= k < 16 implies key_bytes@[k] == rest@[k - 1] by {
                assert(key_bytes@[(k - 1) + 1] == rest@[k - 1]);
            }
            assert(key_bytes@ =~= old(self).inner.data@.subrange(p0, p0 + 16));
        }
        let key = Auid::from_bytes(key_bytes);
        let length = read_ber_length(&mut self.inner)?;
        if length > self.max_value_len {
            return Err(KlvError::ValueTooLarge(length, self.max_value_len));
        }
        let value = match self.inner.read_exact(length) {
            Ok(v) => v,
            Err(_) => {
                return Err(KlvError::Io);
            },
        };
        self.position = self.position + 16 + ber_encoded_len(length) + length;
        Ok(Some(MemoryTriplet { key, value }))
    }
}

} // verus!
