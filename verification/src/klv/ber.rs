//! BER lengths and big-endian integers (SMPTE ST 336 §6.3).
use vstd::prelude::*;

use super::error::KlvError;
use super::reader::{be_value, MemReader};

verus! {

/// What `read_ber_length` reads from `data` at position `pos`: the length and
/// the position after it.
///
/// Short form: 1 byte, value 0x00–0x7F. Long form: first byte = 0x80 | N,
/// followed by N big-endian length bytes (1 ≤ N ≤ 8).
pub open spec fn spec_ber_at(data: Seq<u8>, pos: int) -> Result<(u64, u64), KlvError> {
    if !(pos + 1 <= data.len()) {
        Err(KlvError::Io)
    } else {
        let first = data[pos];
        if first < 128 {
            Ok((first as u64, (pos + 1) as u64))
        } else {
            let count = first - 128;
            if count == 0 || count > 8 {
                Err(KlvError::BerLengthTooLong(count as usize))
            } else if !(pos + 1 + count <= data.len()) {
                Err(KlvError::Io)
            } else {
                Ok((be_value(data.subrange(pos + 1, pos + 1 + count)) as u64, (pos + 1 + count) as u64))
            }
        }
    }
}

/// Number of bytes a BER encoding of `length` will occupy.
pub open spec fn spec_ber_encoded_len(length: u64) -> u64 {
    if length <= 0x7F {
        1
    } else if length <= 0xFF {
        2
    } else if length <= 0xFFFF {
        3
    } else if length <= 0xFFFFFF {
        4
    } else if length <= 0xFFFFFFFF {
        5
    } else {
        9
    }
}

pub proof fn lemma_be_value_bound(s: Seq<u8>)
    ensures
        be_value(s) < pow256(s.len()),
    decreases s.len(),
{
    if s.len() > 0 {
        lemma_be_value_bound(s.drop_last());
        assert(pow256(s.len()) == pow256((s.len() - 1) as nat) * 256);
    }
}

/// `256` to the power `n`.
pub open spec fn pow256(n: nat) -> nat
    decreases n,
{
    if n == 0 {
        1
    } else {
        pow256((n - 1) as nat) * 256
    }
}

/// Read `n` bytes (at most 8) as a big-endian unsigned integer.
fn read_be(r: &mut MemReader, n: u64) -> (res: Result<u64, KlvError>)
    requires
        n <= 8,
    ensures
        final(r).data == old(r).data,
        old(r).pos <= old(r).data@.len() ==> old(r).pos <= final(r).pos <= old(r).data@.len(),
        old(r).has(n as int) ==> res == Ok::<u64, KlvError>(be_value(old(r).peek(n as int)) as u64)
            && final(r).pos == old(r).pos + n,
        !old(r).has(n as int) ==> res == Err::<u64, KlvError>(KlvError::Io),
{
    match r.read_exact(n) {
        Err(_) => Err(KlvError::Io),
        Ok(bytes) => {
            let mut val: u64 = 0;
            let mut i: usize = 0;
            while i < bytes.len()
                invariant
                    bytes@.len() == n <= 8,
                    i <= bytes@.len(),
                    val == be_value(bytes@.take(i as int)),
                decreases bytes.len() - i,
            {
                proof {
                    lemma_be_value_bound(bytes@.take(i as int));
                    lemma_pow256_le(i as nat, 7);
                    lemma_pow256_values();
                }
                val = val * 256 + bytes[i] as u64;
                i = i + 1;
                proof {
                    assert(bytes@.take(i as int).drop_last() =~= bytes@.take(i - 1));
                }
            }
            proof {
                assert(bytes@.take(i as int) =~= bytes@);
            }
            Ok(val)
        },
    }
}

pub proof fn lemma_pow256_values()
    ensures
        pow256(2) == 0x10000,
        pow256(4) == 0x100000000,
        pow256(7) == 0x100000000000000,
        pow256(8) == 0x10000000000000000,
{
    assert(pow256(0) == 1);
    assert(pow256(1) == 0x100);
    assert(pow256(2) == 0x10000);
    assert(pow256(3) == 0x1000000);
    assert(pow256(4) == 0x100000000);
    assert(pow256(5) == 0x10000000000);
    assert(pow256(6) == 0x1000000000000);
    assert(pow256(7) == 0x100000000000000);
    assert(pow256(8) == 0x10000000000000000);
}

proof fn lemma_pow256_le(a: nat, b: nat)
    requires
        a <= b,
    ensures
        pow256(a) <= pow256(b),
    decreases b,
{
    if a < b {
        lemma_pow256_le(a, (b - 1) as nat);
    }
}

/// The last `n` bytes of `v`, big-endian.
pub open spec fn be_bytes(v: nat, n: nat) -> Seq<u8>
    decreases n,
{
    if n == 0 {
        Seq::empty()
    } else {
        be_bytes(v / 256, (n - 1) as nat).push((v % 256) as u8)
    }
}

/// The BER encoding of `length` in [`spec_ber_encoded_len`] bytes: one byte
/// for short lengths, else `0x80 | N` and the last `N` bytes of the length.
pub open spec fn spec_ber_encoding(length: u64) -> Seq<u8> {
    let n = spec_ber_encoded_len(length);
    if n == 1 {
        seq![length as u8]
    } else {
        seq![(0x80 + (n - 1)) as u8] + be_bytes(length as nat, (n - 1) as nat)
    }
}

proof fn lemma_be_bytes(v: nat, n: nat)
    requires
        v < pow256(n),
    ensures
        be_bytes(v, n).len() == n,
        be_value(be_bytes(v, n)) == v,
    decreases n,
{
    if n > 0 {
        assert(pow256(n) == pow256((n - 1) as nat) * 256);
        assert(v / 256 < pow256((n - 1) as nat)) by (nonlinear_arith)
            requires
                v < pow256((n - 1) as nat) * 256,
        ;
        lemma_be_bytes(v / 256, (n - 1) as nat);
        let s = be_bytes(v, n);
        assert(s.drop_last() =~= be_bytes(v / 256, (n - 1) as nat));
    }
}

/// Every length, BER-encoded in [`spec_ber_encoded_len`] bytes, reads back
/// as itself, whatever follows it, and the read ends right after it.
pub proof fn lemma_ber_round_trip(length: u64, rest: Seq<u8>)
    ensures
        spec_ber_encoding(length).len() == spec_ber_encoded_len(length),
        spec_ber_at(spec_ber_encoding(length) + rest, 0)
            == Ok::<(u64, u64), KlvError>((length, spec_ber_encoded_len(length))),
{
    lemma_pow256_values();
    assert(pow256(0) == 1);
    assert(pow256(1) == 0x100);
    assert(pow256(2) == 0x10000);
    assert(pow256(3) == 0x1000000);
    let n = spec_ber_encoded_len(length);
    let enc = spec_ber_encoding(length);
    let d = enc + rest;
    if n > 1 {
        let c = (n - 1) as nat;
        lemma_be_bytes(length as nat, c);
        assert(d.subrange(1, 1 + c as int) =~= be_bytes(length as nat, c));
        assert(d[0] == (0x80 + c) as u8);
    }
}

/// Read a BER-encoded length from `r` (SMPTE ST 336 §6.3).
pub fn read_ber_length(r: &mut MemReader) -> (res: Result<u64, KlvError>)
    ensures
        final(r).data == old(r).data,
        old(r).pos <= old(r).data@.len() ==> old(r).pos <= final(r).pos <= old(r).data@.len(),
        match spec_ber_at(old(r).data@, old(r).pos as int) {
            Ok((v, p)) => res == Ok::<u64, KlvError>(v) && final(r).pos == p,
            Err(e) => res == Err::<u64, KlvError>(e),
        },
        res matches Err(KlvError::BerLengthTooLong(_)) ==> final(r).pos == old(r).pos + 1,
{
    let first = read_u8(r)?;
    if first & 0x80 == 0 {
        proof {
            assert(first & 0x80 == 0 ==> first < 128) by (bit_vector);
        }
        return Ok(first as u64);
    }
    let count = (first & 0x7F) as usize;
    proof {
        assert(first & 0x80 != 0 ==> first >= 128 && first & 0x7F == first - 128) by (bit_vector);
    }
    if count == 0 || count > 8 {
        return Err(KlvError::BerLengthTooLong(count));
    }
    let ghost mid = *r;
    let v = read_be(r, count as u64);
    proof {
        assert(mid.peek(count as int) =~= old(r).data@.subrange(old(r).pos + 1, old(r).pos + 1 + count));
    }
    v
}

/// Number of bytes a BER encoding of `length` will occupy.
pub fn ber_encoded_len(length: u64) -> (r: u64)
    ensures
        r == spec_ber_encoded_len(length),
{
    if length <= 0x7F {
        1
    } else if length <= 0xFF {
        2
    } else if length <= 0xFFFF {
        3
    } else if length <= 0xFFFFFF {
        4
    } else if length <= 0xFFFFFFFF {
        5
    } else {
        9
    }
}

pub fn read_u8(r: &mut MemReader) -> (res: Result<u8, KlvError>)
    ensures
        final(r).data == old(r).data,
        old(r).pos <= old(r).data@.len() ==> old(r).pos <= final(r).pos <= old(r).data@.len(),
        old(r).has(1) ==> res == Ok::<u8, KlvError>(old(r).data@[old(r).pos as int])
            && final(r).pos == old(r).pos + 1,
        !old(r).has(1) ==> res == Err::<u8, KlvError>(KlvError::Io),
{
    match r.read_exact(1) {
        Ok(b) => Ok(b[0]),
        Err(_) => Err(KlvError::Io),
    }
}

pub fn read_u16_be(r: &mut MemReader) -> (res: Result<u16, KlvError>)
    ensures
        final(r).data == old(r).data,
        old(r).pos <= old(r).data@.len() ==> old(r).pos <= final(r).pos <= old(r).data@.len(),
        old(r).has(2) ==> (res matches Ok(x) && x as nat == be_value(old(r).peek(2))) && final(r).pos == old(r).pos + 2,
        !old(r).has(2) ==> res == Err::<u16, KlvError>(KlvError::Io),
{
    let v = read_be(r, 2)?;
    proof {
        lemma_be_value_bound(old(r).peek(2));
        lemma_pow256_values();
    }
    Ok(v as u16)
}

pub fn read_u32_be(r: &mut MemReader) -> (res: Result<u32, KlvError>)
    ensures
        final(r).data == old(r).data,
        old(r).pos <= old(r).data@.len() ==> old(r).pos <= final(r).pos <= old(r).data@.len(),
        old(r).has(4) ==> (res matches Ok(x) && x as nat == be_value(old(r).peek(4))) && final(r).pos == old(r).pos + 4,
        !old(r).has(4) ==> res == Err::<u32, KlvError>(KlvError::Io),
{
    let v = read_be(r, 4)?;
    proof {
        lemma_be_value_bound(old(r).peek(4));
        lemma_pow256_values();
    }
    Ok(v as u32)
}

pub fn read_u64_be(r: &mut MemReader) -> (res: Result<u64, KlvError>)
    ensures
        final(r).data == old(r).data,
        old(r).pos <= old(r).data@.len() ==> old(r).pos <= final(r).pos <= old(r).data@.len(),
        old(r).has(8) ==> (res matches Ok(x) && x as nat == be_value(old(r).peek(8))) && final(r).pos == old(r).pos + 8,
        !old(r).has(8) ==> res == Err::<u64, KlvError>(KlvError::Io),
{
    let v = read_be(r, 8);
    proof {
        lemma_be_value_bound(old(r).peek(8));
        lemma_pow256_values();
    }
    v
}

} // verus!
