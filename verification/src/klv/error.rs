//! Errors of KLV decoding.
use vstd::prelude::*;

use crate::text::{decimal, hex2, push_decimal, push_hex2, push_lit, string_of};

verus! {

#[derive(Debug, Clone, Copy, PartialEq, Eq)]
pub enum KlvError {
    /// The source ended in the middle of a read (an unexpected end of file).
    Io,
    /// BER long-form length uses this many octets; the maximum is 8.
    BerLengthTooLong(usize),
    /// Value length (first) exceeds the configured maximum (second).
    ValueTooLarge(u64, u64),
    /// A local tag that the register does not map to a UL.
    UnknownLocalTag(u16),
    /// The stream ended inside a KLV key.
    UnexpectedEof,
}


/// The message of a [`KlvError`].
pub open spec fn klv_error_text(e: KlvError) -> Seq<char> {
    match e {
        KlvError::Io => "I/O error: failed to fill whole buffer"@,
        KlvError::BerLengthTooLong(n) => "BER long-form length uses "@ + decimal(n as nat) + " octets; maximum is 8"@,
        KlvError::ValueTooLarge(a, b) => "value length "@ + decimal(a as nat) + " bytes exceeds configured maximum "@
            + decimal(b as nat),
        KlvError::UnknownLocalTag(t) => "unknown local tag 0x"@ + hex2((t / 256) as u8, true) + hex2(
            (t % 256) as u8,
            true,
        ),
        KlvError::UnexpectedEof => "unexpected end of stream reading KLV key"@,
    }
}

impl KlvError {
    /// The error's message.
    pub fn to_string(&self) -> (r: String)
        ensures
            r@ == klv_error_text(*self),
    {
        let mut out: Vec<char> = Vec::new();
        match *self {
            KlvError::Io => push_lit(&mut out, "I/O error: failed to fill whole buffer"),
            KlvError::BerLengthTooLong(n) => {
                push_lit(&mut out, "BER long-form length uses ");
                push_decimal(&mut out, n as u64);
                push_lit(&mut out, " octets; maximum is 8");
            },
            KlvError::ValueTooLarge(a, b) => {
                push_lit(&mut out, "value length ");
                push_decimal(&mut out, a);
                push_lit(&mut out, " bytes exceeds configured maximum ");
                push_decimal(&mut out, b);
            },
            KlvError::UnknownLocalTag(t) => {
                push_lit(&mut out, "unknown local tag 0x");
                push_hex2(&mut out, (t / 256) as u8, true);
                push_hex2(&mut out, (t % 256) as u8, true);
            },
            KlvError::UnexpectedEof => push_lit(&mut out, "unexpected end of stream reading KLV key"),
        }
        string_of(&out)
    }
}

} // verus!
