//! Errors of MXF structure parsing.
use vstd::prelude::*;

use crate::klv::error::klv_error_text;
use crate::klv::KlvError;
use crate::text::{append_str, decimal, push_decimal, push_lit, string_of};

verus! {

#[derive(Debug, Clone, Copy, PartialEq, Eq)]
pub enum MxfError {
    /// A KLV-level failure (BER length, key, value length or a short field).
    Klv(KlvError),
    /// The source ended in the middle of a fixed-size read.
    Io,
    /// No partition pack found within the run-in (first 65536 bytes).
    PartitionNotFound,
    /// Invalid or unexpected partition pack key.
    InvalidPartitionKey,
    /// Truncated MXF, with the reason.
    Truncated(&'static str),
    /// Unsupported MXF version.
    UnsupportedVersion(u16, u16),
    /// Missing primer pack in header partition.
    MissingPrimerPack,
}


/// The message of an [`MxfError`].
pub open spec fn mxf_error_text(e: MxfError) -> Seq<char> {
    match e {
        MxfError::Klv(k) => "KLV error: "@ + klv_error_text(k),
        MxfError::Io => "I/O error: failed to fill whole buffer"@,
        MxfError::PartitionNotFound => "no partition pack found within run-in (first 65536 bytes)"@,
        MxfError::InvalidPartitionKey => "invalid or unexpected partition pack key"@,
        MxfError::Truncated(m) => "truncated MXF: "@ + m@,
        MxfError::UnsupportedVersion(a, b) => "unsupported MXF version "@ + decimal(a as nat) + "."@ + decimal(
            b as nat,
        ),
        MxfError::MissingPrimerPack => "missing primer pack in header partition"@,
    }
}

impl MxfError {
    /// The error's message.
    pub fn to_string(&self) -> (r: String)
        ensures
            r@ == mxf_error_text(*self),
    {
        let mut out: Vec<char> = Vec::new();
        match *self {
            MxfError::Klv(k) => {
                push_lit(&mut out, "KLV error: ");
                append_str(&mut out, k.to_string().as_str());
            },
            MxfError::Io => push_lit(&mut out, "I/O error: failed to fill whole buffer"),
            MxfError::PartitionNotFound => push_lit(&mut out, "no partition pack found within run-in (first 65536 bytes)"),
            MxfError::InvalidPartitionKey => push_lit(&mut out, "invalid or unexpected partition pack key"),
            MxfError::Truncated(m) => {
                push_lit(&mut out, "truncated MXF: ");
                append_str(&mut out, m);
            },
            MxfError::UnsupportedVersion(a, b) => {
                push_lit(&mut out, "unsupported MXF version ");
                push_decimal(&mut out, a as u64);
                push_lit(&mut out, ".");
                push_decimal(&mut out, b as u64);
            },
            MxfError::MissingPrimerPack => push_lit(&mut out, "missing primer pack in header partition"),
        }
        string_of(&out)
    }
}

} // verus!
