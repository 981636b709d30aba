//! SMPTE Unique Material Identifier (SMPTE ST 330).
use vstd::prelude::*;

use crate::text::{hex_dotted, push_hex_dotted, push_lit, string_of};

verus! {

/// SMPTE Unique Material Identifier — a 32-byte identifier (SMPTE ST 330).
#[derive(Clone, Copy, PartialEq, Eq, Hash, Debug)]
pub struct Umid(pub [u8; 32]);

/// Why a URN could not be read as a [`Umid`].
#[derive(Debug, Clone, Copy, PartialEq, Eq)]
pub enum UmidParseError {
    InvalidPrefix,
    WrongLength(usize),
    InvalidHex(usize),
}

impl View for Umid {
    type V = Seq<u8>;

    open spec fn view(&self) -> Seq<u8> {
        self.0@
    }
}

/// `urn:smpte:umid:` followed by the 32 bytes as upper-case hex digits, a
/// dot before every group of four bytes but the first.
pub open spec fn spec_umid_urn(b: Seq<u8>) -> Seq<char> {
    "urn:smpte:umid:"@ + hex_dotted(b, true)
}

impl Umid {
    pub fn from_bytes(b: [u8; 32]) -> (r: Umid)
        ensures
            r@ == b@,
    {
        Umid(b)
    }

    pub fn as_bytes(&self) -> (r: &[u8; 32])
        ensures
            r@ == self@,
    {
        &self.0
    }

    /// The URN form `urn:smpte:umid:XXXXXXXX.XXXXXXXX. …` (upper-case hex).
    pub fn to_string(&self) -> (r: String)
        ensures
            r@ == spec_umid_urn(self@),
    {
        let mut out: Vec<char> = Vec::new();
        push_lit(&mut out, "urn:smpte:umid:");
        push_hex_dotted(&mut out, &self.0, true);
        string_of(&out)
    }
}

} // verus!
