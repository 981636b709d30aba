//! SMPTE AUID: a Universal Label or a UUID (SMPTE ST 2001-1 §7).
use vstd::prelude::*;
use vstd::string::StringSliceAdditionalSpecFns;

use super::ul::{spec_ul_from_urn, spec_ul_urn, ul_error_text, Ul, UlParseError};
use super::uuid_id::{spec_uuid_hyphenated, swap_halves, Uuid};
use crate::text::{
    append_str, chars_of, debug_quoted, push_lit, starts_with, str_debug, str_starts_with, string_of,
    string_of_range,
};
use uuid::Uuid as RfcUuid;

verus! {

/// SMPTE AUID — either a Universal Label or a UUID (SMPTE ST 2001-1 §7).
///
/// Bit 7 of byte 0 distinguishes the two: `0` → [`Ul`], `1` → [`Uuid`].
#[derive(Clone, Copy, PartialEq, Eq, Hash, Debug)]
pub enum Auid {
    Ul(Ul),
    Uuid(Uuid),
}

/// Why a URN could not be read as an [`Auid`].
#[derive(Debug, PartialEq, Eq)]
pub enum AuidParseError {
    /// Neither `urn:smpte:ul:` nor `urn:uuid:`; holds the first 32 characters.
    InvalidPrefix(String),
    Ul(UlParseError),
    /// The text after `urn:uuid:` is not a UUID; holds the `uuid` crate's message.
    Uuid(String),
}

/// What `uuid::Uuid::parse_str` reads from `s`: the UUID as RFC 4122 bytes,
/// or the message of its error.
pub uninterp spec fn uuid_parse(s: Seq<char>) -> Result<Seq<u8>, Seq<char>>;

/// `uuid::Uuid::parse_str(s)`: the bytes of the parsed UUID, or the crate's
/// error message, both as `uuid_parse` names them. The crate documents that
/// it reads every form it writes, the hyphenated lower-case one among them, so
/// that form of 16 bytes gives those bytes back.
#[verifier::external_body]
fn uuid_parse_str(s: &str) -> (r: Result<[u8; 16], String>)
    ensures
        match r {
            Ok(b) => uuid_parse(s@) == Ok::<Seq<u8>, Seq<char>>(b@) && forall|c: Seq<u8>|
                c.len() == 16 && s@ == #[trigger] spec_uuid_hyphenated(c) ==> b@ == c,
            Err(m) => uuid_parse(s@) == Err::<Seq<u8>, Seq<char>>(m@) && forall|c: Seq<u8>|
                c.len() == 16 ==> s@ != #[trigger] spec_uuid_hyphenated(c),
        },
{
    match RfcUuid::parse_str(s) {
        Ok(u) => Ok(*u.as_bytes()),
        Err(e) => Err(e.to_string()),
    }
}

/// An [`AuidParseError`] as plain values.
pub enum AuidErrorView {
    InvalidPrefix(Seq<char>),
    Ul(UlParseError),
    Uuid(Seq<char>),
}

impl View for AuidParseError {
    type V = AuidErrorView;

    open spec fn view(&self) -> AuidErrorView {
        match self {
            AuidParseError::InvalidPrefix(p) => AuidErrorView::InvalidPrefix(p@),
            AuidParseError::Ul(e) => AuidErrorView::Ul(*e),
            AuidParseError::Uuid(m) => AuidErrorView::Uuid(m@),
        }
    }
}

/// The message of an [`AuidParseError`].
pub open spec fn auid_error_text(e: AuidErrorView) -> Seq<char> {
    match e {
        AuidErrorView::InvalidPrefix(p) => "invalid AUID URN — expected 'urn:smpte:ul:' or 'urn:uuid:' prefix, got: "@
            + str_debug(p),
        AuidErrorView::Ul(u) => "UL parse error: "@ + ul_error_text(u),
        AuidErrorView::Uuid(m) => "UUID parse error: "@ + m,
    }
}

impl AuidParseError {
    /// The error's message.
    pub fn to_string(&self) -> (r: String)
        ensures
            r@ == auid_error_text(self@),
    {
        let mut out: Vec<char> = Vec::new();
        match self {
            AuidParseError::InvalidPrefix(p) => {
                push_lit(&mut out, "invalid AUID URN — expected 'urn:smpte:ul:' or 'urn:uuid:' prefix, got: ");
                let q = debug_quoted(p.as_str());
                append_str(&mut out, q.as_str());
            },
            AuidParseError::Ul(e) => {
                push_lit(&mut out, "UL parse error: ");
                let m = e.to_string();
                append_str(&mut out, m.as_str());
            },
            AuidParseError::Uuid(m) => {
                push_lit(&mut out, "UUID parse error: ");
                append_str(&mut out, m.as_str());
            },
        }
        string_of(&out)
    }
}

/// An AUID as plain values: whether it is a UL, and its bytes (a UUID's in
/// RFC 4122 order).
pub open spec fn auid_key(a: Auid) -> (bool, Seq<u8>) {
    match a {
        Auid::Ul(u) => (true, u@),
        Auid::Uuid(u) => (false, u@),
    }
}

/// The AUID with the given key.
pub open spec fn auid_of_key(k: (bool, Seq<u8>)) -> Auid {
    choose|a: Auid| auid_key(a) == k
}

/// An AUID is determined by its key.
pub proof fn lemma_auid_key(a: Auid)
    ensures
        auid_of_key(auid_key(a)) == a,
{
    broadcast use vstd::array::group_array_axioms;

    let b = auid_of_key(auid_key(a));
    assert(auid_key(b) == auid_key(a));
    match (a, b) {
        (Auid::Ul(x), Auid::Ul(y)) => {
            assert(x.0 =~= y.0);
        },
        (Auid::Uuid(x), Auid::Uuid(y)) => {
            assert(x.0 =~= y.0);
        },
        _ => {},
    }
}

/// What [`Auid::from_urn`] reads from `s`: the key of the AUID, or the error.
pub open spec fn spec_auid_parse(s: Seq<char>) -> Result<(bool, Seq<u8>), AuidErrorView> {
    if starts_with(s, "urn:smpte:ul:"@) {
        match spec_ul_from_urn(vstd::utf8::encode_utf8(s)) {
            Ok(b) => Ok((true, b)),
            Err(e) => Err(AuidErrorView::Ul(e)),
        }
    } else if starts_with(s, "urn:uuid:"@) {
        match uuid_parse(s.skip(9)) {
            Ok(b) => Ok((false, b)),
            Err(m) => Err(AuidErrorView::Uuid(m)),
        }
    } else {
        Err(AuidErrorView::InvalidPrefix(first_32(s)))
    }
}

/// The AUID that `s` names, if [`Auid::from_urn`] reads one.
pub open spec fn urn_auid(s: Seq<char>) -> Option<Auid> {
    match spec_auid_parse(s) {
        Ok(k) => Some(auid_of_key(k)),
        Err(_) => None,
    }
}

/// Whether `a` is the AUID that 16 raw bytes `b` denote.
pub open spec fn auid_of_bytes(b: Seq<u8>, a: Auid) -> bool {
    if b[0] < 128 {
        a matches Auid::Ul(u) && u@ == b
    } else {
        a matches Auid::Uuid(u) && u@ == swap_halves(b)
    }
}

/// The AUID that 16 raw bytes denote.
pub open spec fn bytes_auid(b: Seq<u8>) -> Auid {
    choose|a: Auid| auid_of_bytes(b, a)
}

/// Only one AUID is denoted by 16 raw bytes.
pub proof fn lemma_auid_of_bytes_unique(b: Seq<u8>, a: Auid)
    requires
        auid_of_bytes(b, a),
    ensures
        (choose|x: Auid| auid_of_bytes(b, x)) == a,
        bytes_auid(b) == a,
{
    broadcast use vstd::array::group_array_axioms;

    let x = choose|x: Auid| auid_of_bytes(b, x);
    assert(auid_of_bytes(b, x));
    match (a, x) {
        (Auid::Ul(p), Auid::Ul(q)) => {
            assert(p.0 =~= q.0);
        },
        (Auid::Uuid(p), Auid::Uuid(q)) => {
            assert(p.0 =~= q.0);
        },
        _ => {},
    }
}

/// The URN of an AUID: the UL URN, or `urn:uuid:` and the hyphenated UUID.
pub open spec fn spec_auid_urn(a: Auid) -> Seq<char> {
    match a {
        Auid::Ul(u) => spec_ul_urn(u@),
        Auid::Uuid(u) => "urn:uuid:"@ + spec_uuid_hyphenated(u@),
    }
}

/// At most the first 32 characters of `s`.
pub open spec fn first_32(s: Seq<char>) -> Seq<char> {
    if s.len() <= 32 {
        s
    } else {
        s.take(32)
    }
}

/// Byte-wise equality of two 16-byte arrays.
pub fn bytes16_eq(a: &[u8; 16], b: &[u8; 16]) -> (r: bool)
    ensures
        r == (*a == *b),
{
    broadcast use vstd::array::group_array_axioms;

    let mut i: usize = 0;
    while i < 16
        invariant
            i <= 16,
            forall|j: int| 0 <= j < i ==> a@[j] == b@[j],
        decreases 16 - i,
    {
        if a[i] != b[i] {
            return false;
        }
        i = i + 1;
    }
    assert(*a =~= *b);
    true
}

impl Auid {
    /// Construct from 16 raw bytes, choosing UL or UUID by bit 7 of byte 0.
    pub fn from_bytes(b: [u8; 16]) -> (r: Auid)
        ensures
            auid_of_bytes(b@, r),
    {
        if b[0] & 0x80 == 0 {
            proof {
                let x = b[0];
                assert(x & 0x80 == 0 ==> x < 128) by (bit_vector);
            }
            Auid::Ul(Ul::from_bytes(b))
        } else {
            proof {
                let x = b[0];
                assert(x & 0x80 != 0 ==> x >= 128) by (bit_vector);
            }
            Auid::Uuid(Uuid::from_bytes_mxf(b))
        }
    }

    /// Parse from `urn:smpte:ul:…` or `urn:uuid:…` format.
    pub fn from_urn(s: &str) -> (r: Result<Auid, AuidParseError>)
        ensures
            match spec_auid_parse(s@) {
                Ok(k) => (r matches Ok(a) && auid_key(a) == k && urn_auid(s@) == Some(a)),
                Err(e) => (r matches Err(x) && x@ == e && urn_auid(s@) is None),
            },
            forall|a: Auid| #[trigger] spec_auid_urn(a) == s@ ==> r == Ok::<Auid, AuidParseError>(a),
    {
        if str_starts_with(s, "urn:smpte:ul:") {
            match Ul::from_urn(s) {
                Ok(u) => {
                    proof {
                        lemma_auid_key(Auid::Ul(u));
                        assert forall|a: Auid| #[trigger] spec_auid_urn(a) == s@ implies Auid::Ul(u) == a by {
                            lemma_auid_urn_prefix(a);
                            if let Auid::Ul(v) = a {
                                lemma_ul_auid_urn_round_trip(v);
                            }
                        }
                    }
                    Ok(Auid::Ul(u))
                },
                Err(e) => {
                    proof {
                        assert forall|a: Auid| #[trigger] spec_auid_urn(a) == s@ implies false by {
                            lemma_auid_urn_prefix(a);
                            if let Auid::Ul(v) = a {
                                lemma_ul_auid_urn_round_trip(v);
                            }
                        }
                    }
                    Err(AuidParseError::Ul(e))
                },
            }
        } else if str_starts_with(s, "urn:uuid:") {
            let cs = chars_of(s);
            proof {
                reveal_strlit("urn:uuid:");
            }
            let inner = string_of_range(&cs, 9, cs.len());
            proof {
                assert(cs@.subrange(9, cs@.len() as int) =~= s@.skip(9));
                assert forall|a: Auid| #[trigger] spec_auid_urn(a) == s@ implies (a matches Auid::Uuid(v)
                    && inner@ == spec_uuid_hyphenated(v@)) by {
                    lemma_auid_urn_prefix(a);
                    if let Auid::Uuid(v) = a {
                        assert(s@.skip(9) =~= spec_uuid_hyphenated(v@));
                    }
                }
            }
            match uuid_parse_str(inner.as_str()) {
                Ok(b) => {
                    let w = Uuid::from_bytes(b);
                    let a = Auid::Uuid(w);
                    proof {
                        lemma_auid_key(a);
                        assert forall|x: Auid| #[trigger] spec_auid_urn(x) == s@ implies a == x by {
                            broadcast use vstd::array::group_array_axioms;

                            if let Auid::Uuid(v) = x {
                                assert(v@.len() == 16);
                                assert(inner@ == spec_uuid_hyphenated(v@));
                                assert(b@ == v@);
                                assert(w.0 =~= v.0);
                            } else {
                                assert(x is Uuid);
                            }
                        }
                    }
                    Ok(a)
                },
                Err(msg) => {
                    proof {
                        assert forall|x: Auid| #[trigger] spec_auid_urn(x) == s@ implies false by {
                            if let Auid::Uuid(v) = x {
                                assert(v@.len() == 16);
                            }
                        }
                    }
                    Err(AuidParseError::Uuid(msg))
                },
            }
        } else {
            let cs = chars_of(s);
            let n = if cs.len() <= 32 { cs.len() } else { 32 };
            let p = string_of_range(&cs, 0, n);
            proof {
                assert(cs@.subrange(0, n as int) =~= first_32(s@));
                assert forall|a: Auid| #[trigger] spec_auid_urn(a) == s@ implies false by {
                    lemma_auid_urn_prefix(a);
                }
            }
            Err(AuidParseError::InvalidPrefix(p))
        }
    }

    pub fn as_ul(&self) -> (r: Option<&Ul>)
        ensures
            match *self {
                Auid::Ul(u) => r == Some(&u),
                Auid::Uuid(_) => r is None,
            },
    {
        match self {
            Auid::Ul(ul) => Some(ul),
            _ => None,
        }
    }

    pub fn as_uuid(&self) -> (r: Option<&Uuid>)
        ensures
            match *self {
                Auid::Uuid(u) => r == Some(&u),
                Auid::Ul(_) => r is None,
            },
    {
        match self {
            Auid::Uuid(uuid) => Some(uuid),
            _ => None,
        }
    }

    pub fn is_ul(&self) -> (r: bool)
        ensures
            r == (*self is Ul),
    {
        match self {
            Auid::Ul(_) => true,
            _ => false,
        }
    }

    pub fn is_uuid(&self) -> (r: bool)
        ensures
            r == (*self is Uuid),
    {
        match self {
            Auid::Uuid(_) => true,
            _ => false,
        }
    }

    /// Whether two AUIDs are the same identifier.
    pub fn same(&self, other: &Auid) -> (r: bool)
        ensures
            r == (*self == *other),
    {
        match (self, other) {
            (Auid::Ul(a), Auid::Ul(b)) => bytes16_eq(&a.0, &b.0),
            (Auid::Uuid(a), Auid::Uuid(b)) => bytes16_eq(&a.0, &b.0),
            _ => false,
        }
    }

    /// The URN form (`urn:smpte:ul:…` or `urn:uuid:…`).
    pub fn to_string(&self) -> (r: String)
        ensures
            r@ == spec_auid_urn(*self),
    {
        match self {
            Auid::Ul(ul) => ul.to_string(),
            Auid::Uuid(uuid) => {
                let mut out: Vec<char> = Vec::new();
                append_str(&mut out, "urn:uuid:");
                let u = uuid.to_string();
                append_str(&mut out, u.as_str());
                string_of(&out)
            },
        }
    }
}


/// The URN of a UL AUID begins `urn:smpte:ul:` and that of a UUID AUID
/// `urn:uuid:`; neither begins with the other prefix.
proof fn lemma_auid_urn_prefix(a: Auid)
    ensures
        (a is Ul) == starts_with(spec_auid_urn(a), "urn:smpte:ul:"@),
        (a is Uuid) == starts_with(spec_auid_urn(a), "urn:uuid:"@),
{
    reveal_strlit("urn:smpte:ul:");
    reveal_strlit("urn:uuid:");
    let s = spec_auid_urn(a);
    match a {
        Auid::Ul(u) => {
            assert(s.take(13) =~= "urn:smpte:ul:"@);
            assert(s[4] == 's');
            if starts_with(s, "urn:uuid:"@) {
                assert(s.take(9)[4] == 'u');
            }
        },
        Auid::Uuid(u) => {
            assert(s.take(9) =~= "urn:uuid:"@);
            assert(s[4] == 'u');
            if starts_with(s, "urn:smpte:ul:"@) {
                assert(s.take(13)[4] == 's');
            }
        },
    }
}

/// Reading the URN of a UL AUID gives the AUID back.
pub proof fn lemma_ul_auid_urn_round_trip(u: Ul)
    ensures
        urn_auid(spec_auid_urn(Auid::Ul(u))) == Some(Auid::Ul(u)),
{
    reveal_strlit("urn:smpte:ul:");
    let s = spec_auid_urn(Auid::Ul(u));
    assert(s.take(13) =~= "urn:smpte:ul:"@);
    crate::types::ul::lemma_urn_round_trip(u@);
    lemma_auid_key(Auid::Ul(u));
}

} // verus!
