//! SMPTE UUID wrapper with the MXF byte-swap convention.
use vstd::prelude::*;

use crate::text::hex2;
use uuid::Uuid as RfcUuid;

verus! {

#[verifier::external_type_specification]
#[verifier::external_body]
pub struct ExRfcUuid(RfcUuid);

/// SMPTE UUID: the 16 bytes of an RFC 4122 UUID, in RFC 4122 order.
///
/// In MXF, UUIDs are stored with bytes 0-7 swapped with bytes 8-15 relative
/// to the RFC 4122 layout; [`Uuid::from_bytes_mxf`] undoes that swap.
#[derive(Clone, Copy, PartialEq, Eq, Hash, Debug)]
pub struct Uuid(pub [u8; 16]);

impl View for Uuid {
    type V = Seq<u8>;

    open spec fn view(&self) -> Seq<u8> {
        self.0@
    }
}

/// The two 8-byte halves of `b` exchanged.
pub open spec fn swap_halves(b: Seq<u8>) -> Seq<u8> {
    b.subrange(8, 16) + b.subrange(0, 8)
}

/// The hyphenated lower-case form `xxxxxxxx-xxxx-xxxx-xxxx-xxxxxxxxxxxx`.
pub open spec fn spec_uuid_hyphenated(b: Seq<u8>) -> Seq<char> {
    hex2(b[0], false) + hex2(b[1], false) + hex2(b[2], false) + hex2(b[3], false) + seq!['-']
        + hex2(b[4], false) + hex2(b[5], false) + seq!['-'] + hex2(b[6], false) + hex2(b[7], false)
        + seq!['-'] + hex2(b[8], false) + hex2(b[9], false) + seq!['-'] + hex2(b[10], false)
        + hex2(b[11], false) + hex2(b[12], false) + hex2(b[13], false) + hex2(b[14], false)
        + hex2(b[15], false)
}

/// `uuid::Uuid::from_bytes(b).to_string()`: the `Display` form of the `uuid`
/// crate, which it documents as the hyphenated lower-case form.
#[verifier::external_body]
fn uuid_display(b: [u8; 16]) -> (r: String)
    ensures
        r@ == spec_uuid_hyphenated(b@),
{
    RfcUuid::from_bytes(b).to_string()
}

/// The `uuid` crate's UUID of the 16 bytes `b` (what `uuid::Uuid::from_bytes`
/// makes of them).
pub uninterp spec fn rfc_uuid(b: Seq<u8>) -> RfcUuid;

/// `uuid::Uuid::from_bytes(b)`: the `uuid` crate's value for these bytes, a
/// function of the bytes alone (the crate's `const fn` stores them as given).
#[verifier::external_body]
fn uuid_from_bytes(b: [u8; 16]) -> (r: RfcUuid)
    ensures
        r == rfc_uuid(b@),
{
    RfcUuid::from_bytes(b)
}

impl Uuid {
    /// Construct from raw MXF bytes (applying the MXF byte-swap).
    pub fn from_bytes_mxf(b: [u8; 16]) -> (r: Uuid)
        ensures
            r@ == swap_halves(b@),
    {
        let mut swapped = [0u8; 16];
        let mut i: usize = 0;
        while i < 16
            invariant
                i <= 16,
                forall|j: int| 0 <= j < i ==> #[trigger] swapped@[j] == b@[(j + 8) % 16],
            decreases 16 - i,
        {
            swapped[i] = b[(i + 8) % 16];
            i = i + 1;
        }
        proof {
            assert(swapped@ =~= swap_halves(b@));
        }
        Uuid(swapped)
    }

    /// Construct directly from RFC 4122 bytes (no swap).
    pub fn from_bytes(b: [u8; 16]) -> (r: Uuid)
        ensures
            r@ == b@,
    {
        Uuid(b)
    }

    /// The same UUID as a value of the `uuid` crate.
    pub fn as_inner(&self) -> (r: RfcUuid)
        ensures
            r == rfc_uuid(self@),
    {
        uuid_from_bytes(self.0)
    }

    /// The hyphenated lower-case form, as the `uuid` crate displays it.
    pub fn to_string(&self) -> (r: String)
        ensures
            r@ == spec_uuid_hyphenated(self@),
    {
        uuid_display(self.0)
    }
}

} // verus!
