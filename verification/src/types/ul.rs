//! SMPTE Universal Label (SMPTE ST 298).
use vstd::prelude::*;
use vstd::string::StringSliceAdditionalSpecFns;

use crate::text::{decimal, hex_dotted, push_decimal, push_hex_dotted, push_lit, string_of};

verus! {

/// SMPTE Universal Label — a structured 16-byte identifier (SMPTE ST 298).
///
/// The bytes encode: designator (0x06 0x0E 0x2B 0x34), category, registry,
/// structure, version, and item designation.
#[derive(Clone, Copy, PartialEq, Eq, Hash, Debug)]
pub struct Ul(pub [u8; 16]);

/// Why a URN could not be read as a [`Ul`].
#[derive(Debug, Clone, Copy, PartialEq, Eq)]
pub enum UlParseError {
    /// The text does not start with `urn:smpte:ul:`.
    InvalidPrefix,
    /// The hexadecimal part (dots removed) is not 32 bytes long; holds half its length.
    WrongLength(usize),
    /// The byte pair at this position holds a character that is not a hex digit.
    InvalidHex(usize),
}

impl View for Ul {
    type V = Seq<u8>;

    open spec fn view(&self) -> Seq<u8> {
        self.0@
    }
}

/// Whether bit `15 - i` of `mask` is set, i.e. whether the mask selects byte `i`
/// (the most significant bit selects byte 0).
pub open spec fn mask_selects(mask: u16, i: int) -> bool {
    mask & (1u16 << ((15 - i) as u16)) != 0
}

/// Whether `a` and `b` agree on every byte that `mask` selects.
pub open spec fn equal_under_mask(a: Seq<u8>, b: Seq<u8>, mask: u16) -> bool {
    forall|i: int| 0 <= i < 16 && mask_selects(mask, i) ==> a[i] == b[i]
}

/// The value of an ASCII hexadecimal digit, in either case.
pub open spec fn spec_hex_nibble(b: u8) -> Option<u8> {
    if 48 <= b <= 57 {
        Some((b - 48) as u8)
    } else if 97 <= b <= 102 {
        Some((b - 87) as u8)
    } else if 65 <= b <= 70 {
        Some((b - 55) as u8)
    } else {
        None
    }
}

/// The bytes of `urn:smpte:ul:`.
pub open spec fn ul_urn_prefix() -> Seq<u8> {
    seq![117u8, 114, 110, 58, 115, 109, 112, 116, 101, 58, 117, 108, 58]
}

/// `s` with every `.` byte removed.
pub open spec fn strip_dots(s: Seq<u8>) -> Seq<u8>
    decreases s.len(),
{
    if s.len() == 0 {
        s
    } else if s.last() == 46u8 {
        strip_dots(s.drop_last())
    } else {
        strip_dots(s.drop_last()).push(s.last())
    }
}

/// Whether byte pair `i` of `hex` holds two hex digits.
pub open spec fn pair_ok(hex: Seq<u8>, i: int) -> bool {
    spec_hex_nibble(hex[2 * i]) is Some && spec_hex_nibble(hex[2 * i + 1]) is Some
}

/// The first of the byte pairs `0..k` of `hex` that is not two hex digits.
pub open spec fn first_bad_pair(hex: Seq<u8>, k: nat) -> Option<nat>
    decreases k,
{
    if k == 0 {
        None
    } else {
        match first_bad_pair(hex, (k - 1) as nat) {
            Some(i) => Some(i),
            None => if pair_ok(hex, k - 1) {
                None
            } else {
                Some((k - 1) as nat)
            },
        }
    }
}

proof fn lemma_first_bad_pair_stable(hex: Seq<u8>, k: nat, m: nat)
    requires
        k <= m,
        first_bad_pair(hex, k) is Some,
    ensures
        first_bad_pair(hex, m) == first_bad_pair(hex, k),
    decreases m - k,
{
    if k < m {
        lemma_first_bad_pair_stable(hex, k, (m - 1) as nat);
    }
}

/// The byte that pair `i` of `hex` denotes.
pub open spec fn pair_value(hex: Seq<u8>, i: int) -> u8 {
    (spec_hex_nibble(hex[2 * i])->0 * 16 + spec_hex_nibble(hex[2 * i + 1])->0) as u8
}

/// What `Ul::from_urn` gives for a URN whose UTF-8 bytes are `s`.
pub open spec fn spec_ul_from_urn(s: Seq<u8>) -> Result<Seq<u8>, UlParseError> {
    if !(s.len() >= 13 && s.take(13) == ul_urn_prefix()) {
        Err(UlParseError::InvalidPrefix)
    } else {
        let hex = strip_dots(s.skip(13));
        if hex.len() != 32 {
            Err(UlParseError::WrongLength((hex.len() / 2) as usize))
        } else {
            match first_bad_pair(hex, 16) {
                Some(i) => Err(UlParseError::InvalidHex(i as usize)),
                None => Ok(Seq::new(16, |i: int| pair_value(hex, i))),
            }
        }
    }
}

/// The message of a [`UlParseError`].
pub open spec fn ul_error_text(e: UlParseError) -> Seq<char> {
    match e {
        UlParseError::InvalidPrefix => "invalid URN prefix, expected 'urn:smpte:ul:'"@,
        UlParseError::WrongLength(n) => "wrong number of hex bytes: expected 16, got "@ + decimal(
            n as nat,
        ),
        UlParseError::InvalidHex(n) => "invalid hex digit at byte position "@ + decimal(n as nat),
    }
}

impl UlParseError {
    /// The error's message.
    pub fn to_string(&self) -> (r: String)
        ensures
            r@ == ul_error_text(*self),
    {
        let mut out: Vec<char> = Vec::new();
        match self {
            UlParseError::InvalidPrefix => push_lit(&mut out, "invalid URN prefix, expected 'urn:smpte:ul:'"),
            UlParseError::WrongLength(n) => {
                push_lit(&mut out, "wrong number of hex bytes: expected 16, got ");
                push_decimal(&mut out, *n as u64);
            },
            UlParseError::InvalidHex(n) => {
                push_lit(&mut out, "invalid hex digit at byte position ");
                push_decimal(&mut out, *n as u64);
            },
        }
        string_of(&out)
    }
}

/// `urn:smpte:ul:` followed by four groups of eight lower-case hex digits
/// separated by dots.
pub open spec fn spec_ul_urn(b: Seq<u8>) -> Seq<char> {
    "urn:smpte:ul:"@ + hex_dotted(b, false)
}

/// Value of an ASCII hexadecimal digit.
pub fn hex_nibble(b: u8) -> (r: Result<u8, ()>)
    ensures
        match spec_hex_nibble(b) {
            Some(v) => r == Ok::<u8, ()>(v),
            None => r is Err,
        },
{
    if 48 <= b && b <= 57 {
        Ok(b - 48)
    } else if 97 <= b && b <= 102 {
        Ok(b - 87)
    } else if 65 <= b && b <= 70 {
        Ok(b - 55)
    } else {
        Err(())
    }
}

impl Ul {
    pub fn from_bytes(b: [u8; 16]) -> (r: Ul)
        ensures
            r@ == b@,
    {
        Ul(b)
    }

    pub fn as_bytes(&self) -> (r: &[u8; 16])
        ensures
            r@ == self@,
    {
        &self.0
    }

    /// Parse from `urn:smpte:ul:AABBCCDD.AABBCCDD.AABBCCDD.AABBCCDD` format.
    ///
    /// Dots may stand anywhere after the prefix; what remains must be
    /// exactly 32 hexadecimal digits of either case.
    pub fn from_urn(s: &str) -> (r: Result<Ul, UlParseError>)
        ensures
            match spec_ul_from_urn(s.spec_bytes()) {
                Ok(b) => (r matches Ok(u) && u@ == b),
                Err(e) => r == Err::<Ul, UlParseError>(e),
            },
    {
        let bytes = s.as_bytes();
        let prefix: [u8; 13] = [117, 114, 110, 58, 115, 109, 112, 116, 101, 58, 117, 108, 58];
        if bytes.len() < 13 {
            return Err(UlParseError::InvalidPrefix);
        }
        let mut k: usize = 0;
        while k < 13
            invariant
                bytes@ == s.spec_bytes(),
                bytes@.len() >= 13,
                k <= 13,
                prefix@ == ul_urn_prefix(),
                forall|j: int| 0 <= j < k ==> bytes@[j] == prefix@[j],
            decreases 13 - k,
        {
            if bytes[k] != prefix[k] {
                proof {
                    assert(bytes@.take(13)[k as int] != ul_urn_prefix()[k as int]);
                }
                return Err(UlParseError::InvalidPrefix);
            }
            k = k + 1;
        }
        proof {
            assert(bytes@.take(13) =~= ul_urn_prefix());
        }
        let mut hex: Vec<u8> = Vec::new();
        let mut i: usize = 13;
        while i < bytes.len()
            invariant
                bytes@ == s.spec_bytes(),
                13 <= i <= bytes@.len(),
                hex@ == strip_dots(bytes@.subrange(13, i as int)),
            decreases bytes.len() - i,
        {
            if bytes[i] != 46 {
                hex.push(bytes[i]);
            }
            i = i + 1;
            proof {
                assert(bytes@.subrange(13, i as int).drop_last() =~= bytes@.subrange(13, i - 1));
            }
        }
        proof {
            assert(bytes@.subrange(13, bytes@.len() as int) =~= bytes@.skip(13));
        }
        if hex.len() != 32 {
            return Err(UlParseError::WrongLength(hex.len() / 2));
        }
        let mut out = [0u8; 16];
        let mut p: usize = 0;
        while p < 16
            invariant
                bytes@ == s.spec_bytes(),
                bytes@.len() >= 13,
                bytes@.take(13) == ul_urn_prefix(),
                hex@.len() == 32,
                hex@ == strip_dots(bytes@.skip(13)),
                p <= 16,
                first_bad_pair(hex@, p as nat) is None,
                forall|j: int| 0 <= j < p ==> out@[j] == pair_value(hex@, j),
            decreases 16 - p,
        {
            let hi = hex_nibble(hex[2 * p]);
            let lo = hex_nibble(hex[2 * p + 1]);
            match (hi, lo) {
                (Ok(h), Ok(l)) => {
                    out[p] = h * 16 + l;
                    p = p + 1;
                },
                _ => {
                    proof {
                        lemma_first_bad_pair_stable(hex@, (p + 1) as nat, 16);
                    }
                    return Err(UlParseError::InvalidHex(p));
                },
            }
        }
        proof {
            assert(out@ =~= Seq::new(16, |i: int| pair_value(hex@, i)));
        }
        Ok(Ul(out))
    }

    /// Compare with a 16-bit bitmask: bit `15 - i` (the most significant bit
    /// first) enables the comparison of byte `i`.
    pub fn equals_with_mask(&self, other: &Ul, mask: u16) -> (r: bool)
        ensures
            r == equal_under_mask(self@, other@, mask),
    {
        let mut i: usize = 0;
        while i < 16
            invariant
                i <= 16,
                forall|j: int| 0 <= j < i && mask_selects(mask, j) ==> self@[j] == other@[j],
            decreases 16 - i,
        {
            let bit: u16 = 1u16 << (15 - i as u16);
            if mask & bit != 0 && self.0[i] != other.0[i] {
                return false;
            }
            i = i + 1;
        }
        true
    }

    /// Compare ignoring byte 7 (the version byte).
    pub fn equals_ignore_version(&self, other: &Ul) -> (r: bool)
        ensures
            r == (forall|i: int| 0 <= i < 16 && i != 7 ==> self@[i] == other@[i]),
    {
        proof {
            lemma_mask_feff();
        }
        self.equals_with_mask(other, 0xFEFF)
    }

    /// Whether the UL designates a group (byte 4 is `0x02`).
    pub fn is_group_key(&self) -> (r: bool)
        ensures
            r == (self@[4] == 0x02),
    {
        self.0[4] == 0x02
    }

    /// The URN form: `urn:smpte:ul:` and four dot-separated groups of eight
    /// lower-case hex digits.
    pub fn to_string(&self) -> (r: String)
        ensures
            r@ == spec_ul_urn(self@),
    {
        let mut out: Vec<char> = Vec::new();
        push_lit(&mut out, "urn:smpte:ul:");
        push_hex_dotted(&mut out, &self.0, false);
        string_of(&out)
    }
}

/// The mask `0xFEFF` selects every byte but byte 7.
pub proof fn lemma_mask_feff()
    ensures
        forall|i: int| 0 <= i < 16 ==> (mask_selects(0xFEFF, i) <==> i != 7),
{
    assert forall|i: int| 0 <= i < 16 implies (mask_selects(0xFEFF, i) <==> i != 7) by {
        let j = (15 - i) as u16;
        assert(j < 16);
        assert((0xFEFFu16 & (1u16 << j)) != 0 <==> j != 8) by (bit_vector)
            requires
                j < 16,
        ;
    }
}


/// With every bit of the mask set, a masked comparison is plain equality.
pub proof fn lemma_full_mask_is_equality(a: Ul, b: Ul)
    ensures
        equal_under_mask(a@, b@, 0xFFFF) <==> a == b,
{
    broadcast use vstd::array::group_array_axioms;

    assert forall|i: int| 0 <= i < 16 implies mask_selects(0xFFFF, i) by {
        let j = (15 - i) as u16;
        assert((0xFFFFu16 & (1u16 << j)) != 0) by (bit_vector)
            requires
                j < 16,
        ;
    }
    if equal_under_mask(a@, b@, 0xFFFF) {
        assert forall|i: int| 0 <= i < 16 implies a.0[i] == b.0[i] by {
            assert(a@[i] == b@[i]);
        }
        assert(a.0 =~= b.0);
    }
}

/// For any mask, comparison under it is an equivalence: reflexive,
/// symmetric and transitive.
pub proof fn lemma_mask_equivalence(a: Seq<u8>, b: Seq<u8>, c: Seq<u8>, mask: u16)
    ensures
        equal_under_mask(a, a, mask),
        equal_under_mask(a, b, mask) ==> equal_under_mask(b, a, mask),
        equal_under_mask(a, b, mask) && equal_under_mask(b, c, mask) ==> equal_under_mask(a, c, mask),
{
}

/// The characters of a URN as the bytes of their (ASCII) code points.
pub open spec fn ascii_bytes(cs: Seq<char>) -> Seq<u8> {
    cs.map_values(|c: char| c as u8)
}

proof fn lemma_strip_dots_append(x: Seq<u8>, y: Seq<u8>)
    ensures
        strip_dots(x + y) == strip_dots(x) + strip_dots(y),
    decreases y.len(),
{
    if y.len() > 0 {
        assert((x + y).drop_last() =~= x + y.drop_last());
        lemma_strip_dots_append(x, y.drop_last());
    } else {
        assert(x + y =~= x);
    }
}

proof fn lemma_hex_digit_value(n: int)
    requires
        0 <= n < 16,
    ensures
        spec_hex_nibble(crate::text::hex_digit(n, false) as u8) == Some(n as u8),
        crate::text::hex_digit(n, false) as u8 != 46u8,
        '\0' <= crate::text::hex_digit(n, false) <= '\u{7f}',
{
}

/// The dotted hex text of `b`, as bytes and with the dots taken out, is the
/// two digits of each byte in turn.
proof fn lemma_dotted_digits(b: Seq<u8>)
    ensures
        strip_dots(ascii_bytes(hex_dotted(b, false))).len() == 2 * b.len(),
        forall|i: int| 0 <= i < b.len() ==> {
            let h = strip_dots(ascii_bytes(hex_dotted(b, false)));
            &&& #[trigger] b[i] == b[i]
            &&& h[2 * i] == crate::text::hex_digit(b[i] as int / 16, false) as u8
            &&& h[2 * i + 1] == crate::text::hex_digit(b[i] as int % 16, false) as u8
        },
        forall|j: int| 0 <= j < hex_dotted(b, false).len() ==> '\0' <= #[trigger] hex_dotted(b, false)[j] <= '\u{7f}',
    decreases b.len(),
{
    if b.len() > 0 {
        let k = b.len() - 1;
        let front = b.drop_last();
        lemma_dotted_digits(front);
        let dot: Seq<char> = if k > 0 && k % 4 == 0 { seq!['.'] } else { Seq::empty() };
        let last = crate::text::hex2(b.last(), false);
        assert(hex_dotted(b, false) == hex_dotted(front, false) + dot + last);
        assert(ascii_bytes(hex_dotted(b, false)) =~= ascii_bytes(hex_dotted(front, false)) + ascii_bytes(dot)
            + ascii_bytes(last));
        lemma_strip_dots_append(ascii_bytes(hex_dotted(front, false)) + ascii_bytes(dot), ascii_bytes(last));
        lemma_strip_dots_append(ascii_bytes(hex_dotted(front, false)), ascii_bytes(dot));
        lemma_hex_digit_value(b.last() as int / 16);
        lemma_hex_digit_value(b.last() as int % 16);
        let lb = ascii_bytes(last);
        assert(lb.len() == 2);
        assert(lb[0] == crate::text::hex_digit(b.last() as int / 16, false) as u8);
        assert(lb[1] == crate::text::hex_digit(b.last() as int % 16, false) as u8);
        let l0 = seq![lb[0]];
        assert(lb.drop_last() =~= l0);
        assert(l0.drop_last() =~= Seq::<u8>::empty());
        assert(strip_dots(Seq::<u8>::empty()) =~= Seq::<u8>::empty());
        assert(strip_dots(l0) =~= l0);
        assert(strip_dots(lb) =~= lb);
        let db = ascii_bytes(dot);
        if k > 0 && k % 4 == 0 {
            assert(db.len() == 1);
            assert(db[0] == 46u8);
            assert(db.drop_last() =~= Seq::<u8>::empty());
            assert(strip_dots(db) =~= Seq::<u8>::empty());
        } else {
            assert(db =~= Seq::<u8>::empty());
            assert(strip_dots(db) =~= Seq::<u8>::empty());
        }
        let h = strip_dots(ascii_bytes(hex_dotted(b, false)));
        let hf = strip_dots(ascii_bytes(hex_dotted(front, false)));
        assert(h =~= hf + lb);
        assert forall|i: int| 0 <= i < b.len() implies {
            &&& #[trigger] b[i] == b[i]
            &&& h[2 * i] == crate::text::hex_digit(b[i] as int / 16, false) as u8
            &&& h[2 * i + 1] == crate::text::hex_digit(b[i] as int % 16, false) as u8
        } by {
            if i < k {
                assert(front[i] == b[i]);
            }
        }
    }
}

proof fn lemma_all_pairs_ok(hex: Seq<u8>, k: nat)
    requires
        forall|i: int| 0 <= i < k ==> #[trigger] pair_ok(hex, i),
    ensures
        first_bad_pair(hex, k) is None,
    decreases k,
{
    if k > 0 {
        lemma_all_pairs_ok(hex, (k - 1) as nat);
        assert(pair_ok(hex, k - 1));
    }
}

/// Reading the URN that [`Ul::to_string`] writes gives the UL back.
pub proof fn lemma_urn_round_trip(b: Seq<u8>)
    requires
        b.len() == 16,
    ensures
        spec_ul_from_urn(vstd::utf8::encode_utf8(spec_ul_urn(b))) == Ok::<Seq<u8>, UlParseError>(b),
{
    reveal_strlit("urn:smpte:ul:");
    let pre = "urn:smpte:ul:"@;
    let hd = hex_dotted(b, false);
    let s = spec_ul_urn(b);
    lemma_dotted_digits(b);
    assert(vstd::utf8::is_ascii_chars(s)) by {
        assert forall|i: int| 0 <= i < s.len() implies '\0' <= #[trigger] s[i] <= '\u{7f}' by {
            if i >= 13 {
                assert(s[i] == hd[i - 13]);
            }
        }
    }
    vstd::utf8::is_ascii_chars_encode_utf8(s);
    let bytes = vstd::utf8::encode_utf8(s);
    assert(bytes =~= ascii_bytes(s));
    assert(bytes.take(13) =~= ul_urn_prefix());
    assert(bytes.skip(13) =~= ascii_bytes(hd));
    let hex = strip_dots(bytes.skip(13));
    assert forall|i: int| 0 <= i < 16 implies #[trigger] pair_ok(hex, i) && pair_value(hex, i) == b[i] by {
        assert(b[i] == b[i]);
        lemma_hex_digit_value(b[i] as int / 16);
        lemma_hex_digit_value(b[i] as int % 16);
    }
    lemma_all_pairs_ok(hex, 16);
    assert(Seq::new(16, |i: int| pair_value(hex, i)) =~= b);
}

} // verus!
