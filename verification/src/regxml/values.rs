//! The text that RegXML gives a property value of a simple type: integers,
//! characters and strings, identifiers, dates and times, and raw bytes.
use vstd::prelude::*;

use crate::klv::ber::{lemma_be_value_bound, lemma_pow256_values, pow256};
use crate::klv::reader::be_value;
use crate::text::{
    append_chars, append_str, decimal, hex2, hex_compact, hex_digit, hex_digit_exec, hex_dotted,
    push_decimal, push_hex2, push_hex_dotted, push_lit, push_signed_decimal, push_zero_padded,
    signed_decimal, string_of, utf8_text, zero_pad,
};
use crate::types::auid::{auid_of_bytes, spec_auid_urn, Auid};
use crate::types::uuid_id::{spec_uuid_hyphenated, Uuid};
use crate::dict::definition::{enum_elements_view, EnumerationElement};

verus! {

// ── Raw bytes ───────────────────────────────────────────────────────────────

/// Every byte as two lower-case hex digits, separated by single spaces.
pub open spec fn hex_spaced(bytes: Seq<u8>) -> Seq<char>
    decreases bytes.len(),
{
    if bytes.len() == 0 {
        Seq::empty()
    } else {
        hex_spaced(bytes.drop_last()) + (if bytes.len() > 1 {
            seq![' ']
        } else {
            Seq::empty()
        }) + hex2(bytes.last(), false)
    }
}

/// The value of a lower-case hexadecimal digit, or -1 for any other character.
pub open spec fn lower_hex_value(c: char) -> int {
    let n = c as u32;
    if 48 <= n <= 57 {
        n - 48
    } else if 97 <= n <= 102 {
        n - 87
    } else {
        -1
    }
}

proof fn lemma_hex2_reads_back(b: u8)
    ensures
        hex2(b, false).len() == 2,
        lower_hex_value(hex2(b, false)[0]) >= 0,
        lower_hex_value(hex2(b, false)[1]) >= 0,
        lower_hex_value(hex2(b, false)[0]) * 16 + lower_hex_value(hex2(b, false)[1]) == b,
{
    let hi = b as int / 16;
    let lo = b as int % 16;
    assert(0 <= hi < 16 && 0 <= lo < 16);
    if hi < 10 {
        assert((((48 + hi) as char) as u32) == 48 + hi);
    } else {
        assert((((87 + hi) as char) as u32) == 87 + hi);
    }
    if lo < 10 {
        assert((((48 + lo) as char) as u32) == 48 + lo);
    } else {
        assert((((87 + lo) as char) as u32) == 87 + lo);
    }
}

/// Raw bytes are written as pairs of lower-case hexadecimal digits, most
/// significant first, one pair per byte in order, single spaces between
/// pairs: byte `i` is the pair at `3 i`, which reads back as the byte.
pub proof fn lemma_hex_spaced_reads_back(b: Seq<u8>)
    ensures
        hex_spaced(b).len() == if b.len() == 0 { 0 } else { 3 * b.len() - 1 },
        forall|i: int| 0 <= i < b.len() ==> lower_hex_value(#[trigger] hex_spaced(b)[3 * i]) >= 0
            && lower_hex_value(hex_spaced(b)[3 * i + 1]) >= 0
            && lower_hex_value(hex_spaced(b)[3 * i]) * 16 + lower_hex_value(hex_spaced(b)[3 * i + 1]) == b[i],
        forall|i: int| 0 <= i < b.len() - 1 ==> #[trigger] hex_spaced(b)[3 * i + 2] == ' ',
    decreases b.len(),
{
    if b.len() > 0 {
        let f = b.drop_last();
        lemma_hex_spaced_reads_back(f);
        lemma_hex2_reads_back(b.last());
        let tf = hex_spaced(f);
        let sep: Seq<char> = if b.len() > 1 { seq![' '] } else { Seq::empty() };
        let h = hex2(b.last(), false);
        let t = hex_spaced(b);
        assert(t == tf + sep + h);
        assert forall|i: int| 0 <= i < b.len() implies lower_hex_value(#[trigger] t[3 * i]) >= 0
            && lower_hex_value(t[3 * i + 1]) >= 0
            && lower_hex_value(t[3 * i]) * 16 + lower_hex_value(t[3 * i + 1]) == b[i] by {
            if i < b.len() - 1 {
                assert(t[3 * i] == tf[3 * i]);
                assert(t[3 * i + 1] == tf[3 * i + 1]);
                assert(f[i] == b[i]);
            } else {
                assert(tf.len() + sep.len() == 3 * i);
                assert(t[3 * i] == h[0]);
                assert(t[3 * i + 1] == h[1]);
            }
        }
        assert forall|i: int| 0 <= i < b.len() - 1 implies #[trigger] t[3 * i + 2] == ' ' by {
            if i < b.len() - 2 {
                assert(t[3 * i + 2] == tf[3 * i + 2]);
            } else {
                assert(3 * i + 2 == tf.len());
                assert(t[3 * i + 2] == sep[0]);
            }
        }
    }
}

/// Hex-encode all bytes with space separators (used for unknown/opaque values).
pub fn hex_bytes(data: &[u8]) -> (r: String)
    ensures
        r@ == hex_spaced(data@),
{
    let mut out: Vec<char> = Vec::new();
    let mut i: usize = 0;
    while i < data.len()
        invariant
            i <= data@.len(),
            out@ == hex_spaced(data@.take(i as int)),
        decreases data.len() - i,
    {
        if i > 0 {
            out.push(' ');
        }
        push_hex2(&mut out, data[i], false);
        i = i + 1;
        proof {
            assert(data@.take(i as int).drop_last() =~= data@.take(i - 1));
            assert(out@ =~= hex_spaced(data@.take(i as int)));
        }
    }
    proof {
        assert(data@.take(i as int) =~= data@);
    }
    string_of(&out)
}

/// Hex-encode all bytes without separators (raw byte arrays such as DataValue).
pub fn hex_bytes_compact(data: &[u8]) -> (r: String)
    ensures
        r@ == hex_compact(data@, false),
{
    let mut out: Vec<char> = Vec::new();
    let mut i: usize = 0;
    while i < data.len()
        invariant
            i <= data@.len(),
            out@ == hex_compact(data@.take(i as int), false),
        decreases data.len() - i,
    {
        push_hex2(&mut out, data[i], false);
        i = i + 1;
        proof {
            assert(data@.take(i as int).drop_last() =~= data@.take(i - 1));
        }
    }
    proof {
        assert(data@.take(i as int) =~= data@);
    }
    string_of(&out)
}

// ── Identifiers ─────────────────────────────────────────────────────────────

/// The first 16 bytes of `b` as an array.
pub fn array16(b: &[u8]) -> (r: [u8; 16])
    requires
        b@.len() >= 16,
    ensures
        r@ == b@.take(16),
{
    let mut a = [0u8; 16];
    let mut i: usize = 0;
    while i < 16
        invariant
            b@.len() >= 16,
            i <= 16,
            a@.len() == 16,
            forall|j: int| 0 <= j < i ==> a@[j] == b@[j],
        decreases 16 - i,
    {
        a.set(i, b[i]);
        i = i + 1;
    }
    proof {
        assert(a@ =~= b@.take(16));
    }
    a
}

/// `urn:uuid:` and the hyphenated form of the first 16 bytes.
pub open spec fn uuid_urn(b: Seq<u8>) -> Seq<char> {
    "urn:uuid:"@ + spec_uuid_hyphenated(b.take(16))
}

/// Format 16 raw bytes as a `urn:uuid:xxxxxxxx-xxxx-xxxx-xxxx-xxxxxxxxxxxx` string.
pub fn format_uuid_bytes(b: &[u8]) -> (r: String)
    requires
        b@.len() >= 16,
    ensures
        r@ == uuid_urn(b@),
{
    let u = Uuid::from_bytes(array16(b));
    let mut out: Vec<char> = Vec::new();
    push_lit(&mut out, "urn:uuid:");
    append_str(&mut out, u.to_string().as_str());
    string_of(&out)
}

/// `urn:smpte:umid:` and the first 32 bytes in groups of four, dot-separated.
pub open spec fn umid_urn(b: Seq<u8>) -> Seq<char> {
    "urn:smpte:umid:"@ + hex_dotted(b.take(32), false)
}

/// Format 32 raw bytes as a `urn:smpte:umid:XXXXXXXX.XXXXXXXX.…` string.
pub fn format_umid_bytes(b: &[u8]) -> (r: String)
    requires
        b@.len() >= 32,
    ensures
        r@ == umid_urn(b@),
{
    let mut first: Vec<u8> = Vec::new();
    let mut i: usize = 0;
    while i < 32
        invariant
            b@.len() >= 32,
            i <= 32,
            first@ == b@.take(i as int),
        decreases 32 - i,
    {
        first.push(b[i]);
        i = i + 1;
        proof {
            assert(first@ =~= b@.take(i as int));
        }
    }
    let mut out: Vec<char> = Vec::new();
    push_lit(&mut out, "urn:smpte:umid:");
    push_hex_dotted(&mut out, first.as_slice(), false);
    string_of(&out)
}

// ── Integers ────────────────────────────────────────────────────────────────

/// The bytes (at most 8) read as a big-endian unsigned integer.
pub fn be_u64(data: &[u8]) -> (r: u64)
    requires
        data@.len() <= 8,
    ensures
        r == be_value(data@),
{
    let mut val: u64 = 0;
    let mut i: usize = 0;
    while i < data.len()
        invariant
            data@.len() <= 8,
            i <= data@.len(),
            val == be_value(data@.take(i as int)),
        decreases data.len() - i,
    {
        proof {
            lemma_be_value_bound(data@.take(i as int));
            lemma_pow256_le_7(i as nat);
        }
        val = val * 256 + data[i] as u64;
        i = i + 1;
        proof {
            assert(data@.take(i as int).drop_last() =~= data@.take(i - 1));
        }
    }
    proof {
        assert(data@.take(i as int) =~= data@);
    }
    val
}

proof fn lemma_pow256_le_7(i: nat)
    requires
        i <= 7,
    ensures
        pow256(i) <= pow256(7),
        pow256(7) == 0x100000000000000,
{
    lemma_pow256_values();
    assert(pow256(0) == 1);
    assert(pow256(1) == 0x100);
    assert(pow256(2) == 0x10000);
    assert(pow256(3) == 0x1000000);
    assert(pow256(4) == 0x100000000);
    assert(pow256(5) == 0x10000000000);
    assert(pow256(6) == 0x1000000000000);
}

/// `v`, an `n`-byte two's complement pattern, as a signed number.
pub open spec fn twos(v: nat, n: nat) -> int {
    if v * 2 >= pow256(n) {
        v - pow256(n)
    } else {
        v as int
    }
}

/// Whether an integer of `size` bytes is stored in exactly that many bytes
/// and the size is one RegXML reads (1, 2, 4 or 8).
pub open spec fn int_fits(size: u8, len: nat) -> bool {
    (size == 1 || size == 2 || size == 4 || size == 8) && len == size
}

/// The text of an integer value: decimal when the size is 1, 2, 4 or 8 and
/// matches the data, else the bytes in hex.
pub open spec fn integer_text(size: u8, is_signed: bool, data: Seq<u8>) -> Seq<char> {
    if int_fits(size, data.len()) {
        if is_signed {
            signed_decimal(twos(be_value(data), data.len()))
        } else {
            decimal(be_value(data))
        }
    } else {
        hex_spaced(data)
    }
}

/// The signed value of `data` (1 to 8 bytes, big-endian two's complement).
pub fn be_i64(data: &[u8]) -> (r: i64)
    requires
        1 <= data@.len() <= 8,
    ensures
        r == twos(be_value(data@), data@.len()),
{
    let v = be_u64(data);
    let n = data.len();
    proof {
        lemma_be_value_bound(data@);
        lemma_pow256_values();
        lemma_pow256_fits(n as nat);
    }
    if n == 8 {
        if v >= 0x8000_0000_0000_0000 {
            let m: u64 = 0xFFFF_FFFF_FFFF_FFFF - v;
            let r: i64 = -(m as i64) - 1;
            r
        } else {
            v as i64
        }
    } else {
        let full: u64 = pow256_exec(n);
        if v * 2 >= full {
            (v as i64) - (full as i64)
        } else {
            v as i64
        }
    }
}

proof fn lemma_pow256_fits(n: nat)
    requires
        1 <= n <= 8,
    ensures
        pow256(n) <= 0x10000000000000000,
        n < 8 ==> pow256(n) <= 0x100000000000000,
{
    lemma_pow256_values();
    assert(pow256(0) == 1);
    assert(pow256(1) == 0x100);
    assert(pow256(2) == 0x10000);
    assert(pow256(3) == 0x1000000);
    assert(pow256(4) == 0x100000000);
    assert(pow256(5) == 0x10000000000);
    assert(pow256(6) == 0x1000000000000);
}

fn pow256_exec(n: usize) -> (r: u64)
    requires
        n < 8,
    ensures
        r == pow256(n as nat),
{
    let mut r: u64 = 1;
    let mut i: usize = 0;
    while i < n
        invariant
            i <= n < 8,
            r == pow256(i as nat),
        decreases n - i,
    {
        proof {
            lemma_pow256_fits(i as nat + 1);
            assert(pow256(i as nat + 1) == pow256(i as nat) * 256);
        }
        r = r * 256;
        i = i + 1;
    }
    r
}

/// The text of an integer property value.
pub fn integer_value_text(size: u8, is_signed: bool, data: &[u8]) -> (r: String)
    ensures
        r@ == integer_text(size, is_signed, data@),
{
    let n = data.len();
    if (size == 1 || size == 2 || size == 4 || size == 8) && n == size as usize {
        let mut out: Vec<char> = Vec::new();
        if is_signed {
            let v = be_i64(data);
            push_signed_decimal(&mut out, v);
        } else {
            let v = be_u64(data);
            push_decimal(&mut out, v);
        }
        string_of(&out)
    } else {
        hex_bytes(data)
    }
}

// ── Characters ──────────────────────────────────────────────────────────────

/// The lower-case hex digits of `n`, without leading zeros.
pub open spec fn hex_digits(n: nat) -> Seq<char>
    decreases n,
{
    if n < 16 {
        seq![hex_digit(n as int, false)]
    } else {
        hex_digits(n / 16).push(hex_digit((n % 16) as int, false))
    }
}

fn push_hex_digits(out: &mut Vec<char>, n: u32)
    ensures
        final(out)@ == old(out)@ + hex_digits(n as nat),
    decreases n,
{
    if n >= 16 {
        push_hex_digits(out, n / 16);
    }
    out.push(hex_digit_exec((n % 16) as u8, false));
    proof {
        if n < 16 {
            assert(n % 16 == n);
        }
    }
}

/// Whether ST 2001-1 §8.2.4 escapes a character: C0 controls but tab, line
/// feed and carriage return, and C1 controls (DEL included).
pub open spec fn escaped(c: char) -> bool {
    let n = c as u32;
    (n < 0x20 && n != 0x09 && n != 0x0A && n != 0x0D) || (0x7F <= n <= 0x9F) || n == 0
}

/// ST 2001-1 §8.2.4 escape: each escaped character becomes `$#x` and its
/// code in lower-case hex without leading zeros, then `;`.
pub open spec fn escape_text(s: Seq<char>) -> Seq<char>
    decreases s.len(),
{
    if s.len() == 0 {
        Seq::empty()
    } else {
        escape_text(s.drop_last()) + (if escaped(s.last()) {
            "$#x"@ + hex_digits(s.last() as u32 as nat) + ";"@
        } else {
            seq![s.last()]
        })
    }
}

/// Apply the ST 2001-1 §8.2.4 escape to `s`.
pub fn st2001_escape(s: &Vec<char>) -> (r: String)
    ensures
        r@ == escape_text(s@),
{
    let mut out: Vec<char> = Vec::new();
    let mut i: usize = 0;
    while i < s.len()
        invariant
            i <= s@.len(),
            out@ == escape_text(s@.take(i as int)),
        decreases s.len() - i,
    {
        let ch = s[i];
        let c = ch as u32;
        let ghost before = out@;
        if (c < 0x20 && c != 0x09 && c != 0x0A && c != 0x0D) || (0x7F <= c && c <= 0x9F) || c == 0 {
            push_lit(&mut out, "$#x");
            push_hex_digits(&mut out, c);
            push_lit(&mut out, ";");
        } else {
            out.push(ch);
        }
        i = i + 1;
        proof {
            assert(s@.take(i as int).drop_last() =~= s@.take(i - 1));
            assert(out@ =~= escape_text(s@.take(i as int)));
        }
    }
    proof {
        assert(s@.take(i as int) =~= s@);
    }
    string_of(&out)
}

/// `s` without its trailing NUL characters.
pub open spec fn trim_nul(s: Seq<char>) -> Seq<char>
    decreases s.len(),
{
    if s.len() > 0 && s.last() == '\0' {
        trim_nul(s.drop_last())
    } else {
        s
    }
}

fn trim_nul_end(s: &mut Vec<char>)
    ensures
        final(s)@ == trim_nul(old(s)@),
{
    while s.len() > 0 && s[s.len() - 1] == '\0'
        invariant
            trim_nul(s@) == trim_nul(old(s)@),
        decreases s.len(),
    {
        proof {
            assert(s@.drop_last() =~= s@.subrange(0, s@.len() - 1));
        }
        s.pop();
    }
}

/// US-ASCII bytes as characters, `?` for bytes above 0x7F; where `strip_nul`,
/// only the bytes before the first NUL.
pub open spec fn ascii_chars(data: Seq<u8>, strip_nul: bool) -> Seq<char>
    decreases data.len(),
{
    if data.len() == 0 {
        Seq::empty()
    } else if strip_nul && data[0] == 0 {
        Seq::empty()
    } else {
        seq![if data[0] < 0x80 {
            data[0] as char
        } else {
            '?'
        }] + ascii_chars(data.drop_first(), strip_nul)
    }
}

/// Read US-ASCII bytes as a string.
pub fn read_characters_ascii(data: &[u8], strip_nul: bool) -> (r: String)
    ensures
        r@ == escape_text(ascii_chars(data@, strip_nul)),
{
    let mut cs: Vec<char> = Vec::new();
    let mut i: usize = 0;
    proof {
        assert(data@.skip(0) =~= data@);
    }
    while i < data.len() && !(strip_nul && data[i] == 0)
        invariant
            i <= data@.len(),
            cs@ + ascii_chars(data@.skip(i as int), strip_nul) == ascii_chars(data@, strip_nul),
        decreases data.len() - i,
    {
        let b = data[i];
        let ch: char = if b < 0x80 {
            b as char
        } else {
            '?'
        };
        proof {
            assert(data@.skip(i as int).drop_first() =~= data@.skip(i + 1));
            assert(cs@.push(ch) + ascii_chars(data@.skip(i + 1), strip_nul) =~= cs@ + ascii_chars(data@.skip(i as int), strip_nul));
        }
        cs.push(ch);
        i = i + 1;
    }
    proof {
        assert(ascii_chars(data@.skip(i as int), strip_nul) =~= Seq::<char>::empty());
        assert(cs@ =~= ascii_chars(data@, strip_nul));
    }
    st2001_escape(&cs)
}

/// UTF-8 bytes as text (empty where they are not UTF-8), trailing NULs
/// removed where `strip_nul`.
pub open spec fn utf8_chars(data: Seq<u8>, strip_nul: bool) -> Seq<char> {
    let s = if vstd::utf8::valid_utf8(data) {
        vstd::utf8::decode_utf8(data)
    } else {
        Seq::empty()
    };
    if strip_nul {
        trim_nul(s)
    } else {
        s
    }
}

/// Read UTF-8 bytes as a string.
pub fn read_characters_utf8(data: &[u8], strip_nul: bool) -> (r: String)
    ensures
        r@ == escape_text(utf8_chars(data@, strip_nul)),
{
    let mut cs: Vec<char> = match utf8_text(data) {
        Ok(t) => crate::text::chars_of(t.as_str()),
        Err(_) => Vec::new(),
    };
    if strip_nul {
        trim_nul_end(&mut cs);
    }
    st2001_escape(&cs)
}

/// What `encoding_rs`'s UTF-16 decoder (big-endian or little-endian; with
/// its byte-order-mark handling and replacement characters) reads from
/// `bytes`, and whether it met malformed input.
pub uninterp spec fn utf16_decoded(bytes: Seq<u8>, big_endian: bool) -> (Seq<char>, bool);

/// `encoding_rs::UTF_16BE.decode`: the text and whether there were errors,
/// as `utf16_decoded` names them.
#[verifier::external_body]
fn utf16be_decode(data: &[u8]) -> (r: (String, bool))
    ensures
        (r.0@, r.1) == utf16_decoded(data@, true),
{
    let (text, _, had_errors) = encoding_rs::UTF_16BE.decode(data);
    (text.into_owned(), had_errors)
}

/// `encoding_rs::UTF_16LE.decode`: the text and whether there were errors,
/// as `utf16_decoded` names them.
#[verifier::external_body]
fn utf16le_decode(data: &[u8]) -> (r: (String, bool))
    ensures
        (r.0@, r.1) == utf16_decoded(data@, false),
{
    let (text, _, had_errors) = encoding_rs::UTF_16LE.decode(data);
    (text.into_owned(), had_errors)
}

/// UTF-16 text: the bytes in hex where their count is odd or the decoder
/// met malformed input, else the decoded text (trailing NULs removed where
/// `strip_nul`), escaped.
pub open spec fn utf16_text(data: Seq<u8>, big_endian: bool, strip_nul: bool) -> Seq<char> {
    if data.len() % 2 != 0 || utf16_decoded(data, big_endian).1 {
        hex_spaced(data)
    } else {
        let s = utf16_decoded(data, big_endian).0;
        escape_text(if strip_nul {
            trim_nul(s)
        } else {
            s
        })
    }
}

fn read_characters_utf16(data: &[u8], big_endian: bool, strip_nul: bool) -> (r: String)
    ensures
        r@ == utf16_text(data@, big_endian, strip_nul),
{
    if data.len() % 2 != 0 {
        return hex_bytes(data);
    }
    let (text, had_errors) = if big_endian { utf16be_decode(data) } else { utf16le_decode(data) };
    if had_errors {
        return hex_bytes(data);
    }
    let mut cs = crate::text::chars_of(text.as_str());
    if strip_nul {
        trim_nul_end(&mut cs);
    }
    st2001_escape(&cs)
}

/// Read UTF-16BE bytes as a string, optionally stripping NUL terminators.
pub fn read_characters_utf16be(data: &[u8], strip_nul: bool) -> (r: String)
    ensures
        r@ == utf16_text(data@, true, strip_nul),
{
    read_characters_utf16(data, true, strip_nul)
}

/// Read UTF-16LE bytes as a string, optionally stripping NUL terminators.
pub fn read_characters_utf16le(data: &[u8], strip_nul: bool) -> (r: String)
    ensures
        r@ == utf16_text(data@, false, strip_nul),
{
    read_characters_utf16(data, false, strip_nul)
}

// ── ByteOrder ───────────────────────────────────────────────────────────────

/// `BigEndian` for `MM`, `LittleEndian` for `II`, else nothing.
pub open spec fn byte_order_name(data: Seq<u8>) -> Option<Seq<char>> {
    if data.len() < 2 {
        None
    } else if data[0] == 0x4D && data[1] == 0x4D {
        Some("BigEndian"@)
    } else if data[0] == 0x49 && data[1] == 0x49 {
        Some("LittleEndian"@)
    } else {
        None
    }
}

/// Decode a ByteOrder property value (u16 big-endian) to "BigEndian" / "LittleEndian".
pub fn decode_byte_order(data: &[u8]) -> (r: Option<String>)
    ensures
        match byte_order_name(data@) {
            Some(n) => (r matches Some(s) && s@ == n),
            None => r is None,
        },
{
    if data.len() < 2 {
        return None;
    }
    if data[0] == 0x4D && data[1] == 0x4D {
        Some(String::from_str("BigEndian"))
    } else if data[0] == 0x49 && data[1] == 0x49 {
        Some(String::from_str("LittleEndian"))
    } else {
        None
    }
}

// ── Records with a text form ────────────────────────────────────────────────

pub open spec fn be_signed(data: Seq<u8>) -> int {
    twos(be_value(data), data.len())
}

/// `num/den` of a Rational (two big-endian `i32`), or hex when short.
pub open spec fn rational_text(data: Seq<u8>) -> Seq<char> {
    if data.len() < 8 {
        hex_spaced(data)
    } else {
        signed_decimal(be_signed(data.subrange(0, 4))) + seq!['/'] + signed_decimal(be_signed(data.subrange(4, 8)))
    }
}

pub open spec fn pad(v: nat, w: nat) -> Seq<char> {
    zero_pad(decimal(v), w)
}

/// `YYYY-MM-DD` of a DateStruct (year `u16`, month, day), or hex when short.
pub open spec fn date_text(data: Seq<u8>) -> Seq<char> {
    if data.len() < 4 {
        hex_spaced(data)
    } else {
        pad(be_value(data.subrange(0, 2)), 4) + seq!['-'] + pad(data[2] as nat, 2) + seq!['-'] + pad(data[3] as nat, 2)
    }
}

/// `HH:MM:SS.FF` of a TimeStruct, or hex when short.
pub open spec fn time_text(data: Seq<u8>) -> Seq<char> {
    if data.len() < 4 {
        hex_spaced(data)
    } else {
        pad(data[0] as nat, 2) + seq![':'] + pad(data[1] as nat, 2) + seq![':'] + pad(data[2] as nat, 2) + seq!['.']
            + pad(data[3] as nat, 2)
    }
}

/// `YYYY-MM-DDTHH:MM:SS[.mmm]Z` of a TimeStamp, the fraction (in 1/250 s)
/// as milliseconds and left out when zero; or hex when short.
pub open spec fn timestamp_text(data: Seq<u8>) -> Seq<char> {
    if data.len() < 8 {
        hex_spaced(data)
    } else {
        let head = pad(be_value(data.subrange(0, 2)), 4) + seq!['-'] + pad(data[2] as nat, 2) + seq!['-'] + pad(
            data[3] as nat,
            2,
        ) + seq!['T'] + pad(data[4] as nat, 2) + seq![':'] + pad(data[5] as nat, 2) + seq![':'] + pad(data[6] as nat, 2);
        if data[7] == 0 {
            head + seq!['Z']
        } else {
            head + seq!['.'] + pad((data[7] as nat) * 4, 3) + seq!['Z']
        }
    }
}

/// Whether every character of `s` is a decimal digit.
pub open spec fn all_digits(s: Seq<char>) -> bool {
    forall|i: int| 0 <= i < s.len() ==> 48 <= #[trigger] (s[i] as u32) <= 57
}

/// The number that the decimal digits `s` write.
pub open spec fn digits_value(s: Seq<char>) -> nat
    decreases s.len(),
{
    if s.len() == 0 {
        0
    } else {
        digits_value(s.drop_last()) * 10 + ((s.last() as u32) - 48) as nat
    }
}

proof fn lemma_decimal_reads_back(n: nat)
    ensures
        all_digits(decimal(n)),
        digits_value(decimal(n)) == n,
        decimal(n).len() >= 1,
    decreases n,
{
    if n < 10 {
        let s = decimal(n);
        assert(s.drop_last() =~= Seq::<char>::empty());
        assert((((48 + n) as char) as u32) == 48 + n);
        assert(s.last() == ((48 + n) as char));
        assert(digits_value(s) == digits_value(s.drop_last()) * 10 + ((s.last() as u32) - 48) as nat);
    } else {
        lemma_decimal_reads_back(n / 10);
        let s = decimal(n);
        let c = ((48 + n % 10) as char);
        assert(s.drop_last() =~= decimal(n / 10));
        assert((c as u32) == 48 + n % 10);
        assert(all_digits(s)) by {
            assert forall|i: int| 0 <= i < s.len() implies 48 <= #[trigger] (s[i] as u32) <= 57 by {
                if i < s.len() - 1 {
                    assert(s[i] == decimal(n / 10)[i]);
                }
            }
        }
        assert(s.last() == c);
        assert(digits_value(s) == digits_value(s.drop_last()) * 10 + ((s.last() as u32) - 48) as nat);
        assert((n / 10) * 10 + n % 10 == n);
    }
}

proof fn lemma_zeros_read_back(k: nat, s: Seq<char>)
    ensures
        digits_value(Seq::new(k, |i: int| '0') + s) == digits_value(s),
        all_digits(s) ==> all_digits(Seq::new(k, |i: int| '0') + s),
    decreases s.len(), k,
{
    let z = Seq::new(k, |i: int| '0');
    if s.len() > 0 {
        assert((z + s).drop_last() =~= z + s.drop_last());
        lemma_zeros_read_back(k, s.drop_last());
    } else if k > 0 {
        assert((z + s).drop_last() =~= Seq::new((k - 1) as nat, |i: int| '0') + s);
        lemma_zeros_read_back((k - 1) as nat, s);
        assert(('0' as u32) == 48);
    } else {
        assert(z + s =~= s);
    }
    assert(all_digits(s) ==> all_digits(z + s)) by {
        if all_digits(s) {
            assert forall|i: int| 0 <= i < (z + s).len() implies 48 <= #[trigger] ((z + s)[i] as u32) <= 57 by {
                if i < k {
                    assert((z + s)[i] == '0');
                } else {
                    assert((z + s)[i] == s[i - k]);
                }
            }
        }
    }
}

/// `pad(v, w)` is at least `w` decimal digits that read back as `v`.
proof fn lemma_pad_reads_back(v: nat, w: nat)
    ensures
        all_digits(pad(v, w)),
        digits_value(pad(v, w)) == v,
        pad(v, w).len() >= w,
{
    lemma_decimal_reads_back(v);
    let s = decimal(v);
    if s.len() < w {
        lemma_zeros_read_back((w - s.len()) as nat, s);
    }
}

/// Whether `s` is at least `w` decimal digits that read as `v`.
pub open spec fn reads_as(s: Seq<char>, v: nat, w: nat) -> bool {
    all_digits(s) && s.len() >= w && digits_value(s) == v
}

/// Three parts joined by `-`, as a date is written.
pub open spec fn dashed(p: (Seq<char>, Seq<char>, Seq<char>)) -> Seq<char> {
    p.0 + seq!['-'] + p.1 + seq!['-'] + p.2
}

/// Three parts joined by `:`, as a time of day is written.
pub open spec fn colon3(p: (Seq<char>, Seq<char>, Seq<char>)) -> Seq<char> {
    p.0 + seq![':'] + p.1 + seq![':'] + p.2
}

/// A DateStruct of at least 4 bytes is written `year-month-day`: the year
/// (big-endian, bytes 0–1) in at least four digits, the month (byte 2) and
/// the day (byte 3) in at least two, each reading back as its field.
pub proof fn lemma_date_reads_back(data: Seq<u8>)
    requires
        data.len() >= 4,
    ensures
        exists|p: (Seq<char>, Seq<char>, Seq<char>)| #[trigger] dashed(p) == date_text(data)
            && reads_as(p.0, be_value(data.subrange(0, 2)), 4) && reads_as(p.1, data[2] as nat, 2)
            && reads_as(p.2, data[3] as nat, 2),
{
    lemma_pad_reads_back(be_value(data.subrange(0, 2)), 4);
    lemma_pad_reads_back(data[2] as nat, 2);
    lemma_pad_reads_back(data[3] as nat, 2);
    let p = (pad(be_value(data.subrange(0, 2)), 4), pad(data[2] as nat, 2), pad(data[3] as nat, 2));
    assert(dashed(p) == date_text(data));
}

/// A TimeStruct of at least 4 bytes is written `hours:minutes:seconds.frames`
/// (bytes 0 to 3), each in at least two digits that read back as its field.
pub proof fn lemma_time_reads_back(data: Seq<u8>)
    requires
        data.len() >= 4,
    ensures
        exists|p: (Seq<char>, Seq<char>, Seq<char>), f: Seq<char>|
            #![trigger colon3(p), reads_as(f, data[3] as nat, 2)]
            colon3(p) + seq!['.'] + f == time_text(data) && reads_as(p.0, data[0] as nat, 2)
                && reads_as(p.1, data[1] as nat, 2) && reads_as(p.2, data[2] as nat, 2)
                && reads_as(f, data[3] as nat, 2),
{
    lemma_pad_reads_back(data[0] as nat, 2);
    lemma_pad_reads_back(data[1] as nat, 2);
    lemma_pad_reads_back(data[2] as nat, 2);
    lemma_pad_reads_back(data[3] as nat, 2);
    let p = (pad(data[0] as nat, 2), pad(data[1] as nat, 2), pad(data[2] as nat, 2));
    let f = pad(data[3] as nat, 2);
    assert(reads_as(f, data[3] as nat, 2));
    assert(reads_as(p.0, data[0] as nat, 2) && reads_as(p.1, data[1] as nat, 2) && reads_as(p.2, data[2] as nat, 2));
    assert(colon3(p) + seq!['.'] + f == time_text(data));
}

/// A TimeStamp of at least 8 bytes is written `date` `T` `time` then `Z`:
/// the date as a DateStruct's, hours, minutes and seconds (bytes 4 to 6) in
/// at least two digits each, reading back as their fields; and, where the
/// fraction byte (in 1/250 s) is not zero, `.` and at least three digits
/// that read as the milliseconds, four times that byte, before the `Z`.
pub proof fn lemma_timestamp_reads_back(data: Seq<u8>)
    requires
        data.len() >= 8,
    ensures
        exists|d: (Seq<char>, Seq<char>, Seq<char>), c: (Seq<char>, Seq<char>, Seq<char>), ms: Seq<char>|
            #![trigger dashed(d), colon3(c), reads_as(ms, 4 * (data[7] as nat), 3)]
            reads_as(d.0, be_value(data.subrange(0, 2)), 4) && reads_as(d.1, data[2] as nat, 2)
                && reads_as(d.2, data[3] as nat, 2) && reads_as(c.0, data[4] as nat, 2)
                && reads_as(c.1, data[5] as nat, 2) && reads_as(c.2, data[6] as nat, 2)
                && reads_as(ms, 4 * (data[7] as nat), 3)
                && timestamp_text(data) == dashed(d) + seq!['T'] + colon3(c) + (if data[7] == 0 {
                    seq!['Z']
                } else {
                    seq!['.'] + ms + seq!['Z']
                }),
{
    lemma_pad_reads_back(be_value(data.subrange(0, 2)), 4);
    lemma_pad_reads_back(data[2] as nat, 2);
    lemma_pad_reads_back(data[3] as nat, 2);
    lemma_pad_reads_back(data[4] as nat, 2);
    lemma_pad_reads_back(data[5] as nat, 2);
    lemma_pad_reads_back(data[6] as nat, 2);
    lemma_pad_reads_back((data[7] as nat) * 4, 3);
    let d = (pad(be_value(data.subrange(0, 2)), 4), pad(data[2] as nat, 2), pad(data[3] as nat, 2));
    let c = (pad(data[4] as nat, 2), pad(data[5] as nat, 2), pad(data[6] as nat, 2));
    let ms = pad((data[7] as nat) * 4, 3);
    assert(reads_as(ms, 4 * (data[7] as nat), 3));
    assert(timestamp_text(data) == dashed(d) + seq!['T'] + colon3(c) + (if data[7] == 0 {
        seq!['Z']
    } else {
        seq!['.'] + ms + seq!['Z']
    }));
}

/// A TimeStamp's text ends in `Z`; its fraction (in 1/250 s) is written as
/// milliseconds, four times the fraction byte: where the byte is not zero the
/// text ends in `.`, at least three digits that read as that number, and
/// `Z`; where it is zero there is no `.` at all.
pub proof fn lemma_timestamp_millis(data: Seq<u8>)
    requires
        data.len() >= 8,
    ensures
        timestamp_text(data).len() > 0,
        timestamp_text(data).last() == 'Z',
        data[7] == 0 ==> forall|j: int| 0 <= j < timestamp_text(data).len() ==> timestamp_text(data)[j] != '.',
        data[7] != 0 ==> exists|i: int| #![trigger timestamp_text(data)[i]]
            0 <= i && i + 4 < timestamp_text(data).len() && timestamp_text(data)[i] == '.'
                && all_digits(timestamp_text(data).subrange(i + 1, timestamp_text(data).len() - 1))
                && digits_value(timestamp_text(data).subrange(i + 1, timestamp_text(data).len() - 1)) == 4 * data[7],
{
    let y = pad(be_value(data.subrange(0, 2)), 4);
    let mo = pad(data[2] as nat, 2);
    let d = pad(data[3] as nat, 2);
    let h = pad(data[4] as nat, 2);
    let mi = pad(data[5] as nat, 2);
    let se = pad(data[6] as nat, 2);
    lemma_pad_reads_back(be_value(data.subrange(0, 2)), 4);
    lemma_pad_reads_back(data[2] as nat, 2);
    lemma_pad_reads_back(data[3] as nat, 2);
    lemma_pad_reads_back(data[4] as nat, 2);
    lemma_pad_reads_back(data[5] as nat, 2);
    lemma_pad_reads_back(data[6] as nat, 2);
    let head = y + seq!['-'] + mo + seq!['-'] + d + seq!['T'] + h + seq![':'] + mi + seq![':'] + se;
    assert(forall|j: int| 0 <= j < head.len() ==> head[j] != '.') by {
        assert(('.' as u32) == 46);
        assert forall|j: int| 0 <= j < head.len() implies head[j] != '.' by {
            let parts = seq![y, seq!['-'], mo, seq!['-'], d, seq!['T'], h, seq![':'], mi, seq![':'], se];
            if j < y.len() {
                assert(head[j] == y[j]);
                assert(48 <= (y[j] as u32));
            } else if j < y.len() + 1 {
            } else if j < y.len() + 1 + mo.len() {
                assert(head[j] == mo[j - y.len() - 1]);
                assert(48 <= (mo[j - y.len() - 1] as u32));
            } else if j < y.len() + 2 + mo.len() {
            } else if j < y.len() + 2 + mo.len() + d.len() {
                let k = j - (y.len() + 2 + mo.len());
                assert(head[j] == d[k]);
                assert(48 <= (d[k] as u32));
            } else if j < y.len() + 3 + mo.len() + d.len() {
            } else if j < y.len() + 3 + mo.len() + d.len() + h.len() {
                let k = j - (y.len() + 3 + mo.len() + d.len());
                assert(head[j] == h[k]);
                assert(48 <= (h[k] as u32));
            } else if j < y.len() + 4 + mo.len() + d.len() + h.len() {
            } else if j < y.len() + 4 + mo.len() + d.len() + h.len() + mi.len() {
                let k = j - (y.len() + 4 + mo.len() + d.len() + h.len());
                assert(head[j] == mi[k]);
                assert(48 <= (mi[k] as u32));
            } else if j < y.len() + 5 + mo.len() + d.len() + h.len() + mi.len() {
            } else {
                let k = j - (y.len() + 5 + mo.len() + d.len() + h.len() + mi.len());
                assert(head[j] == se[k]);
                assert(48 <= (se[k] as u32));
            }
        }
    }
    let t = timestamp_text(data);
    if data[7] == 0 {
        assert(t == head + seq!['Z']);
        assert forall|j: int| 0 <= j < t.len() implies t[j] != '.' by {
            if j < head.len() {
                assert(t[j] == head[j]);
            }
        }
    } else {
        let m = pad((data[7] as nat) * 4, 3);
        lemma_pad_reads_back((data[7] as nat) * 4, 3);
        assert(t == head + seq!['.'] + m + seq!['Z']);
        let i = head.len() as int;
        assert(t[i] == '.');
        assert(t.subrange(i + 1, t.len() - 1) =~= m);
    }
}

/// The first byte of a big-endian number weighs `256^(n-1)`.
proof fn lemma_be_first(s: Seq<u8>)
    requires
        s.len() > 0,
    ensures
        be_value(s) == (s[0] as nat) * pow256((s.len() - 1) as nat) + be_value(s.skip(1)),
    decreases s.len(),
{
    let a = s[0] as nat;
    if s.len() == 1 {
        assert(s.drop_last() =~= Seq::<u8>::empty());
        assert(s.skip(1) =~= Seq::<u8>::empty());
        assert(be_value(s) == be_value(s.drop_last()) * 256 + s.last() as nat);
        assert(s.last() == s[0]);
        assert(pow256(0) == 1);
        assert(a * pow256(0) == a);
    } else {
        let dl = s.drop_last();
        let tl = s.skip(1);
        lemma_be_first(dl);
        assert(dl.skip(1) =~= tl.drop_last());
        assert(tl.last() == s.last());
        assert(dl[0] == s[0]);
        let p = pow256((s.len() - 2) as nat);
        let q = pow256((s.len() - 1) as nat);
        assert(q == p * 256);
        let b = be_value(dl.skip(1));
        let l = s.last() as nat;
        assert(be_value(dl) == a * p + b);
        assert(be_value(s) == be_value(dl) * 256 + l);
        assert(be_value(tl) == be_value(tl.drop_last()) * 256 + l);
        assert(be_value(tl) == b * 256 + l);
        assert((a * p + b) * 256 + l == a * q + (b * 256 + l)) by (nonlinear_arith)
            requires
                q == p * 256,
        ;
    }
}

/// A big-endian number of `n` bytes is at least half of `256^n` exactly
/// where the top bit of its first byte is set.
proof fn lemma_be_top_bit(s: Seq<u8>)
    requires
        s.len() > 0,
    ensures
        (be_value(s) * 2 >= pow256(s.len())) == (s[0] >= 128),
{
    lemma_be_first(s);
    lemma_be_value_bound(s.skip(1));
    let p = pow256((s.len() - 1) as nat);
    assert(pow256(s.len()) == p * 256);
    let a = s[0] as nat;
    let r = be_value(s.skip(1));
    assert(r < p);
    assert((a * p + r) * 2 >= p * 256 <==> a >= 128) by (nonlinear_arith)
        requires
            r < p,
            0 <= r,
            a < 256,
    ;
}

/// An integer of 1, 2, 4 or 8 bytes is written in decimal. Unsigned, its
/// digits read back as the big-endian value. Signed, it starts with `-`
/// exactly where the top bit of its first byte is set: without it the
/// digits read back as the big-endian value, with it as `256^n` less that
/// value (two's complement).
pub proof fn lemma_integer_reads_back(size: u8, is_signed: bool, data: Seq<u8>)
    requires
        int_fits(size, data.len()),
    ensures
        !is_signed ==> reads_as(integer_text(size, is_signed, data), be_value(data), 1),
        is_signed && data[0] < 128 ==> reads_as(integer_text(size, is_signed, data), be_value(data), 1),
        is_signed && data[0] >= 128 ==> integer_text(size, is_signed, data).len() > 1
            && integer_text(size, is_signed, data)[0] == '-'
            && reads_as(integer_text(size, is_signed, data).drop_first(), (pow256(data.len()) - be_value(data)) as nat, 1),
{
    lemma_be_top_bit(data);
    lemma_be_value_bound(data);
    let v = be_value(data);
    if !is_signed || data[0] < 128 {
        lemma_decimal_reads_back(v);
    } else {
        let m = (pow256(data.len()) - v) as nat;
        lemma_decimal_reads_back(m);
        assert(twos(v, data.len()) == v - pow256(data.len()));
        assert(twos(v, data.len()) < 0);
        let t = integer_text(size, is_signed, data);
        assert(t == seq!['-'] + decimal(m));
        assert(t.drop_first() =~= decimal(m));
    }
}

/// Whether `s` writes the integer `v` in decimal: a `-` exactly where `v` is
/// negative, then digits that read back as its magnitude.
pub open spec fn signed_reads_as(s: Seq<char>, v: int) -> bool {
    if v < 0 {
        s.len() > 1 && s[0] == '-' && reads_as(s.drop_first(), (-v) as nat, 1)
    } else {
        reads_as(s, v as nat, 1)
    }
}

proof fn lemma_signed_decimal_reads_back(v: int)
    ensures
        signed_reads_as(signed_decimal(v), v),
{
    if v < 0 {
        lemma_decimal_reads_back((-v) as nat);
        assert(signed_decimal(v).drop_first() =~= decimal((-v) as nat));
    } else {
        lemma_decimal_reads_back(v as nat);
    }
}

/// A Rational of at least 8 bytes is written `numerator/denominator`: the
/// two big-endian signed 32-bit halves, in that order, each in decimal.
pub proof fn lemma_rational_reads_back(data: Seq<u8>)
    requires
        data.len() >= 8,
    ensures
        exists|n: Seq<char>, d: Seq<char>| #![trigger n + seq!['/'] + d]
            rational_text(data) == n + seq!['/'] + d
                && signed_reads_as(n, be_signed(data.subrange(0, 4)))
                && signed_reads_as(d, be_signed(data.subrange(4, 8)))
                && forall|j: int| 0 <= j < n.len() ==> n[j] != '/',
{
    let v = be_signed(data.subrange(0, 4));
    let n = signed_decimal(v);
    let d = signed_decimal(be_signed(data.subrange(4, 8)));
    lemma_signed_decimal_reads_back(v);
    lemma_signed_decimal_reads_back(be_signed(data.subrange(4, 8)));
    assert(('/' as u32) == 47);
    assert forall|j: int| 0 <= j < n.len() implies n[j] != '/' by {
        if v < 0 && j == 0 {
        } else if v < 0 {
            assert(n[j] == n.drop_first()[j - 1]);
            assert(48 <= (n.drop_first()[j - 1] as u32));
        } else {
            assert(48 <= (n[j] as u32));
        }
    }
    assert(rational_text(data) == n + seq!['/'] + d);
}

/// A VersionType of at least 2 bytes is written `major.minor`, each byte in
/// decimal.
pub proof fn lemma_version_reads_back(data: Seq<u8>)
    requires
        data.len() >= 2,
    ensures
        exists|a: Seq<char>, b: Seq<char>| #![trigger a + seq!['.'] + b]
            version_text(data) == a + seq!['.'] + b && reads_as(a, data[0] as nat, 1)
                && reads_as(b, data[1] as nat, 1),
{
    lemma_decimal_reads_back(data[0] as nat);
    lemma_decimal_reads_back(data[1] as nat);
    let a = decimal(data[0] as nat);
    let b = decimal(data[1] as nat);
    assert(version_text(data) == a + seq!['.'] + b);
}

/// A ByteOrder value is named only for the two marks: `MM` (0x4D4D) is
/// `BigEndian` and `II` (0x4949) is `LittleEndian`.
pub proof fn lemma_byte_order_marks(data: Seq<u8>)
    ensures
        byte_order_name(data) is Some <==> (data.len() >= 2 && data[0] == data[1] && (data[0] == 0x4D || data[0] == 0x49)),
        data.len() >= 2 && data[0] == 0x4D && data[1] == 0x4D ==> byte_order_name(data) == Some("BigEndian"@),
        data.len() >= 2 && data[0] == 0x49 && data[1] == 0x49 ==> byte_order_name(data) == Some("LittleEndian"@),
{
}

/// `major.minor` of a VersionType, or hex when short.
pub open spec fn version_text(data: Seq<u8>) -> Seq<char> {
    if data.len() < 2 {
        hex_spaced(data)
    } else {
        decimal(data[0] as nat) + seq!['.'] + decimal(data[1] as nat)
    }
}

/// The URN of the AUID in the first 16 bytes, or hex when short.
pub open spec fn auid_text(data: Seq<u8>) -> Seq<char> {
    if data.len() < 16 {
        hex_spaced(data)
    } else {
        spec_auid_urn(choose|a: Auid| auid_of_bytes(data.take(16), a))
    }
}

/// The UUID URN of the first 16 bytes, or hex when short.
pub open spec fn uuid_text(data: Seq<u8>) -> Seq<char> {
    if data.len() < 16 {
        hex_spaced(data)
    } else {
        uuid_urn(data)
    }
}

/// The UMID URN of the first 32 bytes, or hex when short.
pub open spec fn package_id_text(data: Seq<u8>) -> Seq<char> {
    if data.len() < 32 {
        hex_spaced(data)
    } else {
        umid_urn(data)
    }
}

pub fn slice_of(data: &[u8], from: usize, to: usize) -> (r: Vec<u8>)
    requires
        from <= to <= data@.len(),
    ensures
        r@ == data@.subrange(from as int, to as int),
{
    let mut v: Vec<u8> = Vec::new();
    let mut i = from;
    while i < to
        invariant
            from <= i <= to <= data@.len(),
            v@ == data@.subrange(from as int, i as int),
        decreases to - i,
    {
        v.push(data[i]);
        i = i + 1;
        proof {
            assert(v@ =~= data@.subrange(from as int, i as int));
        }
    }
    v
}

pub fn rational_value_text(data: &[u8]) -> (r: String)
    ensures
        r@ == rational_text(data@),
{
    if data.len() < 8 {
        return hex_bytes(data);
    }
    let a = slice_of(data, 0, 4);
    let b = slice_of(data, 4, 8);
    let mut out: Vec<char> = Vec::new();
    push_signed_decimal(&mut out, be_i64(a.as_slice()));
    out.push('/');
    push_signed_decimal(&mut out, be_i64(b.as_slice()));
    proof {
        assert(out@ =~= rational_text(data@));
    }
    string_of(&out)
}

fn push_pad(out: &mut Vec<char>, v: u64, w: usize)
    ensures
        final(out)@ == old(out)@ + pad(v as nat, w as nat),
{
    push_zero_padded(out, v, w);
}

pub fn date_value_text(data: &[u8]) -> (r: String)
    ensures
        r@ == date_text(data@),
{
    if data.len() < 4 {
        return hex_bytes(data);
    }
    let y = slice_of(data, 0, 2);
    let mut out: Vec<char> = Vec::new();
    push_pad(&mut out, be_u64(y.as_slice()), 4);
    out.push('-');
    push_pad(&mut out, data[2] as u64, 2);
    out.push('-');
    push_pad(&mut out, data[3] as u64, 2);
    proof {
        assert(out@ =~= date_text(data@));
    }
    string_of(&out)
}

pub fn time_value_text(data: &[u8]) -> (r: String)
    ensures
        r@ == time_text(data@),
{
    if data.len() < 4 {
        return hex_bytes(data);
    }
    let mut out: Vec<char> = Vec::new();
    push_pad(&mut out, data[0] as u64, 2);
    out.push(':');
    push_pad(&mut out, data[1] as u64, 2);
    out.push(':');
    push_pad(&mut out, data[2] as u64, 2);
    out.push('.');
    push_pad(&mut out, data[3] as u64, 2);
    proof {
        assert(out@ =~= time_text(data@));
    }
    string_of(&out)
}

pub fn timestamp_value_text(data: &[u8]) -> (r: String)
    ensures
        r@ == timestamp_text(data@),
{
    if data.len() < 8 {
        return hex_bytes(data);
    }
    let y = slice_of(data, 0, 2);
    let mut out: Vec<char> = Vec::new();
    push_pad(&mut out, be_u64(y.as_slice()), 4);
    out.push('-');
    push_pad(&mut out, data[2] as u64, 2);
    out.push('-');
    push_pad(&mut out, data[3] as u64, 2);
    out.push('T');
    push_pad(&mut out, data[4] as u64, 2);
    out.push(':');
    push_pad(&mut out, data[5] as u64, 2);
    out.push(':');
    push_pad(&mut out, data[6] as u64, 2);
    let ghost head = out@;
    if data[7] == 0 {
        out.push('Z');
    } else {
        out.push('.');
        push_pad(&mut out, (data[7] as u64) * 4, 3);
        out.push('Z');
    }
    proof {
        assert(out@ =~= timestamp_text(data@));
    }
    string_of(&out)
}

pub fn version_value_text(data: &[u8]) -> (r: String)
    ensures
        r@ == version_text(data@),
{
    if data.len() < 2 {
        return hex_bytes(data);
    }
    let mut out: Vec<char> = Vec::new();
    push_decimal(&mut out, data[0] as u64);
    out.push('.');
    push_decimal(&mut out, data[1] as u64);
    proof {
        assert(out@ =~= version_text(data@));
    }
    string_of(&out)
}

pub fn auid_value_text(data: &[u8]) -> (r: String)
    ensures
        r@ == auid_text(data@),
{
    if data.len() < 16 {
        return hex_bytes(data);
    }
    let a = Auid::from_bytes(array16(data));
    proof {
        crate::types::auid::lemma_auid_of_bytes_unique(data@.take(16), a);
    }
    a.to_string()
}

pub fn uuid_value_text(data: &[u8]) -> (r: String)
    ensures
        r@ == uuid_text(data@),
{
    if data.len() < 16 {
        return hex_bytes(data);
    }
    format_uuid_bytes(data)
}

pub fn package_id_value_text(data: &[u8]) -> (r: String)
    ensures
        r@ == package_id_text(data@),
{
    if data.len() < 32 {
        return hex_bytes(data);
    }
    format_umid_bytes(data)
}

// ── Enumerations ────────────────────────────────────────────────────────────

/// The name of the first element with value `v`.
pub open spec fn element_named(es: Seq<(Seq<char>, i64)>, v: int) -> Option<Seq<char>>
    decreases es.len(),
{
    if es.len() == 0 {
        None
    } else if es[0].1 == v {
        Some(es[0].0)
    } else {
        element_named(es.drop_first(), v)
    }
}

/// An enumeration value (1, 2, 4 or 8 big-endian signed bytes) as the name
/// of its element, or its number where no element has it; hex for other sizes.
pub open spec fn enumeration_text(es: Seq<(Seq<char>, i64)>, data: Seq<u8>) -> Seq<char> {
    if data.len() == 1 || data.len() == 2 || data.len() == 4 || data.len() == 8 {
        let v = be_signed(data);
        match element_named(es, v) {
            Some(n) => n,
            None => signed_decimal(v),
        }
    } else {
        hex_spaced(data)
    }
}

pub fn enumeration_value_text(elements: &Vec<EnumerationElement>, data: &[u8]) -> (r: String)
    ensures
        r@ == enumeration_text(enum_elements_view(elements@), data@),
{
    let n = data.len();
    if !(n == 1 || n == 2 || n == 4 || n == 8) {
        return hex_bytes(data);
    }
    let v = be_i64(data);
    let ghost es = enum_elements_view(elements@);
    let mut i: usize = 0;
    proof {
        assert(es.skip(0) =~= es);
    }
    while i < elements.len()
        invariant
            es == enum_elements_view(elements@),
            i <= elements@.len(),
            element_named(es, v as int) == element_named(es.skip(i as int), v as int),
            data@.len() == 1 || data@.len() == 2 || data@.len() == 4 || data@.len() == 8,
            v as int == be_signed(data@),
        decreases elements.len() - i,
    {
        proof {
            assert(es.skip(i as int)[0] == es[i as int]);
            assert(es.skip(i as int).drop_first() =~= es.skip(i + 1));
        }
        if elements[i].value == v {
            return elements[i].name.clone();
        }
        i = i + 1;
    }
    proof {
        assert(es.skip(i as int) =~= Seq::<(Seq<char>, i64)>::empty());
    }
    let mut out: Vec<char> = Vec::new();
    push_signed_decimal(&mut out, v);
    string_of(&out)
}

} // verus!
