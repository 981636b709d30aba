//! Reading numbers and flags from text as `str::parse`, `from_str_radix`,
//! `str::trim` and ASCII case folding do.
use vstd::prelude::*;

use crate::text::{chars_of, string_of_range};

verus! {

/// Unicode White_Space, which `char::is_whitespace` tests.
pub open spec fn is_ws(c: char) -> bool {
    let n = c as u32;
    (9 <= n <= 13) || n == 32 || n == 0x85 || n == 0xA0 || n == 0x1680 || (0x2000 <= n <= 0x200A)
        || n == 0x2028 || n == 0x2029 || n == 0x202F || n == 0x205F || n == 0x3000
}

/// Number of leading white-space characters of `s`.
pub open spec fn lead_ws(s: Seq<char>) -> nat
    decreases s.len(),
{
    if s.len() > 0 && is_ws(s[0]) {
        1 + lead_ws(s.drop_first())
    } else {
        0
    }
}

/// Number of trailing white-space characters of `s`.
pub open spec fn trail_ws(s: Seq<char>) -> nat
    decreases s.len(),
{
    if s.len() > 0 && is_ws(s.last()) {
        1 + trail_ws(s.drop_last())
    } else {
        0
    }
}

/// `s` without leading and trailing white space (`str::trim`).
pub open spec fn trim(s: Seq<char>) -> Seq<char> {
    let a = s.skip(lead_ws(s) as int);
    a.take(a.len() - trail_ws(a))
}

/// `ch` as an ASCII lower-case character (`char::to_ascii_lowercase`).
pub open spec fn ascii_lower(ch: char) -> char {
    if 'A' <= ch <= 'Z' {
        ((ch as u32) + 32) as char
    } else {
        ch
    }
}

pub open spec fn ascii_lower_seq(s: Seq<char>) -> Seq<char> {
    s.map_values(|ch: char| ascii_lower(ch))
}

/// The value of a digit in `radix` (at most 16), or -1.
pub open spec fn digit_of(ch: char, radix: nat) -> int {
    let v: int = if '0' <= ch <= '9' {
        ch as int - 48
    } else if 'a' <= ch <= 'z' {
        ch as int - 87
    } else if 'A' <= ch <= 'Z' {
        ch as int - 55
    } else {
        99
    };
    if v < radix {
        v
    } else {
        -1
    }
}

pub open spec fn all_digits(s: Seq<char>, radix: nat) -> bool {
    forall|i: int| 0 <= i < s.len() ==> digit_of(#[trigger] s[i], radix) >= 0
}

/// The number that the digits of `s` write in `radix`.
pub open spec fn digits_value(s: Seq<char>, radix: nat) -> nat
    decreases s.len(),
{
    if s.len() == 0 {
        0
    } else {
        (digits_value(s.drop_last(), radix) * radix + digit_of(s.last(), radix)) as nat
    }
}

/// `s` read as an unsigned number in `radix` that must not exceed `max`:
/// an optional `+`, then at least one digit (`from_str_radix` on an
/// unsigned type).
pub open spec fn parse_uint(s: Seq<char>, radix: nat, max: nat) -> Option<nat> {
    let body = if s.len() > 0 && s[0] == '+' {
        s.drop_first()
    } else {
        s
    };
    if body.len() > 0 && all_digits(body, radix) && digits_value(body, radix) <= max {
        Some(digits_value(body, radix))
    } else {
        None
    }
}

/// `s` read as a signed decimal number in `[min, max]`: an optional sign,
/// then at least one digit (`str::parse` on a signed type).
pub open spec fn parse_int(s: Seq<char>, min: int, max: int) -> Option<int> {
    if s.len() > 0 && s[0] == '-' {
        let body = s.drop_first();
        if body.len() > 0 && all_digits(body, 10) && -digits_value(body, 10) >= min {
            Some(-digits_value(body, 10))
        } else {
            None
        }
    } else {
        match parse_uint(s, 10, max as nat) {
            Some(v) => Some(v as int),
            None => None,
        }
    }
}

fn digit_exec(ch: char, radix: u32) -> (r: Option<u32>)
    requires
        2 <= radix <= 16,
    ensures
        match r {
            Some(v) => v as int == digit_of(ch, radix as nat) && v < radix,
            None => digit_of(ch, radix as nat) < 0,
        },
{
    let v: u32 = if '0' <= ch && ch <= '9' {
        (ch as u32) - 48
    } else if 'a' <= ch && ch <= 'z' {
        (ch as u32) - 87
    } else if 'A' <= ch && ch <= 'Z' {
        (ch as u32) - 55
    } else {
        99
    };
    if v < radix {
        Some(v)
    } else {
        None
    }
}

proof fn lemma_grow(v: nat, radix: nat, d: int)
    requires
        radix >= 1,
        d >= 0,
    ensures
        v * radix + d >= v,
{
    assert(v * radix >= v) by (nonlinear_arith)
        requires
            radix >= 1,
    ;
}

/// The digits `cs[from..]` in `radix`: `None` unless there is at least one
/// and all are digits; else the value, or `cap` where it is at least `cap`.
fn digits_capped(cs: &Vec<char>, from: usize, radix: u32, cap: u128) -> (r: Option<u128>)
    requires
        from <= cs@.len(),
        2 <= radix <= 16,
        cap <= 0x1_0000_0000_0000_0000,
    ensures
        ({
            let body = cs@.skip(from as int);
            match r {
                Some(v) => body.len() > 0 && all_digits(body, radix as nat) && v == (if digits_value(
                    body,
                    radix as nat,
                ) >= cap {
                    cap as int
                } else {
                    digits_value(body, radix as nat) as int
                }),
                None => !(body.len() > 0 && all_digits(body, radix as nat)),
            }
        }),
{
    let ghost body = cs@.skip(from as int);
    if from >= cs.len() {
        return None;
    }
    let mut acc: u128 = 0;
    let mut i = from;
    while i < cs.len()
        invariant
            from <= i <= cs@.len(),
            body == cs@.skip(from as int),
            2 <= radix <= 16,
            cap <= 0x1_0000_0000_0000_0000,
            all_digits(body.take(i - from), radix as nat),
            acc == (if digits_value(body.take(i - from), radix as nat) >= cap {
                cap as int
            } else {
                digits_value(body.take(i - from), radix as nat) as int
            }),
        decreases cs.len() - i,
    {
        let ghost k = i - from;
        let ghost prev = body.take(k);
        let ghost next = body.take(k + 1);
        proof {
            assert(next.drop_last() =~= prev);
            assert(next.last() == cs@[i as int]);
        }
        match digit_exec(cs[i], radix) {
            Some(d) => {
                proof {
                    lemma_grow(digits_value(prev, radix as nat), radix as nat, d as int);
                    assert(digits_value(next, radix as nat) == digits_value(prev, radix as nat) * radix + d);
                    assert forall|j: int| 0 <= j < next.len() implies digit_of(#[trigger] next[j], radix as nat) >= 0 by {
                        if j < prev.len() {
                            assert(next[j] == prev[j]);
                        }
                    }
                }
                if acc < cap {
                    assert(acc * (radix as u128) <= 0x1_0000_0000_0000_0000 * 16) by (nonlinear_arith)
                        requires
                            acc < 0x1_0000_0000_0000_0000,
                            radix <= 16,
                    ;
                    let nv = acc * (radix as u128) + (d as u128);
                    acc = if nv >= cap {
                        cap
                    } else {
                        nv
                    };
                }
            },
            None => {
                proof {
                    assert(body[k] == cs@[i as int]);
                }
                return None;
            },
        }
        i = i + 1;
    }
    proof {
        assert(body.take(i - from) =~= body);
    }
    Some(acc)
}

/// `s.parse::<u8>()` etc.: an unsigned number no greater than `max`, in `radix`.
pub fn parse_unsigned(s: &str, radix: u32, max: u64) -> (r: Option<u64>)
    requires
        2 <= radix <= 16,
    ensures
        match parse_uint(s@, radix as nat, max as nat) {
            Some(v) => r == Some(v as u64),
            None => r is None,
        },
{
    let cs = chars_of(s);
    let from: usize = if cs.len() > 0 && cs[0] == '+' {
        1
    } else {
        0
    };
    proof {
        if cs@.len() > 0 && cs@[0] == '+' {
            assert(cs@.skip(1) =~= s@.drop_first());
        } else {
            assert(cs@.skip(0) =~= s@);
        }
    }
    let cap: u128 = (max as u128) + 1;
    match digits_capped(&cs, from, radix, cap) {
        Some(v) => {
            if v <= max as u128 {
                Some(v as u64)
            } else {
                None
            }
        },
        None => None,
    }
}

/// `s.parse::<i64>()`.
pub fn parse_i64(s: &str) -> (r: Option<i64>)
    ensures
        match parse_int(s@, i64::MIN as int, i64::MAX as int) {
            Some(v) => r == Some(v as i64),
            None => r is None,
        },
{
    let cs = chars_of(s);
    if cs.len() > 0 && cs[0] == '-' {
        proof {
            assert(cs@.skip(1) =~= s@.drop_first());
        }
        let cap: u128 = 0x8000_0000_0000_0001;
        match digits_capped(&cs, 1, 10, cap) {
            Some(v) => {
                if v <= 0x8000_0000_0000_0000 {
                    if v == 0x8000_0000_0000_0000 {
                        Some(i64::MIN)
                    } else {
                        let m = v as i64;
                        Some(-m)
                    }
                } else {
                    None
                }
            },
            None => None,
        }
    } else {
        match parse_unsigned(s, 10, 0x7fff_ffff_ffff_ffff) {
            Some(v) => Some(v as i64),
            None => None,
        }
    }
}

/// `s.trim()`.
pub fn trim_str(s: &str) -> (r: String)
    ensures
        r@ == trim(s@),
{
    let cs = chars_of(s);
    let mut a: usize = 0;
    proof {
        assert(s@.skip(0) =~= s@);
    }
    while a < cs.len() && is_ws_exec(cs[a])
        invariant
            a <= cs@.len(),
            cs@ == s@,
            lead_ws(s@) == a + lead_ws(s@.skip(a as int)),
        decreases cs.len() - a,
    {
        proof {
            assert(s@.skip(a as int).drop_first() =~= s@.skip(a + 1));
        }
        a = a + 1;
    }
    proof {
        assert(lead_ws(s@.skip(a as int)) == 0);
    }
    let ghost rest = s@.skip(a as int);
    let mut b: usize = cs.len();
    proof {
        assert(rest.take(b - a) =~= rest);
    }
    while b > a && is_ws_exec(cs[b - 1])
        invariant
            a <= b <= cs@.len(),
            cs@ == s@,
            rest == s@.skip(a as int),
            trail_ws(rest) == (cs@.len() - b) + trail_ws(rest.take(b - a)),
        decreases b,
    {
        proof {
            assert(rest.take(b - a).drop_last() =~= rest.take(b - 1 - a));
        }
        b = b - 1;
    }
    proof {
        assert(rest.take(b - a) =~= rest.take(b - a));
        if b > a {
            assert(trail_ws(rest.take(b - a)) == 0);
        } else {
            assert(rest.take(0) =~= Seq::<char>::empty());
        }
        assert(rest.take(cs@.len() - a) =~= rest);
        assert(cs@.subrange(a as int, b as int) =~= rest.take(rest.len() - trail_ws(rest)));
    }
    string_of_range(&cs, a, b)
}

pub fn is_ws_exec(ch: char) -> (r: bool)
    ensures
        r == is_ws(ch),
{
    let n = ch as u32;
    (9 <= n && n <= 13) || n == 32 || n == 0x85 || n == 0xA0 || n == 0x1680 || (0x2000 <= n && n
        <= 0x200A) || n == 0x2028 || n == 0x2029 || n == 0x202F || n == 0x205F || n == 0x3000
}

/// Whether `s` equals `lit` once ASCII upper case is folded (`lit` lower case).
pub fn eq_ascii_lower(s: &str, lit: &str) -> (r: bool)
    ensures
        r == (ascii_lower_seq(s@) == lit@),
{
    let a = chars_of(s);
    let b = chars_of(lit);
    if a.len() != b.len() {
        proof {
            assert(ascii_lower_seq(s@).len() != lit@.len());
        }
        return false;
    }
    let mut i: usize = 0;
    while i < a.len()
        invariant
            a@ == s@,
            b@ == lit@,
            a.len() == b.len(),
            i <= a.len(),
            forall|j: int| 0 <= j < i ==> ascii_lower(a@[j]) == b@[j],
        decreases a.len() - i,
    {
        let c = a[i];
        let lc = if 'A' <= c && c <= 'Z' {
            ((c as u32) + 32) as u8 as char
        } else {
            c
        };
        proof {
            if 'A' <= c && c <= 'Z' {
                assert(((c as u32) + 32) < 256);
            }
        }
        if lc != b[i] {
            proof {
                assert(ascii_lower_seq(s@)[i as int] != lit@[i as int]);
            }
            return false;
        }
        i = i + 1;
    }
    proof {
        assert(ascii_lower_seq(s@) =~= lit@);
    }
    true
}

} // verus!
