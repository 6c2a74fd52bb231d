//! Pieces of serving clip files to a viewer: the byte range that a request
//! asks for, and the path that a request URL names.
use vstd::prelude::*;
use vstd::string::StringSliceAdditionalSpecFns;

use crate::adapters::{lossy_utf8, parse_u64, utf8_lossy};
use crate::filename::number_at;
use crate::schema::all_digits;

verus! {

/// The integer that `s` writes in decimal, with an optional `+`, if it fits in a `u64`.
pub open spec fn decimal_u64(s: Seq<char>) -> Option<int> {
    let digits = if s.len() > 0 && s[0] == '+' {
        s.subrange(1, s.len() as int)
    } else {
        s
    };
    let value = number_at(digits, 0, digits.len());
    if digits.len() > 0 && all_digits(digits) && value <= u64::MAX {
        Some(value)
    } else {
        None
    }
}

/// The position of the first `-` in `s`, or its length where it has none.
pub open spec fn first_dash(s: Seq<char>) -> int
    decreases s.len(),
{
    if s.len() == 0 {
        0
    } else if s[0] == '-' {
        0
    } else {
        1 + first_dash(s.drop_first())
    }
}

/// The inclusive byte range that a `Range` header value asks of a file of
/// `size` bytes: `bytes=START-END`, where a missing or unreadable END, or
/// one past the file, means the last byte.
pub open spec fn byte_range(h: Seq<char>, size: int) -> Option<(int, int)> {
    if h.len() < 6 || h.subrange(0, 6) != "bytes="@ {
        None
    } else {
        let s = h.subrange(6, h.len() as int);
        let d = first_dash(s);
        let last = size - 1;
        match decimal_u64(s.subrange(0, d)) {
            None => None,
            Some(start) => {
                let end = if d < s.len() && d + 1 < s.len() {
                    match decimal_u64(s.subrange(d + 1, s.len() as int)) {
                        Some(e) => if e < last {
                            e
                        } else {
                            last
                        },
                        None => last,
                    }
                } else {
                    last
                };
                if start > end {
                    None
                } else {
                    Some((start, end))
                }
            },
        }
    }
}

proof fn lemma_first_dash(s: Seq<char>, d: int)
    requires
        0 <= d <= s.len(),
        forall|k: int| 0 <= k < d ==> s[k] != '-',
        d == s.len() || s[d] == '-',
    ensures
        first_dash(s) == d,
    decreases s.len(),
{
    if s.len() > 0 && d > 0 {
        lemma_first_dash(s.drop_first(), d - 1);
    }
}

/// The byte range that a `Range` header asks of a file of `file_size`
/// bytes, if the header is one this server answers.
pub fn parse_range(header: &str, file_size: u64) -> (r: Option<(u64, u64)>)
    requires
        file_size > 0,
    ensures
        match r {
            Some((a, b)) => byte_range(header@, file_size as int) == Some((a as int, b as int)),
            None => byte_range(header@, file_size as int) is None,
        },
{
    proof {
        reveal_strlit("bytes=");
    }
    let n = header.unicode_len();
    if n < 6 || header.get_char(0) != 'b' || header.get_char(1) != 'y' || header.get_char(2) != 't'
        || header.get_char(3) != 'e' || header.get_char(4) != 's' || header.get_char(5) != '=' {
        proof {
            if n >= 6 {
                assert(header@.subrange(0, 6)[0] == header@[0]);
                assert(header@.subrange(0, 6)[1] == header@[1]);
                assert(header@.subrange(0, 6)[2] == header@[2]);
                assert(header@.subrange(0, 6)[3] == header@[3]);
                assert(header@.subrange(0, 6)[4] == header@[4]);
                assert(header@.subrange(0, 6)[5] == header@[5]);
            }
        }
        return None;
    }
    assert(header@.subrange(0, 6) =~= "bytes="@);
    let s = header.substring_char(6, n);
    let len = s.unicode_len();
    let mut d: usize = 0;
    while d < len && s.get_char(d) != '-'
        invariant
            d <= len,
            len == s@.len(),
            forall|k: int| 0 <= k < d ==> s@[k] != '-',
        decreases len - d,
    {
        d = d + 1;
    }
    proof {
        lemma_first_dash(s@, d as int);
    }
    let last = file_size - 1;
    let start = match parse_u64(s.substring_char(0, d)) {
        Some(v) => v,
        None => {
            return None;
        },
    };
    let end = if d < len && d + 1 < len {
        match parse_u64(s.substring_char(d + 1, len)) {
            Some(e) => if e < last {
                e
            } else {
                last
            },
            None => last,
        }
    } else {
        last
    };
    if start > end {
        None
    } else {
        Some((start, end))
    }
}

pub open spec fn is_hex_digit(b: u8) -> bool {
    (48 <= b <= 57) || (65 <= b <= 70) || (97 <= b <= 102)
}

pub open spec fn hex_value(b: u8) -> int {
    if 48 <= b <= 57 {
        b - 48
    } else if 65 <= b <= 70 {
        b - 55
    } else {
        b - 87
    }
}

/// Whether `%` followed by `a b` is an escape: two hex digits, or `+` and
/// one hex digit (a sign that the number reader lets through).
pub open spec fn is_escape(a: u8, b: u8) -> bool {
    is_hex_digit(b) && (is_hex_digit(a) || a == 43)
}

pub open spec fn escape_value(a: u8, b: u8) -> u8 {
    if a == 43 {
        hex_value(b) as u8
    } else {
        (hex_value(a) * 16 + hex_value(b)) as u8
    }
}

/// `b` with each escape `%XY` that has a character after it replaced by
/// the byte it stands for.
pub open spec fn unescaped(b: Seq<u8>) -> Seq<u8>
    decreases b.len(),
{
    if b.len() == 0 {
        Seq::empty()
    } else if b[0] == 37 && 2 < b.len() && is_escape(b[1], b[2]) {
        seq![escape_value(b[1], b[2])] + unescaped(b.subrange(3, b.len() as int))
    } else {
        seq![b[0]] + unescaped(b.subrange(1, b.len() as int))
    }
}

fn hex_of(b: u8) -> (r: Option<u8>)
    ensures
        match r {
            Some(v) => is_hex_digit(b) && v as int == hex_value(b),
            None => !is_hex_digit(b),
        },
{
    if 48 <= b && b <= 57 {
        Some(b - 48)
    } else if 65 <= b && b <= 70 {
        Some(b - 55)
    } else if 97 <= b && b <= 102 {
        Some(b - 87)
    } else {
        None
    }
}

/// The text that a percent-encoded URL path stands for: escapes are turned
/// back into bytes, and the bytes are read as UTF-8, invalid sequences
/// replaced.
pub fn percent_decode(s: &str) -> (r: String)
    ensures
        r@ == lossy_utf8(unescaped(s.spec_bytes())),
{
    let bytes = s.as_bytes();
    let ghost b = bytes@;
    let mut out: Vec<u8> = Vec::new();
    let mut i: usize = 0;
    assert(b.subrange(0, b.len() as int) =~= b);
    assert(out@ + unescaped(b) =~= unescaped(b));
    while i < bytes.len()
        invariant
            i <= b.len(),
            b == bytes@,
            out@ + unescaped(b.subrange(i as int, b.len() as int)) == unescaped(b),
        decreases b.len() - i,
    {
        let ghost rest = b.subrange(i as int, b.len() as int);
        if bytes[i] == 37 && bytes.len() - i > 2 {
            let hi = bytes[i + 1];
            let lo = bytes[i + 2];
            let value: Option<u8> = match hex_of(lo) {
                Some(l) => {
                    if hi == 43 {
                        Some(l)
                    } else {
                        match hex_of(hi) {
                            Some(h) => Some(h * 16 + l),
                            None => None,
                        }
                    }
                },
                None => None,
            };
            match value {
                Some(v) => {
                    proof {
                        assert(rest[0] == b[i as int] && rest[1] == b[i + 1] && rest[2] == b[i + 2]);
                        assert(rest.subrange(3, rest.len() as int) =~= b.subrange(i + 3, b.len() as int));
                        assert(v == escape_value(b[i + 1], b[i + 2]));
                    }
                    out.push(v);
                    assert(out@ + unescaped(b.subrange(i + 3, b.len() as int)) =~= unescaped(b));
                    i = i + 3;
                    continue;
                },
                None => {},
            }
        }
        proof {
            assert(rest[0] == b[i as int]);
            if rest.len() > 2 {
                assert(rest[1] == b[i + 1] && rest[2] == b[i + 2]);
            }
            assert(rest.subrange(1, rest.len() as int) =~= b.subrange(i + 1, b.len() as int));
        }
        out.push(bytes[i]);
        assert(out@ + unescaped(b.subrange(i + 1, b.len() as int)) =~= unescaped(b));
        i = i + 1;
    }
    assert(b.subrange(i as int, b.len() as int) =~= Seq::<u8>::empty());
    assert(out@ =~= unescaped(b));
    utf8_lossy(out.as_slice())
}

} // verus!
