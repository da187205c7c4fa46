//! Verified hexadecimal decoding of field text, over UTF-8 byte sequences.

use vstd::prelude::*;

verus! {

/// Whether byte `c` is an ASCII hexadecimal digit.
pub open spec fn is_hex_digit(c: u8) -> bool {
    ||| 0x30 <= c <= 0x39
    ||| 0x41 <= c <= 0x46
    ||| 0x61 <= c <= 0x66
}

/// The numeric value of an ASCII hexadecimal digit.
pub open spec fn hex_val(c: u8) -> u8 {
    if 0x30 <= c <= 0x39 {
        (c - 0x30) as u8
    } else if 0x41 <= c <= 0x46 {
        (c - 0x41 + 10) as u8
    } else {
        (c - 0x61 + 10) as u8
    }
}

/// Whether `s` is a well-formed hexadecimal string: an even number of digits.
pub open spec fn is_hex_str(s: Seq<u8>) -> bool {
    &&& s.len() % 2 == 0
    &&& forall|k: int| 0 <= k < s.len() ==> is_hex_digit(#[trigger] s[k])
}

/// The bytes a hexadecimal string denotes, two digits per byte.
pub open spec fn hex_decoded(s: Seq<u8>) -> Seq<u8> {
    Seq::new((s.len() / 2) as nat, |k: int| (hex_val(s[2 * k]) * 16 + hex_val(s[2 * k + 1])) as u8)
}

/// `s` without an optional leading "0x" or "0X".
pub open spec fn strip_0x(s: Seq<u8>) -> Seq<u8> {
    if s.len() >= 2 && s[0] == 0x30 && (s[1] == 0x78 || s[1] == 0x58) {
        s.skip(2)
    } else {
        s
    }
}

/// The numeric value of digit `c`, or nothing if `c` is not a digit.
fn hex_digit(c: u8) -> (r: Option<u8>)
    ensures
        r is Some <==> is_hex_digit(c),
        r matches Some(x) ==> x == hex_val(c),
{
    if 0x30 <= c && c <= 0x39 {
        Some(c - 0x30)
    } else if 0x41 <= c && c <= 0x46 {
        Some(c - 0x41 + 10)
    } else if 0x61 <= c && c <= 0x66 {
        Some(c - 0x61 + 10)
    } else {
        None
    }
}

/// Decode the hexadecimal string `s`, read from position `start` on:
/// the bytes it denotes, or nothing unless every position holds a digit and
/// their number is even.
fn decode_from(s: &Vec<u8>, start: usize) -> (r: Option<Vec<u8>>)
    requires
        start <= s@.len(),
    ensures
        r is Some <==> is_hex_str(s@.skip(start as int)),
        r matches Some(v) ==> v@ == hex_decoded(s@.skip(start as int)),
{
    let ghost t = s@.skip(start as int);
    let len = s.len() - start;
    if len % 2 != 0 {
        proof {
            assert(t.len() % 2 != 0);
        }
        return None;
    }
    let half = len / 2;
    let slen = s.len();
    let mut out: Vec<u8> = Vec::new();
    let mut i: usize = 0;
    while i < half
        invariant
            i <= half,
            slen == s@.len(),
            start + 2 * half <= slen,
            half == t.len() / 2,
            t.len() % 2 == 0,
            t == s@.skip(start as int),
            start + t.len() == s@.len(),
            out@.len() == i,
            forall|k: int| 0 <= k < i ==> out@[k] == hex_decoded(t)[k],
            forall|k: int| 0 <= k < 2 * i ==> is_hex_digit(#[trigger] t[k]),
        decreases half - i,
    {
        let c1 = s[start + 2 * i];
        let c2 = s[start + 2 * i + 1];
        proof {
            assert(t[2 * i as int] == s@[start + 2 * i]);
            assert(t[2 * i as int + 1] == s@[start + 2 * i + 1]);
        }
        let d1 = match hex_digit(c1) {
            Some(d) => d,
            None => {
                proof {
                    assert(!is_hex_digit(t[2 * i as int]));
                }
                return None;
            },
        };
        let d2 = match hex_digit(c2) {
            Some(d) => d,
            None => {
                proof {
                    assert(!is_hex_digit(t[2 * i as int + 1]));
                }
                return None;
            },
        };
        out.push(d1 * 16 + d2);
        proof {
            assert(hex_decoded(t)[i as int] == (hex_val(t[2 * i as int]) * 16 + hex_val(
                t[2 * i as int + 1],
            )) as u8);
        }
        i = i + 1;
    }
    proof {
        assert forall|k: int| 0 <= k < t.len() implies is_hex_digit(#[trigger] t[k]) by {}
        assert(is_hex_str(t));
        assert(out@ =~= hex_decoded(t));
    }
    Some(out)
}

/// Decode a hexadecimal field, allowing an optional "0x" prefix: the bytes it
/// denotes, or nothing unless the rest is an even number of digits.
pub fn decode_hex_field(s: &Vec<u8>) -> (r: Option<Vec<u8>>)
    ensures
        r is Some <==> is_hex_str(strip_0x(s@)),
        r matches Some(v) ==> v@ == hex_decoded(strip_0x(s@)),
{
    if s.len() >= 2 && s[0] == 0x30 && (s[1] == 0x78 || s[1] == 0x58) {
        decode_from(s, 2)
    } else {
        proof {
            assert(s@.skip(0) =~= s@);
        }
        decode_from(s, 0)
    }
}

} // verus!
