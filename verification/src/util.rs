//! Fresh identifiers, and keys written in hexadecimal.

use crate::text::chars_of;
use vstd::prelude::*;

verus! {

/// Whether `c` is a hexadecimal digit in lower case.
pub open spec fn lower_hex(c: char) -> bool {
    '0' <= c <= '9' || 'a' <= c <= 'f'
}

/// The shape of a fresh identifier: 36 characters, hyphens at the places
/// 8, 13, 18 and 23, hexadecimal digits in lower case at all others.
pub open spec fn point_shape(s: Seq<char>) -> bool {
    &&& s.len() == 36
    &&& forall|i: int|
        0 <= i < 36 ==> if i == 8 || i == 13 || i == 18 || i == 23 {
            #[trigger] s[i] == '-'
        } else {
            lower_hex(s[i])
        }
}

/// A fresh identifier: `uuid::Uuid::new_v4`, written as its `Display`
/// writes it. The value is random; what is claimed of it is its shape alone,
/// the hyphenated form in lower case.
#[verifier::external_body]
pub fn new_point() -> (r: String)
    ensures
        point_shape(r@),
{
    uuid::Uuid::new_v4().to_string()
}

/// The value of a hexadecimal digit; 0 for any other character.
pub open spec fn hex_value(c: char) -> int {
    if '0' <= c <= '9' {
        c as int - '0' as int
    } else if 'a' <= c <= 'f' {
        c as int - 'a' as int + 10
    } else if 'A' <= c <= 'F' {
        c as int - 'A' as int + 10
    } else {
        0
    }
}

/// The bytes that a hexadecimal string stands for: two digits a byte, the
/// first digit alone where the string has an odd number of them.
pub open spec fn bytes_of_hex(s: Seq<char>) -> Seq<u8> {
    Seq::new(
        ((s.len() + 1) / 2) as nat,
        |i: int|
            {
                let hi = 2 * i - (s.len() % 2);
                if hi < 0 {
                    hex_value(s[0]) as u8
                } else {
                    (hex_value(s[hi]) * 16 + hex_value(s[hi + 1])) as u8
                }
            },
    )
}

/// The hexadecimal digit, in lower case, for a value below 16.
pub open spec fn hex_digit(v: int) -> char {
    if v < 10 {
        (('0' as int + v) as u8) as char
    } else {
        (('a' as int + v - 10) as u8) as char
    }
}

/// Bytes in hexadecimal: two digits in lower case for each.
pub open spec fn hex_of_bytes(b: Seq<u8>) -> Seq<char> {
    Seq::new(
        2 * b.len(),
        |i: int|
            if i % 2 == 0 {
                hex_digit(b[i / 2] as int / 16)
            } else {
                hex_digit(b[i / 2] as int % 16)
            },
    )
}

fn nibble(c: char) -> (v: u8)
    ensures
        v as int == hex_value(c),
        v < 16,
{
    if c >= '0' && c <= '9' {
        (c as u32 - '0' as u32) as u8
    } else if c >= 'a' && c <= 'f' {
        (c as u32 - 'a' as u32 + 10) as u8
    } else if c >= 'A' && c <= 'F' {
        (c as u32 - 'A' as u32 + 10) as u8
    } else {
        0
    }
}

/// Reads bytes from hexadecimal digits. A character that is no digit
/// counts as zero.
pub fn hex2byte_v(hex: &str) -> (r: Vec<u8>)
    ensures
        r@ == bytes_of_hex(hex@),
{
    let chars = chars_of(hex);
    let n = chars.len();
    let mut out: Vec<u8> = Vec::new();
    let mut i: usize = 0;
    if n % 2 == 1 {
        out.push(nibble(chars[0]));
        i = 1;
    }
    while i < n
        invariant
            n == chars.len(),
            chars@ == hex@,
            i <= n,
            i % 2 == n % 2,
            out.len() == (i + 1) / 2,
            forall|j: int| 0 <= j < out.len() ==> out@[j] == bytes_of_hex(hex@)[j],
        decreases n - i,
    {
        let hi = nibble(chars[i]);
        let lo = nibble(chars[i + 1]);
        out.push(hi * 16 + lo);
        i += 2;
    }
    assert(out@ =~= bytes_of_hex(hex@));
    out
}

fn digit_of(v: u8) -> (c: char)
    requires
        v < 16,
    ensures
        c == hex_digit(v as int),
{
    if v < 10 {
        (48u8 + v) as char
    } else {
        (97u8 + (v - 10)) as char
    }
}

/// Writes bytes in hexadecimal.
pub fn byte_v2hex(byte_v: &Vec<u8>) -> (r: String)
    ensures
        r@ == hex_of_bytes(byte_v@),
{
    let mut out = String::new();
    let mut i: usize = 0;
    while i < byte_v.len()
        invariant
            i <= byte_v.len(),
            out@.len() == 2 * i,
            forall|j: int| 0 <= j < 2 * i ==> out@[j] == hex_of_bytes(byte_v@)[j],
        decreases byte_v.len() - i,
    {
        let b = byte_v[i];
        out.push(digit_of(b / 16));
        out.push(digit_of(b % 16));
        i += 1;
    }
    assert(out@ =~= hex_of_bytes(byte_v@));
    out
}

proof fn lemma_hex_digit_value(v: int)
    requires
        0 <= v < 16,
    ensures
        hex_value(hex_digit(v)) == v,
        lower_hex(hex_digit(v)),
{
}

/// Bytes that were written in hexadecimal are read back as they were.
pub proof fn lemma_hex_round_trip(b: Seq<u8>)
    ensures
        bytes_of_hex(hex_of_bytes(b)) == b,
{
    let h = hex_of_bytes(b);
    assert forall|i: int| 0 <= i < b.len() implies bytes_of_hex(h)[i] == b[i] by {
        lemma_hex_digit_value(b[i] as int / 16);
        lemma_hex_digit_value(b[i] as int % 16);
        assert(h[2 * i] == hex_digit(b[i] as int / 16));
        assert(h[2 * i + 1] == hex_digit(b[i] as int % 16));
    }
    assert(bytes_of_hex(h) =~= b);
}

} // verus!
