//! Lossless conversion between byte sequences and hexadecimal text.
//!
//! Decoding tolerates a single leading `0x` marker and an odd number of
//! digits (a trailing lone digit counts as a low nibble); encoding always
//! produces two lower-case digits per byte and no marker.

use vstd::prelude::*;
use vstd::string::StringSliceAdditionalSpecFns;
use vstd::utf8::*;

use crate::error::Error;

verus! {

/// True of the ASCII code of a hexadecimal digit: `0`-`9`, `a`-`f` or `A`-`F`.
pub open spec fn is_hex_digit(b: u8) -> bool {
    (0x30 <= b <= 0x39) || (0x61 <= b <= 0x66) || (0x41 <= b <= 0x46)
}

/// Numeric value of a hexadecimal digit given by its ASCII code.
pub open spec fn hex_digit_value(b: u8) -> u8
    recommends
        is_hex_digit(b),
{
    if 0x30 <= b <= 0x39 {
        (b - 0x30) as u8
    } else if 0x61 <= b <= 0x66 {
        (b - 0x61 + 10) as u8
    } else {
        (b - 0x41 + 10) as u8
    }
}

/// ASCII code of the lower-case hexadecimal digit for a nibble.
pub open spec fn lower_hex_digit(n: u8) -> u8
    recommends
        n < 16,
{
    if n < 10 {
        (0x30 + n) as u8
    } else {
        (0x61 + (n - 10)) as u8
    }
}

/// Number of digit groups the digit bytes split into, left to right: two
/// bytes per group, with a trailing lone byte forming a group of its own.
pub open spec fn n_groups(d: Seq<u8>) -> int {
    (d.len() + 1) as int / 2
}

/// The group of one or two digit bytes that starts at byte offset `2*j`.
pub open spec fn group_at(d: Seq<u8>, j: int) -> Seq<u8> {
    if 2 * j + 2 <= d.len() {
        d.subrange(2 * j, 2 * j + 2)
    } else {
        d.subrange(2 * j, d.len() as int)
    }
}

/// Every byte of group `j` is a hexadecimal digit.
pub open spec fn group_is_hex(d: Seq<u8>, j: int) -> bool {
    is_hex_digit(d[2 * j]) && (2 * j + 1 < d.len() ==> is_hex_digit(d[2 * j + 1]))
}

/// Group `j` is valid UTF-8 text on its own.
pub open spec fn group_is_utf8(d: Seq<u8>, j: int) -> bool {
    valid_utf8(group_at(d, j))
}

/// The byte value that group `j` encodes in base 16; a lone trailing digit
/// counts as a low nibble.
pub open spec fn group_value(d: Seq<u8>, j: int) -> u8
    recommends
        group_is_hex(d, j),
{
    if 2 * j + 1 < d.len() {
        (hex_digit_value(d[2 * j]) * 16 + hex_digit_value(d[2 * j + 1])) as u8
    } else {
        hex_digit_value(d[2 * j])
    }
}

/// Every group of the digit bytes is hexadecimal.
pub open spec fn all_groups_hex(d: Seq<u8>) -> bool {
    forall|j: int| 0 <= j < n_groups(d) ==> group_is_hex(d, j)
}

/// The bytes that the digit bytes encode, group by group, left to right.
pub open spec fn hex_decoded(d: Seq<u8>) -> Seq<u8> {
    Seq::new(n_groups(d) as nat, |j: int| group_value(d, j))
}

/// Group `j` is the leftmost group that is not hexadecimal.
pub open spec fn first_bad_group(d: Seq<u8>, j: int) -> bool {
    &&& 0 <= j < n_groups(d)
    &&& !group_is_hex(d, j)
    &&& forall|k: int| 0 <= k < j ==> group_is_hex(d, k)
}

/// The error that decoding reports for the leftmost bad group: a group that
/// is not text at all and a group that is text but not base-16 are distinct
/// failures, each carrying the group's byte offset.
pub open spec fn decode_error(d: Seq<u8>, j: int) -> Error
    recommends
        first_bad_group(d, j),
{
    if group_is_utf8(d, j) {
        Error::InvalidHex((2 * j) as usize)
    } else {
        Error::InvalidUtf8((2 * j) as usize)
    }
}

/// Digit bytes with a single leading `0x` marker removed.
pub open spec fn strip_hex_prefix(b: Seq<u8>) -> Seq<u8> {
    if b.len() >= 2 && b[0] == 0x30 && b[1] == 0x78 {
        b.subrange(2, b.len() as int)
    } else {
        b
    }
}

/// The lower-case hexadecimal rendering of bytes as ASCII codes: two digits
/// per byte, high nibble first.
pub open spec fn hex_ascii(s: Seq<u8>) -> Seq<u8> {
    Seq::new(
        (2 * s.len()) as nat,
        |i: int|
            if i % 2 == 0 {
                lower_hex_digit(s[i / 2] >> 4)
            } else {
                lower_hex_digit(s[i / 2] & 0x0f)
            },
    )
}

/// The characters of `cs` are exactly the ASCII codes in `b`.
pub open spec fn chars_are_ascii(cs: Seq<char>, b: Seq<u8>) -> bool {
    &&& cs.len() == b.len()
    &&& is_ascii_chars(cs)
    &&& forall|i: int| 0 <= i < cs.len() ==> (#[trigger] cs[i]) as u8 == b[i]
}

/// A sequence of one byte is valid UTF-8 exactly when that byte is ASCII.
proof fn lemma_valid_utf8_one(b: u8)
    ensures
        valid_utf8(seq![b]) <==> b < 0x80,
{
    let s = seq![b];
    assert((b & 0x7f) < 0x80) by (bit_vector);
    if b < 0x80 {
        assert(valid_first_scalar(s));
        assert(pop_first_scalar(s) =~= Seq::<u8>::empty());
        assert(valid_utf8(Seq::<u8>::empty()));
        assert(valid_utf8(s));
    } else {
        assert(!valid_leading_and_continuation_bytes_first_codepoint(s));
        assert(!valid_utf8(s));
    }
}

/// A sequence of two bytes is valid UTF-8 exactly when both are ASCII or
/// they form a two-byte encoding that is neither overlong nor truncated.
proof fn lemma_valid_utf8_two(b0: u8, b1: u8)
    ensures
        valid_utf8(seq![b0, b1]) <==> ((b0 < 0x80 && b1 < 0x80) || (0xc2 <= b0 <= 0xdf && 0x80 <= b1
            <= 0xbf)),
{
    let s = seq![b0, b1];
    if b0 < 0x80 {
        assert((b0 & 0x7f) < 0x80) by (bit_vector);
        assert(valid_first_scalar(s));
        assert(pop_first_scalar(s) =~= seq![b1]);
        lemma_valid_utf8_one(b1);
        assert(valid_utf8(s) <==> b1 < 0x80);
    } else if 0xc0 <= b0 && b0 <= 0xdf {
        if 0x80 <= b1 && b1 <= 0xbf {
            assert(is_leading_byte_width_2(b0) && is_continuation_byte(b1));
            let c = codepoint_width_2(b0, b1);
            assert(c == ((((b0 & 0x1f) as u32) << 6) | ((b1 & 0x3f) as u32)));
            assert(((((((b0 & 0x1f) as u32) << 6) | ((b1 & 0x3f) as u32)) >= 0x80) <==> (b0
                >= 0xc2)) && ((((b0 & 0x1f) as u32) << 6) | ((b1 & 0x3f) as u32)) <= 0x7ff)
                by (bit_vector)
                requires
                    0xc0 <= b0 <= 0xdf,
                    0x80 <= b1 <= 0xbf,
            ;
            if b0 >= 0xc2 {
                assert(valid_first_scalar(s));
                assert(pop_first_scalar(s) =~= Seq::<u8>::empty());
                assert(valid_utf8(Seq::<u8>::empty()));
                assert(valid_utf8(s));
            } else {
                assert(!not_overlong_encoding(c, 2));
                assert(!valid_first_scalar(s));
                assert(!valid_utf8(s));
            }
        } else {
            assert(!valid_leading_and_continuation_bytes_first_codepoint(s));
            assert(!valid_utf8(s));
        }
    } else {
        assert(!valid_leading_and_continuation_bytes_first_codepoint(s));
        assert(!valid_utf8(s));
    }
}

/// The numeric value of one digit byte, or `None` where the byte is not a
/// hexadecimal digit.
fn hex_digit_val(b: u8) -> (r: Option<u8>)
    ensures
        r == (if is_hex_digit(b) {
            Some(hex_digit_value(b))
        } else {
            None::<u8>
        }),
        r is Some ==> r.unwrap() < 16,
{
    if 0x30 <= b && b <= 0x39 {
        Some(b - 0x30)
    } else if 0x61 <= b && b <= 0x66 {
        Some(b - 0x61 + 10)
    } else if 0x41 <= b && b <= 0x46 {
        Some(b - 0x41 + 10)
    } else {
        None
    }
}

/// Decodes digit bytes (with any `0x` marker already removed) to the bytes
/// they spell, or reports the leftmost group that fails.
pub(crate) fn decode_digit_bytes(d: &[u8]) -> (r: Result<Vec<u8>, Error>)
    ensures
        match r {
            Ok(v) => all_groups_hex(d@) && v@ == hex_decoded(d@),
            Err(e) => exists|j: int| #[trigger] first_bad_group(d@, j) && e == decode_error(d@, j),
        },
{
    let n = d.len();
    let mut out: Vec<u8> = Vec::new();
    let mut i: usize = 0;
    while i < n
        invariant
            n == d@.len(),
            i <= n,
            i % 2 == 0 || i == n,
            out@.len() == (i + 1) as int / 2,
            forall|k: int| 0 <= k < out@.len() ==> group_is_hex(d@, k),
            forall|k: int| 0 <= k < out@.len() ==> out@[k] == group_value(d@, k),
        decreases n - i,
    {
        let ghost j = i as int / 2;
        let b0 = d[i];
        if i + 1 < n {
            let b1 = d[i + 1];
            proof {
                assert(group_at(d@, j) =~= seq![b0, b1]);
                lemma_valid_utf8_two(b0, b1);
            }
            match (hex_digit_val(b0), hex_digit_val(b1)) {
                (Some(v0), Some(v1)) => {
                    out.push(16 * v0 + v1);
                },
                _ => {
                    proof {
                        assert(first_bad_group(d@, j));
                    }
                    if (b0 < 0x80 && b1 < 0x80) || (0xc2 <= b0 && b0 <= 0xdf && 0x80 <= b1 && b1
                        <= 0xbf) {
                        return Err(Error::InvalidHex(i));
                    } else {
                        return Err(Error::InvalidUtf8(i));
                    }
                },
            }
        } else {
            proof {
                assert(group_at(d@, j) =~= seq![b0]);
                lemma_valid_utf8_one(b0);
            }
            match hex_digit_val(b0) {
                Some(v0) => {
                    out.push(v0);
                },
                None => {
                    proof {
                        assert(first_bad_group(d@, j));
                    }
                    if b0 < 0x80 {
                        return Err(Error::InvalidHex(i));
                    } else {
                        return Err(Error::InvalidUtf8(i));
                    }
                },
            }
            i = i + 1;
            continue ;
        }
        i = i + 2;
    }
    proof {
        assert(out@.len() == n_groups(d@));
        assert(out@ =~= hex_decoded(d@));
    }
    Ok(out)
}

/// Decodes a hexadecimal text (with an optional leading `0x` marker) back
/// into the stream of bytes it spells.
pub fn hex_str_to_bytes(s: &str) -> (r: Result<Vec<u8>, Error>)
    ensures
        ({
            let d = strip_hex_prefix(s.spec_bytes());
            match r {
                Ok(v) => all_groups_hex(d) && v@ == hex_decoded(d),
                Err(e) => exists|j: int| #[trigger] first_bad_group(d, j) && e == decode_error(
                    d,
                    j,
                ),
            }
        }),
{
    let b: &[u8] = s.as_bytes();
    let n = b.len();
    let d: &[u8] = if n >= 2 && b[0] == 0x30 && b[1] == 0x78 {
        &b[2..n]
    } else {
        &b[0..n]
    };
    proof {
        assert(d@ =~= strip_hex_prefix(s.spec_bytes()));
    }
    decode_digit_bytes(d)
}

/// Relies on alloc::string::String::from_utf8: ASCII bytes are valid UTF-8
/// and decode to the string whose character codes are exactly those bytes.
#[verifier::external_body]
pub(crate) fn ascii_to_string(bytes: Vec<u8>) -> (r: String)
    requires
        forall|i: int| 0 <= i < bytes@.len() ==> bytes@[i] < 0x80,
    ensures
        chars_are_ascii(r@, bytes@),
{
    String::from_utf8(bytes).unwrap()
}

/// The lower-case hexadecimal digits of the bytes, as ASCII codes.
pub(crate) fn hex_ascii_bytes(bytes: &[u8]) -> (r: Vec<u8>)
    ensures
        r@ == hex_ascii(bytes@),
        forall|i: int| 0 <= i < r@.len() ==> r@[i] < 0x80,
{
    let n = bytes.len();
    let mut out: Vec<u8> = Vec::new();
    let mut i: usize = 0;
    while i < n
        invariant
            n == bytes@.len(),
            i <= n,
            out@.len() == 2 * i,
            forall|k: int| 0 <= k < out@.len() ==> out@[k] == hex_ascii(bytes@)[k] && out@[k]
                < 0x80,
        decreases n - i,
    {
        let x = bytes[i];
        let hi = x >> 4;
        let lo = x & 0x0f;
        proof {
            assert(x >> 4 < 16 && x & 0x0f < 16) by (bit_vector);
            lemma_lower_hex_digit(x >> 4);
            lemma_lower_hex_digit(x & 0x0f);
        }
        out.push(if hi < 10 {
            0x30 + hi
        } else {
            0x61 + (hi - 10)
        });
        out.push(if lo < 10 {
            0x30 + lo
        } else {
            0x61 + (lo - 10)
        });
        i = i + 1;
    }
    proof {
        assert(out@ =~= hex_ascii(bytes@));
    }
    out
}

/// Encodes bytes as lower-case hexadecimal text: two digits per byte, high
/// nibble first, no `0x` marker.
pub fn bytes_to_hex_str(bytes: &[u8]) -> (r: String)
    ensures
        chars_are_ascii(r@, hex_ascii(bytes@)),
        r@.len() == 2 * bytes@.len(),
{
    let out = hex_ascii_bytes(bytes);
    ascii_to_string(out)
}

/// The lower-case digit of every nibble is a hexadecimal digit with that
/// value; it is a letter exactly for values ten and above.
pub proof fn lemma_lower_hex_digit(n: u8)
    requires
        n < 16,
    ensures
        is_hex_digit(lower_hex_digit(n)),
        hex_digit_value(lower_hex_digit(n)) == n,
        lower_hex_digit(n) < 0x80,
        (0x61 <= lower_hex_digit(n) <= 0x66) <==> n >= 10,
{
}

/// A string whose characters are given ASCII codes encodes in UTF-8 to
/// exactly those codes.
pub proof fn lemma_ascii_chars_bytes(cs: Seq<char>, b: Seq<u8>)
    requires
        chars_are_ascii(cs, b),
    ensures
        encode_utf8(cs) == b,
{
    is_ascii_chars_encode_utf8(cs);
    assert(encode_utf8(cs) =~= b);
}

/// The hexadecimal rendering of any bytes decodes back to them: every group
/// parses, the values come back unchanged, and the marker stripping never
/// fires on such a text.
pub proof fn lemma_hex_decode_encode(s: Seq<u8>)
    ensures
        strip_hex_prefix(hex_ascii(s)) == hex_ascii(s),
        all_groups_hex(hex_ascii(s)),
        n_groups(hex_ascii(s)) == s.len(),
        hex_decoded(hex_ascii(s)) == s,
{
    let h = hex_ascii(s);
    if h.len() >= 2 {
        let x = s[0];
        assert(x & 0x0f < 16) by (bit_vector);
        lemma_lower_hex_digit(x & 0x0f);
        assert(h[1] != 0x78);
    }
    assert(strip_hex_prefix(h) == h);
    assert forall|j: int| 0 <= j < n_groups(h) implies group_is_hex(h, j) && group_value(h, j)
        == s[j] by {
        let x = s[j];
        assert(x >> 4 < 16 && x & 0x0f < 16 && (x >> 4) * 16 + (x & 0x0f) == x) by (bit_vector);
        lemma_lower_hex_digit(x >> 4);
        lemma_lower_hex_digit(x & 0x0f);
        assert(h[2 * j] == lower_hex_digit(x >> 4));
        assert(h[2 * j + 1] == lower_hex_digit(x & 0x0f));
    }
    assert(hex_decoded(h) =~= s);
}

/// Law: encoding bytes as lower-case hexadecimal text and decoding that text
/// restores the original bytes, for any string whose characters are that
/// rendering.
pub proof fn lemma_hex_round_trip(s: Seq<u8>, cs: Seq<char>)
    requires
        chars_are_ascii(cs, hex_ascii(s)),
    ensures
        strip_hex_prefix(encode_utf8(cs)) == hex_ascii(s),
        all_groups_hex(hex_ascii(s)),
        hex_decoded(hex_ascii(s)) == s,
{
    lemma_ascii_chars_bytes(cs, hex_ascii(s));
    lemma_hex_decode_encode(s);
}

/// True of the ASCII code of a hexadecimal letter digit of either case.
pub open spec fn is_hex_letter(b: u8) -> bool {
    (0x41 <= b <= 0x46) || (0x61 <= b <= 0x66)
}

/// The same hexadecimal letter with its case flipped.
pub open spec fn flip_case(b: u8) -> u8
    recommends
        is_hex_letter(b),
{
    if b >= 0x61 {
        (b - 0x20) as u8
    } else {
        (b + 0x20) as u8
    }
}

/// The ASCII code with a lower-case letter made upper-case.
pub open spec fn ascii_upper(b: u8) -> u8 {
    if 0x61 <= b <= 0x7a {
        (b - 0x20) as u8
    } else {
        b
    }
}

/// The text with every lower-case letter made upper-case.
pub open spec fn upper_ascii(d: Seq<u8>) -> Seq<u8> {
    Seq::new(d.len(), |i: int| ascii_upper(d[i]))
}

/// Both bytes are hexadecimal digits with the same value: equal up to
/// letter casing.
pub open spec fn same_hex_digit(a: u8, b: u8) -> bool {
    is_hex_digit(a) && is_hex_digit(b) && hex_digit_value(a) == hex_digit_value(b)
}

/// Law: decoding does not depend on the letter casing of the digits; two
/// digit texts whose digits agree in value decode to the same bytes.
pub proof fn lemma_decode_ignores_case(d1: Seq<u8>, d2: Seq<u8>)
    requires
        d1.len() == d2.len(),
        forall|i: int| 0 <= i < d1.len() ==> #[trigger] same_hex_digit(d1[i], d2[i]),
    ensures
        all_groups_hex(d1),
        all_groups_hex(d2),
        hex_decoded(d1) == hex_decoded(d2),
{
    assert forall|j: int| 0 <= j < n_groups(d1) implies group_is_hex(d1, j) && group_is_hex(d2, j)
        && group_value(d1, j) == group_value(d2, j) by {
        assert(0 <= 2 * j < d1.len());
        assert(same_hex_digit(d1[2 * j], d2[2 * j]));
        if 2 * j + 1 < d1.len() {
            assert(same_hex_digit(d1[2 * j + 1], d2[2 * j + 1]));
        }
    }
    assert(hex_decoded(d1) =~= hex_decoded(d2));
}

} // verus!
