//! The 20-byte address value type: length-checked construction from raw
//! bytes, parsing from hexadecimal text with or without EIP-55 checksum
//! validation, and rendering to plain or canonical checksummed text.
//!
//! The EIP-55 checksum upper-cases a letter digit of the lower-case
//! hexadecimal rendering exactly where the matching nibble of the
//! Keccak-256 digest of that rendering is eight or more. Validation here is
//! strict: a checksummed text must match the canonical casing character by
//! character, and an all-lower or all-upper text is accepted only where it
//! coincides with the canonical casing.

use vstd::prelude::*;
use vstd::string::StringSliceAdditionalSpecFns;

use sha3::Digest;

use crate::error::Error;
use crate::utils::{
    all_groups_hex, ascii_to_string, chars_are_ascii, decode_digit_bytes, decode_error,
    first_bad_group, flip_case, hex_ascii, hex_ascii_bytes, hex_decoded, is_hex_letter,
    lemma_decode_ignores_case, lemma_hex_decode_encode, lemma_lower_hex_digit, n_groups,
    same_hex_digit, strip_hex_prefix, upper_ascii,
};

verus! {

/// The 32-byte Keccak-256 digest of a byte sequence, as the outside hash
/// primitive computes it; it depends on the input bytes alone.
pub uninterp spec fn keccak256_of(data: Seq<u8>) -> Seq<u8>;

/// The nibble of the digest that governs digit position `i`: the high
/// nibble of digest byte `i/2` for even positions, the low nibble for odd
/// ones.
pub open spec fn digest_nibble(dg: Seq<u8>, i: int) -> u8 {
    if i % 2 == 0 {
        dg[i / 2] >> 4
    } else {
        dg[i / 2] & 0x0f
    }
}

/// Lower-case hexadecimal digits with the EIP-55 casing applied for the
/// given digest: a letter is upper-cased exactly where its nibble is eight
/// or more; numeric digits stay as they are.
pub open spec fn cased_digits(h: Seq<u8>, dg: Seq<u8>) -> Seq<u8> {
    Seq::new(
        h.len(),
        |i: int|
            if 0x61 <= h[i] <= 0x66 && digest_nibble(dg, i) >= 8 {
                (h[i] - 0x20) as u8
            } else {
                h[i]
            },
    )
}

/// The canonical EIP-55 digit text of an address's bytes: its lower-case
/// hexadecimal digits, cased by the Keccak-256 digest of those digits.
pub open spec fn eip55_ascii(s: Seq<u8>) -> Seq<u8> {
    cased_digits(hex_ascii(s), keccak256_of(hex_ascii(s)))
}

/// Relies on sha3::Keccak256 (the pre-standardization Keccak variant, not
/// SHA3-256): the 32-byte digest is a function of the input bytes alone.
#[verifier::external_body]
fn keccak256(data: &[u8]) -> (r: Vec<u8>)
    ensures
        r@ == keccak256_of(data@),
        r@.len() == 32,
{
    sha3::Keccak256::digest(data).to_vec()
}

/// Applies the EIP-55 casing to lower-case hexadecimal digits with the
/// digest given from outside: a letter digit is upper-cased exactly where
/// the digest's nibble at its position is eight or more.
pub fn eip55_cased_digits(digits: &[u8], digest: &[u8]) -> (r: Vec<u8>)
    requires
        digits@.len() <= 2 * digest@.len(),
    ensures
        r@ == cased_digits(digits@, digest@),
{
    let n = digits.len();
    let mut out: Vec<u8> = Vec::new();
    let mut i: usize = 0;
    while i < n
        invariant
            n == digits@.len(),
            digits@.len() <= 2 * digest@.len(),
            i <= n,
            out@.len() == i,
            forall|k: int| 0 <= k < i ==> out@[k] == cased_digits(digits@, digest@)[k],
        decreases n - i,
    {
        let b = digits[i];
        let nib = if i % 2 == 0 {
            digest[i / 2] >> 4
        } else {
            digest[i / 2] & 0x0f
        };
        proof {
            assert(nib == digest_nibble(digest@, i as int));
        }
        out.push(
            if 0x61 <= b && b <= 0x66 && nib >= 8 {
                b - 0x20
            } else {
                b
            },
        );
        i = i + 1;
    }
    proof {
        assert(out@ =~= cased_digits(digits@, digest@));
    }
    out
}

/// The two byte sequences are equal.
fn bytes_eq(a: &[u8], b: &[u8]) -> (r: bool)
    ensures
        r <==> a@ == b@,
{
    if a.len() != b.len() {
        proof {
            assert(a@ != b@);
        }
        return false;
    }
    let n = a.len();
    let mut i: usize = 0;
    while i < n
        invariant
            n == a@.len() == b@.len(),
            i <= n,
            forall|k: int| 0 <= k < i ==> a@[k] == b@[k],
        decreases n - i,
    {
        if a[i] != b[i] {
            proof {
                assert(a@[i as int] != b@[i as int]);
            }
            return false;
        }
        i = i + 1;
    }
    proof {
        assert(a@ =~= b@);
    }
    true
}

/// A fixed 20-byte identifier, immutable once constructed: construction
/// either yields a value holding exactly twenty bytes or fails, so no
/// partial address exists. Equality is over the raw bytes.
#[derive(Debug)]
pub struct Address {
    bytes: Vec<u8>,
}

impl View for Address {
    type V = Seq<u8>;

    closed spec fn view(&self) -> Seq<u8> {
        self.bytes@
    }
}

impl vstd::std_specs::cmp::PartialEqSpecImpl for Address {
    open spec fn obeys_eq_spec() -> bool {
        true
    }

    open spec fn eq_spec(&self, other: &Address) -> bool {
        self@ == other@
    }
}

impl PartialEq for Address {
    fn eq(&self, other: &Address) -> (r: bool) {
        bytes_eq(self.bytes.as_slice(), other.bytes.as_slice())
    }
}

/// Lexicographic order of two byte sequences: the first differing byte
/// decides, and a proper prefix comes first.
pub open spec fn lex_cmp(a: Seq<u8>, b: Seq<u8>) -> core::cmp::Ordering
    decreases a.len(),
{
    if a.len() == 0 && b.len() == 0 {
        core::cmp::Ordering::Equal
    } else if a.len() == 0 {
        core::cmp::Ordering::Less
    } else if b.len() == 0 {
        core::cmp::Ordering::Greater
    } else if a[0] < b[0] {
        core::cmp::Ordering::Less
    } else if a[0] > b[0] {
        core::cmp::Ordering::Greater
    } else {
        lex_cmp(a.drop_first(), b.drop_first())
    }
}

/// Sequences that agree on their first `i` elements compare as their
/// remainders do.
proof fn lemma_lex_cmp_skip(a: Seq<u8>, b: Seq<u8>, i: int)
    requires
        0 <= i <= a.len(),
        i <= b.len(),
        forall|k: int| 0 <= k < i ==> a[k] == b[k],
    ensures
        lex_cmp(a, b) == lex_cmp(a.skip(i), b.skip(i)),
    decreases i,
{
    if i == 0 {
        assert(a.skip(0) =~= a);
        assert(b.skip(0) =~= b);
    } else {
        assert(a[0] == b[0]);
        lemma_lex_cmp_skip(a.drop_first(), b.drop_first(), i - 1);
        assert(a.drop_first().skip(i - 1) =~= a.skip(i));
        assert(b.drop_first().skip(i - 1) =~= b.skip(i));
    }
}

impl vstd::std_specs::cmp::PartialOrdSpecImpl for Address {
    open spec fn obeys_partial_cmp_spec() -> bool {
        true
    }

    open spec fn partial_cmp_spec(&self, other: &Address) -> Option<core::cmp::Ordering> {
        Some(lex_cmp(self@, other@))
    }
}

impl PartialOrd for Address {
    fn partial_cmp(&self, other: &Address) -> (r: Option<core::cmp::Ordering>) {
        proof {
            use_type_invariant(self);
            use_type_invariant(other);
        }
        let a = self.bytes.as_slice();
        let b = other.bytes.as_slice();
        let mut i: usize = 0;
        while i < 20
            invariant
                a@ == self@ && b@ == other@,
                a@.len() == 20 && b@.len() == 20,
                i <= 20,
                forall|k: int| 0 <= k < i ==> a@[k] == b@[k],
            decreases 20 - i,
        {
            if a[i] < b[i] {
                proof {
                    lemma_lex_cmp_skip(a@, b@, i as int);
                }
                return Some(core::cmp::Ordering::Less);
            }
            if a[i] > b[i] {
                proof {
                    lemma_lex_cmp_skip(a@, b@, i as int);
                }
                return Some(core::cmp::Ordering::Greater);
            }
            i = i + 1;
        }
        proof {
            lemma_lex_cmp_skip(a@, b@, 20);
            assert(a@.skip(20) =~= Seq::<u8>::empty());
            assert(b@.skip(20) =~= Seq::<u8>::empty());
        }
        Some(core::cmp::Ordering::Equal)
    }
}

impl Address {
    #[verifier::type_invariant]
    spec fn wf(self) -> bool {
        self.bytes@.len() == 20
    }

    /// The raw bytes of the address: always exactly twenty, so every
    /// constructed address is whole and no partial instance exists.
    pub fn as_bytes(&self) -> (r: &[u8])
        ensures
            r@ == self@,
            self@.len() == 20,
    {
        proof {
            use_type_invariant(self);
        }
        self.bytes.as_slice()
    }

    /// Accepts exactly twenty raw bytes verbatim; any other count fails
    /// with the length error that reports it.
    pub fn from_bytes(bytes: &[u8]) -> (r: Result<Address, Error>)
        ensures
            bytes@.len() == 20 ==> (r matches Ok(a) && a@ == bytes@),
            bytes@.len() != 20 ==> r == Err::<Address, Error>(
                Error::InvalidAddressLength { got: bytes@.len() as usize, expected: 20 },
            ),
    {
        if bytes.len() == 20 {
            Ok(Address { bytes: vstd::slice::slice_to_vec(bytes) })
        } else {
            Err(Error::InvalidAddressLength { got: bytes.len(), expected: 20 })
        }
    }

    /// Parses hexadecimal text (with an optional `0x` marker) into an
    /// address without any checksum validation: any syntactically valid
    /// text spelling twenty bytes is accepted, whatever its letter casing.
    pub fn from_hex_str(s: &str) -> (r: Result<Address, Error>)
        ensures
            ({
                let d = strip_hex_prefix(s.spec_bytes());
                match r {
                    Ok(a) => all_groups_hex(d) && n_groups(d) == 20 && a@ == hex_decoded(d),
                    Err(e) => {
                        ||| (exists|j: int| #[trigger] first_bad_group(d, j) && e == decode_error(
                            d,
                            j,
                        ))
                        ||| (all_groups_hex(d) && n_groups(d) != 20 && e
                            == Error::InvalidAddressLength { got: n_groups(d) as usize, expected: 20 })
                    },
                }
            }),
    {
        match crate::utils::hex_str_to_bytes(s) {
            Ok(v) => Address::from_bytes(v.as_slice()),
            Err(e) => Err(e),
        }
    }

    /// Parses checksummed hexadecimal text: after decoding to twenty bytes
    /// the canonical EIP-55 rendering of those bytes is recomputed and the
    /// digit portion of the input must match it character by character;
    /// any casing difference fails with the checksum error.
    pub fn from_checksummed_str(s: &str) -> (r: Result<Address, Error>)
        ensures
            ({
                let d = strip_hex_prefix(s.spec_bytes());
                match r {
                    Ok(a) => all_groups_hex(d) && n_groups(d) == 20 && a@ == hex_decoded(d) && d
                        == eip55_ascii(hex_decoded(d)),
                    Err(e) => {
                        ||| (exists|j: int| #[trigger] first_bad_group(d, j) && e == decode_error(
                            d,
                            j,
                        ))
                        ||| (all_groups_hex(d) && n_groups(d) != 20 && e
                            == Error::InvalidAddressLength { got: n_groups(d) as usize, expected: 20 })
                        ||| (all_groups_hex(d) && n_groups(d) == 20 && d != eip55_ascii(
                            hex_decoded(d),
                        ) && e == Error::InvalidEip55)
                    },
                }
            }),
    {
        let b: &[u8] = s.as_bytes();
        let n = b.len();
        let d: &[u8] = if n >= 2 && b[0] == 0x30 && b[1] == 0x78 {
            &b[2..n]
        } else {
            &b[0..n]
        };
        proof {
            assert(d@ =~= strip_hex_prefix(s.spec_bytes()));
        }
        let v = match decode_digit_bytes(d) {
            Ok(v) => v,
            Err(e) => {
                return Err(e);
            },
        };
        if v.len() != 20 {
            return Err(Error::InvalidAddressLength { got: v.len(), expected: 20 });
        }
        let canonical = eip55_digit_bytes(v.as_slice());
        if !bytes_eq(d, canonical.as_slice()) {
            return Err(Error::InvalidEip55);
        }
        Ok(Address { bytes: v })
    }

    /// Renders the address as plain lower-case hexadecimal text: forty
    /// digits, no marker, no checksum casing.
    pub fn to_string(&self) -> (r: String)
        ensures
            chars_are_ascii(r@, hex_ascii(self@)),
            r@.len() == 40,
    {
        proof {
            use_type_invariant(self);
        }
        crate::utils::bytes_to_hex_str(self.bytes.as_slice())
    }

    /// Renders the address in the canonical EIP-55 checksummed form: the
    /// `0x` marker followed by the forty digits with checksum casing.
    pub fn to_checksummed_string(&self) -> (r: String)
        ensures
            chars_are_ascii(r@, seq![0x30u8, 0x78u8] + eip55_ascii(self@)),
            r@.len() == 42,
    {
        proof {
            use_type_invariant(self);
        }
        let cased = eip55_digit_bytes(self.bytes.as_slice());
        let mut full: Vec<u8> = Vec::new();
        full.push(0x30);
        full.push(0x78);
        let n = cased.len();
        let mut i: usize = 0;
        while i < n
            invariant
                n == cased@.len(),
                i <= n,
                full@ =~= seq![0x30u8, 0x78u8] + cased@.subrange(0, i as int),
            decreases n - i,
        {
            let c = cased[i];
            full.push(c);
            proof {
                assert(full@ =~= seq![0x30u8, 0x78u8] + cased@.subrange(0, i + 1 as int));
            }
            i = i + 1;
        }
        proof {
            assert(cased@.subrange(0, n as int) =~= cased@);
            lemma_eip55_digits(self@);
        }
        ascii_to_string(full)
    }
}

/// The canonical EIP-55 digit bytes of twenty address bytes: their
/// lower-case hexadecimal digits, cased by the Keccak-256 digest of those
/// digits.
fn eip55_digit_bytes(bytes: &[u8]) -> (r: Vec<u8>)
    requires
        bytes@.len() == 20,
    ensures
        r@ == eip55_ascii(bytes@),
{
    let h = hex_ascii_bytes(bytes);
    let digest = keccak256(h.as_slice());
    eip55_cased_digits(h.as_slice(), digest.as_slice())
}

/// The canonical EIP-55 digit text of twenty bytes is made of hexadecimal
/// digits that agree in value with the plain lower-case digits, and every
/// one of them is ASCII.
pub proof fn lemma_eip55_digits(s: Seq<u8>)
    requires
        s.len() == 20,
    ensures
        eip55_ascii(s).len() == 40,
        forall|i: int|
            0 <= i < 40 ==> #[trigger] same_hex_digit(hex_ascii(s)[i], eip55_ascii(s)[i]),
        forall|i: int| 0 <= i < 40 ==> #[trigger] eip55_ascii(s)[i] < 0x80,
{
    let h = hex_ascii(s);
    let c = eip55_ascii(s);
    assert forall|i: int| 0 <= i < 40 implies same_hex_digit(h[i], c[i]) && c[i] < 0x80 by {
        let x = s[i / 2];
        assert(x >> 4 < 16 && x & 0x0f < 16) by (bit_vector);
        lemma_lower_hex_digit(x >> 4);
        lemma_lower_hex_digit(x & 0x0f);
    }
}

/// Law: for any twenty bytes, the canonical checksummed text decodes back
/// to the same bytes and passes the checksum comparison, so parsing the
/// rendering of an address restores it without error.
pub proof fn lemma_checksummed_round_trip(s: Seq<u8>)
    requires
        s.len() == 20,
    ensures
        ({
            let t = seq![0x30u8, 0x78u8] + eip55_ascii(s);
            let d = strip_hex_prefix(t);
            &&& d == eip55_ascii(s)
            &&& all_groups_hex(d)
            &&& n_groups(d) == 20
            &&& hex_decoded(d) == s
            &&& eip55_ascii(hex_decoded(d)) == d
        }),
{
    let t = seq![0x30u8, 0x78u8] + eip55_ascii(s);
    lemma_eip55_digits(s);
    assert(strip_hex_prefix(t) =~= eip55_ascii(s));
    lemma_hex_decode_encode(s);
    lemma_decode_ignores_case(hex_ascii(s), eip55_ascii(s));
}

/// Law: non-checksummed parsing accepts the canonical checksummed digits,
/// their fully lower-case form and their fully upper-case form alike, and
/// all three decode to the same twenty bytes.
pub proof fn lemma_parse_any_casing(s: Seq<u8>)
    requires
        s.len() == 20,
    ensures
        all_groups_hex(hex_ascii(s)) && n_groups(hex_ascii(s)) == 20 && hex_decoded(hex_ascii(s))
            == s,
        all_groups_hex(eip55_ascii(s)) && n_groups(eip55_ascii(s)) == 20 && hex_decoded(
            eip55_ascii(s),
        ) == s,
        all_groups_hex(upper_ascii(hex_ascii(s))) && n_groups(upper_ascii(hex_ascii(s))) == 20
            && hex_decoded(upper_ascii(hex_ascii(s))) == s,
{
    lemma_hex_decode_encode(s);
    lemma_eip55_digits(s);
    lemma_decode_ignores_case(hex_ascii(s), eip55_ascii(s));
    let h = hex_ascii(s);
    let u = upper_ascii(h);
    assert forall|i: int| 0 <= i < h.len() implies #[trigger] same_hex_digit(h[i], u[i]) by {
        let x = s[i / 2];
        assert(x >> 4 < 16 && x & 0x0f < 16) by (bit_vector);
        lemma_lower_hex_digit(x >> 4);
        lemma_lower_hex_digit(x & 0x0f);
    }
    lemma_decode_ignores_case(h, u);
}

/// Law: flipping the case of exactly one letter digit of the canonical
/// checksummed digits yields a text that still decodes to the same twenty
/// bytes but no longer matches the canonical casing, so checksummed
/// parsing rejects it.
pub proof fn lemma_case_flip_detected(s: Seq<u8>, j: int)
    requires
        s.len() == 20,
        0 <= j < 40,
    ensures
        ({
            let c = eip55_ascii(s);
            is_hex_letter(c[j]) ==> {
                let d = c.update(j, flip_case(c[j]));
                &&& all_groups_hex(d)
                &&& n_groups(d) == 20
                &&& hex_decoded(d) == s
                &&& d != c
            }
        }),
{
    let c = eip55_ascii(s);
    lemma_eip55_digits(s);
    lemma_parse_any_casing(s);
    if is_hex_letter(c[j]) {
        let d = c.update(j, flip_case(c[j]));
        assert(d[j] != c[j]);
        assert forall|i: int| 0 <= i < c.len() implies #[trigger] same_hex_digit(c[i], d[i]) by {
            assert(same_hex_digit(hex_ascii(s)[i], c[i]));
        }
        lemma_decode_ignores_case(c, d);
    }
}

} // verus!
