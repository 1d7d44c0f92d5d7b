use eth_address::utils::hex_str_to_bytes;
use eth_address::{Address, Error};

// Published EIP-55 reference vectors: the canonical checksummed form of two
// addresses, and their all-lower-case digit text.
const VECTOR_1: &str = "0x5aAeb6053F3E94C9b9A09f33669435E7Ef1BeAed";
const VECTOR_1_LOWER: &str = "0x5aaeb6053f3e94c9b9a09f33669435e7ef1beaed";
const VECTOR_2: &str = "0xfB6916095ca1df60bB79Ce92cE3Ea74c37c5d359";

#[test]
fn from_bytes_accepts_exactly_twenty() {
    let bytes = [0xabu8; 20];
    let addr = Address::from_bytes(&bytes).unwrap();
    assert_eq!(addr.as_bytes(), &bytes);
}

#[test]
fn from_bytes_length_boundary() {
    let short = [0u8; 19];
    let long = [0u8; 21];
    assert_eq!(
        Address::from_bytes(&short).unwrap_err(),
        Error::InvalidAddressLength { got: 19, expected: 20 }
    );
    assert_eq!(
        Address::from_bytes(&long).unwrap_err(),
        Error::InvalidAddressLength { got: 21, expected: 20 }
    );
}

#[test]
fn to_string_round_trip() {
    let bytes: Vec<u8> = (0..20).map(|i| (i * 13) as u8).collect();
    let addr = Address::from_bytes(&bytes).unwrap();
    let text = addr.to_string();
    assert_eq!(text.len(), 40);
    assert_eq!(hex_str_to_bytes(&text).unwrap(), bytes);
}

#[test]
fn checksummed_string_of_zero_address() {
    // every digit of the all-zero address is numeric, so the canonical
    // checksummed form has no letter to upper-case
    let addr = Address::from_bytes(&[0u8; 20]).unwrap();
    let text = addr.to_checksummed_string();
    assert_eq!(text, "0x0000000000000000000000000000000000000000");
    let back = Address::from_checksummed_str(&text).unwrap();
    assert_eq!(back, addr);
}

#[test]
fn checksummed_string_matches_reference_vector() {
    let addr = Address::from_hex_str(VECTOR_1_LOWER).unwrap();
    assert_eq!(addr.to_checksummed_string(), VECTOR_1);
    let addr2 = Address::from_checksummed_str(VECTOR_2).unwrap();
    assert_eq!(addr2.to_checksummed_string(), VECTOR_2);
}

#[test]
fn checksummed_round_trip() {
    let bytes: Vec<u8> = (0..20).map(|i| (0xf0 ^ (i * 7)) as u8).collect();
    let addr = Address::from_bytes(&bytes).unwrap();
    let text = addr.to_checksummed_string();
    assert_eq!(text.len(), 42);
    let back = Address::from_checksummed_str(&text).unwrap();
    assert_eq!(back, addr);
}

#[test]
fn from_hex_str_ignores_casing() {
    let canonical = Address::from_hex_str(VECTOR_1).unwrap();
    let lower = Address::from_hex_str(VECTOR_1_LOWER).unwrap();
    let upper = Address::from_hex_str(&VECTOR_1_LOWER.to_uppercase().replace("0X", "0x")).unwrap();
    assert_eq!(canonical, lower);
    assert_eq!(canonical, upper);
}

#[test]
fn from_checksummed_str_rejects_one_flipped_letter() {
    // digit position 1 of the first vector is canonically a lower-case `a`
    let flipped = VECTOR_1.replacen("0x5aA", "0x5AA", 1);
    assert_ne!(flipped, VECTOR_1);
    assert_eq!(
        Address::from_checksummed_str(&flipped).unwrap_err(),
        Error::InvalidEip55
    );
}

#[test]
fn from_checksummed_str_rejects_all_lower() {
    // strict policy: a text whose canonical form carries upper-case letters
    // is not accepted in all-lower-case form
    assert_eq!(
        Address::from_checksummed_str(VECTOR_1_LOWER).unwrap_err(),
        Error::InvalidEip55
    );
}

#[test]
fn parse_errors_propagate() {
    match Address::from_hex_str("0xzz").unwrap_err() {
        Error::InvalidHex(0) => {}
        _ => panic!(),
    }
    match Address::from_checksummed_str("\u{012345}").unwrap_err() {
        Error::InvalidUtf8(_) => {}
        _ => panic!(),
    }
    assert_eq!(
        Address::from_hex_str("0xdeadbeef").unwrap_err(),
        Error::InvalidAddressLength { got: 4, expected: 20 }
    );
    assert_eq!(
        Address::from_checksummed_str("0xdeadbeef").unwrap_err(),
        Error::InvalidAddressLength { got: 4, expected: 20 }
    );
}

#[test]
fn from_hex_str_accepts_odd_digit_count() {
    // 39 digits still spell 20 bytes: the lone trailing digit is a low nibble
    let text = "0x5aaeb6053f3e94c9b9a09f33669435e7ef1beae";
    let addr = Address::from_hex_str(text).unwrap();
    assert_eq!(addr.as_bytes()[19], 0x0e);
}

#[test]
fn ordering_over_bytes() {
    let a = Address::from_bytes(&[0u8; 20]).unwrap();
    let mut raised = [0u8; 20];
    raised[19] = 1;
    let b = Address::from_bytes(&raised).unwrap();
    assert!(a < b);
    assert!(b > a);
    let c = Address::from_bytes(&[0u8; 20]).unwrap();
    assert!(a <= c && a >= c && a == c);
}

#[test]
fn from_checksummed_str_without_prefix() {
    // the digit portion alone is compared, so the marker may be omitted
    let addr = Address::from_checksummed_str(&VECTOR_1[2..]).unwrap();
    assert_eq!(addr.to_checksummed_string(), VECTOR_1);
}
