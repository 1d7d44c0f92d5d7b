use eth_address::utils::{bytes_to_hex_str, hex_str_to_bytes};
use eth_address::Error;

#[test]
fn decode_bytes() {
    assert_eq!(
        hex_str_to_bytes("deadbeef").expect("Unable to decode"),
        [222, 173, 190, 239]
    );
}

#[test]
fn decode_odd_amount_of_bytes() {
    assert_eq!(hex_str_to_bytes("f").unwrap(), vec![15]);
}

#[test]
fn bytes_raises_decode_error() {
    let e = hex_str_to_bytes("\u{012345}deadbeef").unwrap_err();

    match e {
        Error::InvalidUtf8(_) => {}
        _ => panic!(),
    };
}

#[test]
fn bytes_raises_parse_error() {
    let e = hex_str_to_bytes("Lorem ipsum").unwrap_err();
    match e {
        Error::InvalidHex(_) => {}
        _ => panic!(),
    }
}

#[test]
fn parse_prefixed_empty() {
    assert_eq!(hex_str_to_bytes("0x").unwrap(), Vec::<u8>::new());
}

#[test]
fn parse_prefixed_non_empty() {
    assert_eq!(
        hex_str_to_bytes("0xdeadbeef").unwrap(),
        vec![0xde, 0xad, 0xbe, 0xef]
    );
}

#[test]
fn encode_bytes() {
    assert_eq!(bytes_to_hex_str(&[0xf]), "0f".to_owned());
    assert_eq!(bytes_to_hex_str(&[0xff]), "ff".to_owned());
    assert_eq!(
        bytes_to_hex_str(&[0xde, 0xad, 0xbe, 0xef]),
        "deadbeef".to_owned()
    );
}

#[test]
fn decode_accepts_upper_and_mixed_case() {
    assert_eq!(hex_str_to_bytes("DEADBEEF").unwrap(), vec![0xde, 0xad, 0xbe, 0xef]);
    assert_eq!(hex_str_to_bytes("DeAdBeEf").unwrap(), vec![0xde, 0xad, 0xbe, 0xef]);
}

#[test]
fn decode_empty_without_prefix() {
    assert_eq!(hex_str_to_bytes("").unwrap(), Vec::<u8>::new());
}

#[test]
fn decode_reports_offset_of_bad_group() {
    assert_eq!(hex_str_to_bytes("dezd").unwrap_err(), Error::InvalidHex(2));
    assert_eq!(hex_str_to_bytes("0xdezd").unwrap_err(), Error::InvalidHex(2));
}

#[test]
fn decode_strips_only_one_prefix() {
    // the second `0x` is digit text, and `x` is not a hexadecimal digit
    assert_eq!(hex_str_to_bytes("0x0xff").unwrap_err(), Error::InvalidHex(0));
}

#[test]
fn decode_two_byte_chunk_utf8_error() {
    // "é" is one valid two-byte UTF-8 character, so its group fails as hex
    match hex_str_to_bytes("\u{e9}ff").unwrap_err() {
        Error::InvalidHex(0) => {}
        _ => panic!(),
    }
    // a hex digit followed by the lead byte of "é" splits the character
    match hex_str_to_bytes("a\u{e9}ff").unwrap_err() {
        Error::InvalidUtf8(_) => {}
        _ => panic!(),
    }
}

#[test]
fn encode_then_decode_round_trip() {
    let bytes = vec![0x00, 0x01, 0x7f, 0x80, 0xab, 0xcd, 0xef, 0xff];
    let text = bytes_to_hex_str(&bytes);
    assert_eq!(text, "00017f80abcdefff");
    assert_eq!(hex_str_to_bytes(&text).unwrap(), bytes);
}

#[test]
fn error_messages() {
    assert_eq!(Error::InvalidEip55.message(), "Invalid EIP-55 Address encoding");
    assert_eq!(Error::InvalidUtf8(0).message(), "Failed to parse bytes as utf8");
    assert_eq!(Error::InvalidHex(2).message(), "Invalid hex character");
    assert_eq!(
        Error::InvalidAddressLength { got: 4, expected: 20 }.message(),
        "Invalid address length"
    );
}
