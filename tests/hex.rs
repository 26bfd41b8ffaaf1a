use explo_der::hex::{hexlify, unhexlify, FromHexError};

#[test]
fn hexlify_all() {
    assert_eq!(hexlify(b""), "");
    assert_eq!(hexlify(b"\x01\x11\x10\xAA\xA1\xA0\x0A"), "011110aaa1a00a");
}

#[test]
fn unhexlify_valid() {
    assert_eq!(unhexlify("").unwrap(), b"");
    assert_eq!(
        unhexlify("011110aaa1a00a").unwrap(),
        b"\x01\x11\x10\xAA\xA1\xA0\x0A"
    );
}

#[test]
fn unhexlify_invalid() {
    assert_eq!(
        unhexlify("011").unwrap_err(),
        FromHexError::InvalidLength(3)
    );
    assert_eq!(
        unhexlify("01k1").unwrap_err(),
        FromHexError::InvalidHexCharacter(2, b'k')
    );
    assert_eq!(
        unhexlify("010k").unwrap_err(),
        FromHexError::InvalidHexCharacter(3, b'k')
    );
    assert_eq!(
        unhexlify("010A").unwrap_err(),
        FromHexError::InvalidHexCharacter(3, b'A')
    );
}

#[test]
fn hex_round_trip_on_all_byte_values() {
    let bytes: Vec<u8> = (0..=255u8).collect();
    let text = hexlify(&bytes);
    assert_eq!(text.len(), 512);
    assert_eq!(&text[0..6], "000102");
    assert_eq!(&text[506..], "fdfeff");
    assert_eq!(unhexlify(&text).unwrap(), bytes);
}

#[test]
fn hex_text_round_trip() {
    let text = "00ff7f80deadbeef";
    assert_eq!(hexlify(&unhexlify(text).unwrap()), text);
}

#[test]
fn unhexlify_reports_first_bad_character() {
    assert_eq!(
        unhexlify("zz").unwrap_err(),
        FromHexError::InvalidHexCharacter(0, b'z')
    );
    assert_eq!(unhexlify("0").unwrap_err(), FromHexError::InvalidLength(1));
}
