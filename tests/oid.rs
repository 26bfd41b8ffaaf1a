use explo_der::error::{Error, ErrorKind};
use explo_der::names::find;
use explo_der::oid::parse_oid;

#[test]
fn stringify_empty_oid() {
    assert!(explo_der::oid::stringify(b"").is_err());
}

#[test]
fn stringify_single_byte_oid() {
    assert_eq!(explo_der::oid::stringify(b"\x2B").unwrap(), "1.3");
}

#[test]
fn stringify_simple_oid() {
    assert_eq!(explo_der::oid::stringify(b"\x2B\x06\x01").unwrap(), "1.3.6.1");
}

#[test]
fn stringify_multibytes_oid() {
    assert_eq!(explo_der::oid::stringify(b"\x2B\x82\x37").unwrap(), "1.3.311");
    assert_eq!(
        explo_der::oid::stringify(b"\x2B\x8F\xFF\xFF\xFF\x7F").unwrap(),
        "1.3.4294967295"
    );
}

#[test]
fn stringify_oid_a_0x80() {
    assert_eq!(explo_der::oid::stringify(b"\x2B\x81\x80\x7F").unwrap(), "1.3.16511");
}

#[test]
fn stringify_oid_with_overflow() {
    // An arc that would overflow 32 bits.
    let oid = b"\x2B\x8F\xFF\xFF\xFF\x80\x01";
    assert!(explo_der::oid::stringify(oid.as_ref()).is_err());
}

#[test]
fn stringify_oid_with_illegal_padding() {
    // A leading 0x80 group only adds a leading zero: not the shortest encoding.
    assert!(explo_der::oid::stringify(b"\x2B\x80\x7F").is_err());
}

#[test]
fn parse_empty_oid() {
    assert!(&parse_oid("").is_err());
}

#[test]
fn parse_root_oid() {
    assert_eq!(&parse_oid("1.3").unwrap(), b"\x2B");
}

#[test]
fn parse_simple_oid() {
    assert_eq!(&parse_oid("1.3.54.23.21").unwrap(), b"\x2B\x36\x17\x15");
}

#[test]
fn parse_largest_node_in_oid() {
    assert_eq!(
        &parse_oid("1.3.4294967295.5").unwrap(),
        b"\x2B\x8F\xFF\xFF\xFF\x7F\x05"
    );
}

#[test]
fn parse_oid_with_node_too_large() {
    assert!(&parse_oid("1.3.42949672956").is_err());
}

#[test]
fn stringify_errors_are_distinguished() {
    assert_eq!(explo_der::oid::stringify(b"").unwrap_err(), Error(ErrorKind::EmptyOid));
    assert_eq!(explo_der::oid::stringify(b"\x2B\x80\x7F").unwrap_err(), Error(ErrorKind::IllegalPadding));
    assert_eq!(
        explo_der::oid::stringify(b"\x2B\x8F\xFF\xFF\xFF\x80\x01").unwrap_err(),
        Error(ErrorKind::ArcTooLarge)
    );
}

#[test]
fn stringify_drops_unterminated_last_arc() {
    assert_eq!(explo_der::oid::stringify(b"\x2B\x06\x81").unwrap(), "1.3.6");
}

#[test]
fn parse_oid_errors_are_distinguished() {
    assert_eq!(parse_oid("").unwrap_err(), Error(ErrorKind::EmptyOid));
    assert_eq!(parse_oid("1").unwrap_err(), Error(ErrorKind::SingleArc));
    assert_eq!(parse_oid("1.x").unwrap_err(), Error(ErrorKind::InvalidNumber));
    assert_eq!(parse_oid("6.1").unwrap_err(), Error(ErrorKind::InvalidFirstArcs));
    assert_eq!(parse_oid("1.40").unwrap_err(), Error(ErrorKind::InvalidFirstArcs));
    assert_eq!(parse_oid("1.3..5").unwrap_err(), Error(ErrorKind::InvalidNumber));
    assert_eq!(parse_oid("1.3.4294967296").unwrap_err(), Error(ErrorKind::InvalidNumber));
}

#[test]
fn parse_oid_uses_shortest_groups() {
    // 16511 is 0x407F: its middle group is zero and must still be written.
    assert_eq!(parse_oid("1.3.16511").unwrap(), vec![0x2B, 0x81, 0x80, 0x7F]);
    assert_eq!(parse_oid("1.3.128").unwrap(), vec![0x2B, 0x81, 0x00]);
    assert_eq!(parse_oid("1.3.0").unwrap(), vec![0x2B, 0x00]);
    assert_eq!(parse_oid("1.3.+7").unwrap(), vec![0x2B, 0x07]);
}

#[test]
fn oid_round_trip() {
    for bytes in [
        vec![0x2Bu8, 0x06, 0x01],
        vec![0x2A, 0x86, 0x48, 0x86, 0xF7, 0x0D, 0x01, 0x01, 0x0B],
        vec![0x2B, 0x81, 0x80, 0x7F],
        vec![0x55, 0x04, 0x06],
    ] {
        let text = explo_der::oid::stringify(&bytes).unwrap();
        assert_eq!(parse_oid(&text).unwrap(), bytes);
    }
}

#[test]
fn find_known_and_unknown_names() {
    assert_eq!(find("1.2.840.113549.1.1.11"), Some("sha256WithRSAEncryption"));
    assert_eq!(find("2.5.4.6"), Some("countryName"));
    assert_eq!(find("1.3.14.3.2.26"), Some("sha1"));
    assert_eq!(find("2.5.4"), None);
    assert_eq!(find(""), None);
}
