use explo_der::der::Tag;
use explo_der::error::{Error, ErrorKind};
use explo_der::time::{interpret_time, month_length, Time};
use explo_der::value::{
    interpret_bmp_string, interpret_boolean, interpret_printable_string, interpret_utf8_string,
};

fn utc(s: &str) -> Result<Time, Error> {
    interpret_time(Tag::UTCTime, s.as_bytes())
}

#[test]
fn utc_time_pivot() {
    assert_eq!(utc("500101000000Z").unwrap().year, 1950);
    assert_eq!(utc("000101000000Z").unwrap().year, 2000);
    assert_eq!(utc("491231235959Z").unwrap().year, 2049);
    assert_eq!(
        utc("991231235959Z").unwrap(),
        Time { year: 1999, month: 12, day: 31, hour: 23, minute: 59, second: 59 }
    );
}

#[test]
fn generalized_time_reads_four_digit_year() {
    let t = interpret_time(Tag::GeneralizedTime, b"20240229123456Z").unwrap();
    assert_eq!(t, Time { year: 2024, month: 2, day: 29, hour: 12, minute: 34, second: 56 });
}

#[test]
fn time_rejects_bad_fields() {
    assert_eq!(utc("500101000000+").unwrap_err(), Error(ErrorKind::UnsupportedTimezone));
    assert_eq!(utc("500101000000").unwrap_err(), Error(ErrorKind::EndOfInput));
    assert_eq!(utc("230230000000Z").unwrap_err(), Error(ErrorKind::DigitOutOfRange));
    assert_eq!(utc("230229000000Z").unwrap_err(), Error(ErrorKind::DigitOutOfRange));
    assert_eq!(utc("241301000000Z").unwrap_err(), Error(ErrorKind::DigitOutOfRange));
    assert_eq!(utc("240101240000Z").unwrap_err(), Error(ErrorKind::DigitOutOfRange));
    assert_eq!(utc("24010100a000Z").unwrap_err(), Error(ErrorKind::InvalidDigit));
    assert_eq!(
        interpret_time(Tag::GeneralizedTime, b"19000229000000Z").unwrap_err(),
        Error(ErrorKind::DigitOutOfRange)
    );
    assert!(interpret_time(Tag::GeneralizedTime, b"20000229000000Z").is_ok());
}

#[test]
fn month_lengths() {
    assert_eq!(month_length(2023, 2), 28);
    assert_eq!(month_length(2024, 2), 29);
    assert_eq!(month_length(1900, 2), 28);
    assert_eq!(month_length(2000, 2), 29);
    assert_eq!(month_length(2023, 4), 30);
    assert_eq!(month_length(2023, 12), 31);
}

#[test]
fn booleans() {
    assert_eq!(interpret_boolean(&[0x00]).unwrap(), false);
    assert_eq!(interpret_boolean(&[0xFF]).unwrap(), false);
    assert_eq!(interpret_boolean(&[0x01]).unwrap_err(), Error(ErrorKind::InvalidBoolean));
    assert_eq!(interpret_boolean(&[]).unwrap_err(), Error(ErrorKind::InvalidBoolean));
    assert_eq!(interpret_boolean(&[0, 0]).unwrap_err(), Error(ErrorKind::InvalidBoolean));
}

#[test]
fn printable_strings() {
    assert_eq!(interpret_printable_string(b"Test CA (1) +-./:=?'").unwrap(), "Test CA (1) +-./:=?'");
    assert_eq!(
        interpret_printable_string(b"a_b").unwrap_err(),
        Error(ErrorKind::InvalidPrintableString)
    );
    assert_eq!(
        interpret_printable_string(b"a@b").unwrap_err(),
        Error(ErrorKind::InvalidPrintableString)
    );
}

#[test]
fn utf8_strings() {
    assert_eq!(interpret_utf8_string("héllo".as_bytes()).unwrap(), "héllo");
    assert_eq!(
        interpret_utf8_string(&[0xC3, 0x28]).unwrap_err(),
        Error(ErrorKind::InvalidUtf8String)
    );
}

#[test]
fn bmp_strings() {
    assert_eq!(interpret_bmp_string(&[0x00, 0x41, 0x00, 0xE9]).unwrap(), "Aé");
    assert_eq!(interpret_bmp_string(&[0xD8, 0x3D, 0xDE, 0x00]).unwrap(), "\u{1F600}");
    assert_eq!(
        interpret_bmp_string(&[0x00, 0x41, 0x00]).unwrap_err(),
        Error(ErrorKind::InvalidBmpString)
    );
    assert_eq!(
        interpret_bmp_string(&[0xD8, 0x3D]).unwrap_err(),
        Error(ErrorKind::InvalidBmpString)
    );
}
