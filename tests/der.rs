use explo_der::der::{read_tag_and_get_value, Reader, Tag};
use explo_der::error::{Error, ErrorKind};

#[test]
fn read_sequence_record() {
    let data = [0x30u8, 0x03, 0x01, 0x02, 0x03];
    let mut reader = Reader::new(&data);
    let (tag, content) = read_tag_and_get_value(&mut reader).unwrap();
    assert_eq!(tag, Tag::Sequence);
    assert_eq!(content, &[0x01, 0x02, 0x03]);
    assert!(reader.at_end());
}

#[test]
fn long_form_length_that_fits_short_form_is_refused() {
    let data = [0x04u8, 0x81, 0x05, 1, 2, 3, 4, 5];
    let mut reader = Reader::new(&data);
    assert_eq!(
        read_tag_and_get_value(&mut reader).unwrap_err(),
        Error(ErrorKind::NonCanonicalLength)
    );
    let data = [0x04u8, 0x82, 0x00, 0xFF];
    let mut reader = Reader::new(&data);
    assert_eq!(
        read_tag_and_get_value(&mut reader).unwrap_err(),
        Error(ErrorKind::NonCanonicalLength)
    );
}

#[test]
fn long_form_lengths_are_read() {
    let mut data = vec![0x04u8, 0x81, 0x80];
    data.extend(std::iter::repeat(7u8).take(128));
    let mut reader = Reader::new(&data);
    let (tag, content) = read_tag_and_get_value(&mut reader).unwrap();
    assert_eq!(tag, Tag::OctetString);
    assert_eq!(content.len(), 128);
    let mut data = vec![0x04u8, 0x82, 0x01, 0x00];
    data.extend(std::iter::repeat(9u8).take(256));
    let mut reader = Reader::new(&data);
    let (_, content) = read_tag_and_get_value(&mut reader).unwrap();
    assert_eq!(content.len(), 256);
    assert!(reader.at_end());
}

#[test]
fn truncated_record_reaches_end_of_input() {
    let data = [0x30u8, 0x05, 0x01, 0x02];
    let mut reader = Reader::new(&data);
    assert_eq!(
        read_tag_and_get_value(&mut reader).unwrap_err(),
        Error(ErrorKind::EndOfInput)
    );
    let data = [0x30u8];
    let mut reader = Reader::new(&data);
    assert_eq!(
        read_tag_and_get_value(&mut reader).unwrap_err(),
        Error(ErrorKind::EndOfInput)
    );
}

#[test]
fn tag_errors() {
    let data = [0x1Fu8, 0x00];
    let mut reader = Reader::new(&data);
    assert_eq!(
        read_tag_and_get_value(&mut reader).unwrap_err(),
        Error(ErrorKind::HighTagNumberForm)
    );
    let data = [0x07u8, 0x00];
    let mut reader = Reader::new(&data);
    assert_eq!(
        read_tag_and_get_value(&mut reader).unwrap_err(),
        Error(ErrorKind::UnsupportedTag)
    );
    let data = [0x02u8, 0x83, 0, 0, 1];
    let mut reader = Reader::new(&data);
    assert_eq!(
        read_tag_and_get_value(&mut reader).unwrap_err(),
        Error(ErrorKind::UnsupportedLength)
    );
}

#[test]
fn tag_bytes_round_trip() {
    for b in 0..=255u8 {
        if let Ok(tag) = Tag::from_byte(b) {
            assert_eq!(tag.to_byte(), b);
        }
    }
    assert_eq!(Tag::from_byte(0x31).unwrap(), Tag::SetOf);
    assert_eq!(Tag::from_byte(0xA3).unwrap(), Tag::ContextSpecificConstructed3);
    assert_eq!(Tag::from_byte(0x60).unwrap(), Tag::ApplicationConstructed0);
    assert_eq!(Tag::from_byte(0x00).unwrap_err(), Error(ErrorKind::UnsupportedTag));
}

#[test]
fn reader_primitives() {
    let data = [1u8, 2, 3, 4];
    let mut reader = Reader::new(&data);
    assert_eq!(reader.len(), 4);
    assert_eq!(reader.peek_at(3), Some(4));
    assert_eq!(reader.peek_at(4), None);
    assert!(reader.peek_eq(1));
    assert!(!reader.peek_eq(2));
    assert_eq!(reader.read_byte().unwrap(), 1);
    assert_eq!(reader.read_bytes(2).unwrap(), &[2, 3]);
    assert_eq!(reader.read_bytes(2).unwrap_err(), Error(ErrorKind::EndOfInput));
    assert_eq!(reader.read_bytes(usize::MAX).unwrap_err(), Error(ErrorKind::EndOfInput));
    assert_eq!(reader.read_bytes_to_end(), &[4]);
    assert!(reader.at_end());
    assert_eq!(reader.read_byte().unwrap_err(), Error(ErrorKind::EndOfInput));
    assert!(!reader.peek_eq(4));
    let mut reader = Reader::new(&data);
    reader.skip_to_end();
    assert_eq!(reader.len(), 0);
}

#[test]
fn scoped_reads() {
    let data = [0x01u8, 0x01, 0x00, 0x05, 0x00];
    let mut reader = Reader::new(&data);
    let (bytes, (tag, _)) = reader
        .read_and_get_bytes_read(|r| read_tag_and_get_value(r))
        .unwrap();
    assert_eq!(tag, Tag::Boolean);
    assert_eq!(bytes, &[0x01, 0x01, 0x00]);
    let all = Reader::read_all(&data, |r| {
        read_tag_and_get_value(r)?;
        read_tag_and_get_value(r)
    });
    assert_eq!(all.unwrap().0, Tag::Null);
    let partial = Reader::read_all(&data, |r| read_tag_and_get_value(r));
    assert_eq!(partial.unwrap_err(), Error(ErrorKind::IncompleteRead));
}

#[test]
fn error_reasons() {
    assert_eq!(Error(ErrorKind::IncompleteRead).reason(), "Incomplete Read");
    assert_eq!(Error(ErrorKind::IllegalPadding).reason(), "Illegal padding");
}
