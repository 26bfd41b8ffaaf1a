use explo_der::der::Tag;
use explo_der::error::{Error, ErrorKind};
use explo_der::tree::{decode, decode_records, Value};

#[test]
fn decodes_nested_structure() {
    // SEQUENCE { OID 2.5.4.6, PrintableString "FR", BOOLEAN, SET { INTEGER 5 } }
    let data = [
        0x30, 0x11, 0x06, 0x03, 0x55, 0x04, 0x06, 0x13, 0x02, b'F', b'R', 0x01, 0x01, 0xFF, 0x31,
        0x03, 0x02, 0x01, 0x05,
    ];
    let doc = decode(&data);
    assert!(doc.complete);
    assert!(doc.failure.is_none());
    assert_eq!(doc.nodes.len(), 1);
    let seq = &doc.nodes[0];
    assert_eq!(seq.tag, Tag::Sequence);
    let kids = &seq.children.nodes;
    assert_eq!(kids.len(), 4);
    match &kids[0].value {
        Value::Oid(text, name) => {
            assert_eq!(text, "2.5.4.6");
            assert_eq!(*name, Some("countryName"));
        }
        other => panic!("unexpected {:?}", other),
    }
    match &kids[1].value {
        Value::Text(text) => assert_eq!(text, "FR"),
        other => panic!("unexpected {:?}", other),
    }
    assert!(matches!(kids[2].value, Value::Boolean(false)));
    assert_eq!(kids[3].tag, Tag::SetOf);
    assert_eq!(kids[3].children.nodes[0].tag, Tag::Integer);
    assert_eq!(kids[3].children.nodes[0].content, &[0x05]);
}

#[test]
fn stops_at_first_error_and_keeps_earlier_nodes() {
    let data = [0x05, 0x00, 0x13, 0x01, b'_', 0x05, 0x00];
    let doc = decode(&data);
    assert!(!doc.complete);
    assert_eq!(doc.nodes.len(), 1);
    let failure = doc.failure.unwrap();
    assert_eq!(failure.error, Error(ErrorKind::InvalidPrintableString));
    assert_eq!(failure.remaining, 5);
}

#[test]
fn nested_failure_truncates_parents() {
    let data = [0x30, 0x04, 0x30, 0x02, 0x04, 0x05, 0x05, 0x00];
    let doc = decode(&data);
    assert!(!doc.complete);
    assert!(doc.failure.is_none());
    assert_eq!(doc.nodes.len(), 1);
    let inner = &doc.nodes[0].children.nodes[0];
    let failure = inner.children.failure.unwrap();
    assert_eq!(failure.error, Error(ErrorKind::EndOfInput));
    assert_eq!(failure.remaining, 2);
}

#[test]
fn octet_string_wrapping_records_gets_children() {
    let wrapped = [0x04, 0x03, 0x02, 0x01, 0x07];
    let doc = decode(&wrapped);
    assert!(doc.complete);
    assert_eq!(doc.nodes[0].children.nodes.len(), 1);
    let raw = [0x04, 0x02, 0xAB, 0xCD];
    let doc = decode(&raw);
    assert!(doc.complete);
    assert!(doc.nodes[0].children.nodes.is_empty());
    assert!(matches!(doc.nodes[0].value, Value::Bytes));
}

#[test]
fn nesting_limit_is_an_error() {
    let data = [0x30, 0x02, 0x30, 0x00];
    let doc = decode_records(&data, 1);
    assert!(!doc.complete);
    let inner = &doc.nodes[0].children;
    assert_eq!(inner.failure.unwrap().error, Error(ErrorKind::TooDeep));
    assert!(decode_records(&data, 2).complete);
}

#[test]
fn truncated_buffer_fails_with_end_of_input() {
    let data = [0x30, 0x10, 0x05, 0x00];
    let doc = decode(&data);
    assert_eq!(doc.failure.unwrap().error, Error(ErrorKind::EndOfInput));
    assert_eq!(doc.failure.unwrap().remaining, 4);
    assert!(doc.nodes.is_empty());
}

#[test]
fn times_and_empty_input() {
    let data = [
        0x17, 0x0D, b'5', b'0', b'0', b'1', b'0', b'1', b'0', b'0', b'0', b'0', b'0', b'0', b'Z',
    ];
    let doc = decode(&data);
    match &doc.nodes[0].value {
        Value::Time(t) => assert_eq!(t.year, 1950),
        other => panic!("unexpected {:?}", other),
    }
    let doc = decode(&[]);
    assert!(doc.complete && doc.nodes.is_empty());
}
