use vstd::prelude::*;

use crate::error::{Error, ErrorKind, Result};
use crate::text::push_char;
use vstd::string::StringSliceAdditionalSpecFns;
use vstd::utf8::{encode_utf8, valid_utf8};

verus! {

/// The accepted encodings of a boolean: one byte, `0x00` or `0xFF`, both read as false.
pub open spec fn boolean_of(s: Seq<u8>) -> core::result::Result<bool, ErrorKind> {
    if s.len() == 1 && (s[0] == 0x00 || s[0] == 0xFF) {
        Ok(false)
    } else {
        Err(ErrorKind::InvalidBoolean)
    }
}

/// Reads the content of a Boolean value.
pub fn interpret_boolean(content: &[u8]) -> (r: Result<bool>)
    ensures
        match boolean_of(content@) {
            Ok(b) => r == Ok::<bool, Error>(b),
            Err(k) => r == Err::<bool, Error>(Error(k)),
        },
{
    if content.len() == 1 && (content[0] == 0x00 || content[0] == 0xFF) {
        Ok(false)
    } else {
        Err(Error(ErrorKind::InvalidBoolean))
    }
}

/// A byte of the PrintableString alphabet: letters, digits, space and `'()+,-./:=?`.
pub open spec fn is_printable(c: u8) -> bool {
    (65 <= c <= 90) || (97 <= c <= 122) || (48 <= c <= 57) || c == 32 || c == 39 || c == 40 || c
        == 41 || c == 43 || c == 44 || c == 45 || c == 46 || c == 47 || c == 58 || c == 61 || c
        == 63
}

/// Every byte of `s` is in the PrintableString alphabet.
pub open spec fn all_printable(s: Seq<u8>) -> bool {
    forall|i: int| 0 <= i < s.len() ==> #[trigger] is_printable(s[i])
}

/// The characters that ASCII bytes stand for.
pub open spec fn ascii_text(s: Seq<u8>) -> Seq<char> {
    s.map_values(|b: u8| b as char)
}

fn printable(c: u8) -> (r: bool)
    ensures
        r == is_printable(c),
{
    (65 <= c && c <= 90) || (97 <= c && c <= 122) || (48 <= c && c <= 57) || c == 32 || c == 39
        || c == 40 || c == 41 || c == 43 || c == 44 || c == 45 || c == 46 || c == 47 || c == 58
        || c == 61 || c == 63
}

/// Reads the content of a PrintableString value; the first byte outside the
/// alphabet fails the whole value.
pub fn interpret_printable_string(content: &[u8]) -> (r: Result<String>)
    ensures
        all_printable(content@) ==> r is Ok && r.unwrap()@ == ascii_text(content@),
        !all_printable(content@) ==> r == Err::<String, Error>(Error(ErrorKind::InvalidPrintableString)),
{
    let mut builder = String::new();
    let mut i: usize = 0;
    while i < content.len()
        invariant
            i <= content@.len(),
            forall|j: int| 0 <= j < i ==> #[trigger] is_printable(content@[j]),
            builder@ == ascii_text(content@.subrange(0, i as int)),
        decreases content.len() - i,
    {
        let byte = content[i];
        if !printable(byte) {
            return Err(Error(ErrorKind::InvalidPrintableString));
        }
        push_char(&mut builder, byte as char);
        i = i + 1;
        assert(builder@ =~= ascii_text(content@.subrange(0, i as int)));
    }
    assert(content@.subrange(0, i as int) =~= content@);
    Ok(builder)
}

/// Relies on std's `str::from_utf8`: it accepts exactly the valid UTF-8 byte
/// sequences and gives the text made of those bytes.
#[verifier::external_body]
fn utf8_str(b: &[u8]) -> (r: Option<&str>)
    ensures
        match r {
            Some(s) => valid_utf8(b@) && s.spec_bytes() == b@,
            None => !valid_utf8(b@),
        },
{
    std::str::from_utf8(b).ok()
}

/// Reads the content of a UTF8String value.
pub fn interpret_utf8_string(content: &[u8]) -> (r: Result<String>)
    ensures
        valid_utf8(content@) ==> r is Ok && encode_utf8(r.unwrap()@) == content@,
        !valid_utf8(content@) ==> r == Err::<String, Error>(Error(ErrorKind::InvalidUtf8String)),
{
    match utf8_str(content) {
        Some(s) => Ok(s.to_owned()),
        None => Err(Error(ErrorKind::InvalidUtf8String)),
    }
}

/// The UTF-16 code units of one character.
pub open spec fn utf16_units(c: char) -> Seq<u16> {
    let v = c as u32;
    if v < 0x10000 {
        seq![v as u16]
    } else {
        seq![(0xD800 + (v - 0x10000) / 1024) as u16, (0xDC00 + (v - 0x10000) % 1024) as u16]
    }
}

/// The UTF-16 encoding of a text.
pub open spec fn encode_utf16(cs: Seq<char>) -> Seq<u16>
    decreases cs.len(),
{
    if cs.len() == 0 {
        seq![]
    } else {
        encode_utf16(cs.drop_last()) + utf16_units(cs.last())
    }
}

/// Big-endian pairs of bytes read as 16-bit units.
pub open spec fn be_units(b: Seq<u8>) -> Seq<u16> {
    Seq::new(b.len() / 2, |i: int| (b[2 * i] as int * 256 + b[2 * i + 1] as int) as u16)
}

/// Some text has the UTF-16 encoding `u`.
pub open spec fn is_utf16(u: Seq<u16>) -> bool {
    exists|cs: Seq<char>| encode_utf16(cs) == u
}

/// Relies on std's `String::from_utf16`: it decodes well-formed UTF-16 into the
/// text it encodes, and fails on anything else.
#[verifier::external_body]
fn utf16_string(units: &[u16]) -> (r: Option<String>)
    ensures
        match r {
            Some(s) => encode_utf16(s@) == units@,
            None => !is_utf16(units@),
        },
{
    String::from_utf16(units).ok()
}

/// Reads the content of a BMPString value: big-endian UTF-16 of even length.
pub fn interpret_bmp_string(content: &[u8]) -> (r: Result<String>)
    ensures
        content@.len() % 2 == 0 && is_utf16(be_units(content@)) ==> r is Ok,
        r is Ok ==> content@.len() % 2 == 0 && encode_utf16(r.unwrap()@) == be_units(content@),
        r is Err ==> r == Err::<String, Error>(Error(ErrorKind::InvalidBmpString)),
{
    if content.len() % 2 != 0 {
        return Err(Error(ErrorKind::InvalidBmpString));
    }
    let mut units: Vec<u16> = Vec::new();
    let mut i: usize = 0;
    while i < content.len() / 2
        invariant
            content@.len() % 2 == 0,
            i <= content@.len() / 2,
            units@ == be_units(content@).subrange(0, i as int),
        decreases content.len() / 2 - i,
    {
        units.push((content[2 * i] as u16) * 256 + (content[2 * i + 1] as u16));
        i = i + 1;
        assert(units@ =~= be_units(content@).subrange(0, i as int));
    }
    assert(units@ =~= be_units(content@));
    match utf16_string(units.as_slice()) {
        Some(s) => Ok(s),
        None => Err(Error(ErrorKind::InvalidBmpString)),
    }
}

} // verus!
