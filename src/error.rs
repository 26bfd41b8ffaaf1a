use vstd::prelude::*;

verus! {

/// Why a decode step failed.
#[derive(Clone, Copy, Debug, PartialEq, Eq, Structural)]
pub enum ErrorKind {
    EndOfInput,
    IncompleteRead,
    HighTagNumberForm,
    UnsupportedTag,
    NonCanonicalLength,
    UnsupportedLength,
    EmptyOid,
    ArcTooLarge,
    IllegalPadding,
    SingleArc,
    InvalidNumber,
    InvalidFirstArcs,
    InvalidBoolean,
    InvalidPrintableString,
    InvalidUtf8String,
    InvalidBmpString,
    InvalidDigit,
    DigitOutOfRange,
    UnsupportedTimezone,
    InvalidTime,
    AmbiguousTime,
    TooDeep,
}

/// A decode failure: a single flat kind with a fixed description.
#[derive(Clone, Copy, Debug, PartialEq, Eq, Structural)]
pub struct Error(pub ErrorKind);

pub type Result<T> = core::result::Result<T, Error>;

impl Error {
    /// The fixed description of this failure.
    pub fn reason(&self) -> &'static str {
        match self.0 {
            ErrorKind::EndOfInput => "Reached end of input before completing operation",
            ErrorKind::IncompleteRead => "Incomplete Read",
            ErrorKind::HighTagNumberForm => "High tag number form is not allowed.",
            ErrorKind::UnsupportedTag => "Invalid or unsupported tag",
            ErrorKind::NonCanonicalLength => "Not the canonical encoding.",
            ErrorKind::UnsupportedLength => "We don't support longer lengths.",
            ErrorKind::EmptyOid => "OID cannot have the length zero",
            ErrorKind::ArcTooLarge => "Value of an arc is too large",
            ErrorKind::IllegalPadding => "Illegal padding",
            ErrorKind::SingleArc => "A valid OID can't have a single arc",
            ErrorKind::InvalidNumber => "Invalid uint32",
            ErrorKind::InvalidFirstArcs => "Invalid OID, the first two arcs do not respect the limitations",
            ErrorKind::InvalidBoolean => "Invalid boolean",
            ErrorKind::InvalidPrintableString => "Invalid PrintableString",
            ErrorKind::InvalidUtf8String => "Invalid UTF8 string",
            ErrorKind::InvalidBmpString => "Invalid BMPString",
            ErrorKind::InvalidDigit => "Invalid digit found",
            ErrorKind::DigitOutOfRange => "Digit outside expected range",
            ErrorKind::UnsupportedTimezone => "Invalid or unsupported timezone",
            ErrorKind::InvalidTime => "Can't initialize a Utc time",
            ErrorKind::AmbiguousTime => "Ambiguous time",
            ErrorKind::TooDeep => "Nesting is too deep",
        }
    }
}

} // verus!
