use vstd::prelude::*;

use crate::error::{Error, ErrorKind, Result};

verus! {

/// The tags this decoder recognises.
#[derive(Clone, Copy, Debug, PartialEq, Eq, Structural)]
pub enum Tag {
    Boolean,
    Integer,
    BitString,
    OctetString,
    Null,
    OID,
    Utf8String,
    PrintableString,
    UTCTime,
    GeneralizedTime,
    UniversalString,
    BMPString,
    Sequence,
    SetOf,
    ContextSpecific0,
    ContextSpecific1,
    ContextSpecificConstructed0,
    ContextSpecificConstructed1,
    ContextSpecificConstructed2,
    ContextSpecificConstructed3,
    ApplicationConstructed0,
}

/// The identifier byte of each tag.
pub open spec fn tag_byte(t: Tag) -> u8 {
    match t {
        Tag::Boolean => 0x01,
        Tag::Integer => 0x02,
        Tag::BitString => 0x03,
        Tag::OctetString => 0x04,
        Tag::Null => 0x05,
        Tag::OID => 0x06,
        Tag::Utf8String => 0x0C,
        Tag::PrintableString => 0x13,
        Tag::UTCTime => 0x17,
        Tag::GeneralizedTime => 0x18,
        Tag::UniversalString => 0x1C,
        Tag::BMPString => 0x1E,
        Tag::Sequence => 0x30,
        Tag::SetOf => 0x31,
        Tag::ContextSpecific0 => 0x80,
        Tag::ContextSpecific1 => 0x81,
        Tag::ContextSpecificConstructed0 => 0xA0,
        Tag::ContextSpecificConstructed1 => 0xA1,
        Tag::ContextSpecificConstructed2 => 0xA2,
        Tag::ContextSpecificConstructed3 => 0xA3,
        Tag::ApplicationConstructed0 => 0x60,
    }
}

/// The tag whose identifier byte is `b`, if `b` is recognised.
pub open spec fn tag_of_byte(b: u8) -> Option<Tag> {
    if exists|t: Tag| tag_byte(t) == b {
        Some(choose|t: Tag| tag_byte(t) == b)
    } else {
        None
    }
}

/// No two tags share an identifier byte.
proof fn lemma_tag_byte_injective(a: Tag, b: Tag)
    ensures
        tag_byte(a) == tag_byte(b) ==> a == b,
{
}

impl Tag {
    /// The identifier byte of this tag.
    pub fn to_byte(self) -> (r: u8)
        ensures
            r == tag_byte(self),
    {
        match self {
            Tag::Boolean => 0x01,
            Tag::Integer => 0x02,
            Tag::BitString => 0x03,
            Tag::OctetString => 0x04,
            Tag::Null => 0x05,
            Tag::OID => 0x06,
            Tag::Utf8String => 0x0C,
            Tag::PrintableString => 0x13,
            Tag::UTCTime => 0x17,
            Tag::GeneralizedTime => 0x18,
            Tag::UniversalString => 0x1C,
            Tag::BMPString => 0x1E,
            Tag::Sequence => 0x30,
            Tag::SetOf => 0x31,
            Tag::ContextSpecific0 => 0x80,
            Tag::ContextSpecific1 => 0x81,
            Tag::ContextSpecificConstructed0 => 0xA0,
            Tag::ContextSpecificConstructed1 => 0xA1,
            Tag::ContextSpecificConstructed2 => 0xA2,
            Tag::ContextSpecificConstructed3 => 0xA3,
            Tag::ApplicationConstructed0 => 0x60,
        }
    }

    /// Resolves an identifier byte; an unrecognised byte is an error.
    pub fn from_byte(b: u8) -> (r: Result<Tag>)
        ensures
            match tag_of_byte(b) {
                Some(t) => r == Ok::<Tag, Error>(t),
                None => r == Err::<Tag, Error>(Error(ErrorKind::UnsupportedTag)),
            },
    {
        let r = match b {
            0x01 => Ok(Tag::Boolean),
            0x02 => Ok(Tag::Integer),
            0x03 => Ok(Tag::BitString),
            0x04 => Ok(Tag::OctetString),
            0x05 => Ok(Tag::Null),
            0x06 => Ok(Tag::OID),
            0x0C => Ok(Tag::Utf8String),
            0x13 => Ok(Tag::PrintableString),
            0x17 => Ok(Tag::UTCTime),
            0x18 => Ok(Tag::GeneralizedTime),
            0x1C => Ok(Tag::UniversalString),
            0x1E => Ok(Tag::BMPString),
            0x30 => Ok(Tag::Sequence),
            0x31 => Ok(Tag::SetOf),
            0x80 => Ok(Tag::ContextSpecific0),
            0x81 => Ok(Tag::ContextSpecific1),
            0xA0 => Ok(Tag::ContextSpecificConstructed0),
            0xA1 => Ok(Tag::ContextSpecificConstructed1),
            0xA2 => Ok(Tag::ContextSpecificConstructed2),
            0xA3 => Ok(Tag::ContextSpecificConstructed3),
            0x60 => Ok(Tag::ApplicationConstructed0),
            _ => Err(Error(ErrorKind::UnsupportedTag)),
        };
        proof {
            match r {
                Ok(t) => {
                    assert(tag_byte(t) == b);
                    assert forall|u: Tag| tag_byte(u) == b implies u == t by {
                        lemma_tag_byte_injective(u, t);
                    }
                },
                Err(_) => {
                    assert forall|u: Tag| tag_byte(u) != b by {
                    }
                },
            }
        }
        r
    }
}

/// A read-only, forward only, and zero-copy reader on a slice of bytes.
pub struct Reader<'a> {
    input: &'a [u8],
    index: usize,
}

impl<'a> Reader<'a> {
    /// The whole buffer the reader walks over.
    pub closed spec fn data(&self) -> Seq<u8> {
        self.input@
    }

    /// How many bytes have been consumed.
    pub closed spec fn pos(&self) -> int {
        self.index as int
    }

    /// The bytes not consumed yet.
    pub open spec fn rest(&self) -> Seq<u8> {
        self.data().subrange(self.pos(), self.data().len() as int)
    }

    /// The position never passes the end of the buffer.
    pub open spec fn wf(&self) -> bool {
        0 <= self.pos() <= self.data().len()
    }

    /// Create a reader from a slice of bytes.
    pub fn new(input: &'a [u8]) -> (r: Self)
        ensures
            r.wf(),
            r.data() == input@,
            r.pos() == 0,
    {
        Self { input, index: 0 }
    }

    /// Returns the number of remaining bytes in the stream.
    pub fn len(&self) -> (r: usize)
        requires
            self.wf(),
        ensures
            r == self.data().len() - self.pos(),
    {
        self.input.len() - self.index
    }

    /// Returns true if the input was completely read.
    pub fn at_end(&self) -> (r: bool)
        requires
            self.wf(),
        ensures
            r == (self.pos() == self.data().len()),
    {
        self.index == self.input.len()
    }

    /// Returns the byte at the specified offset from the current position
    /// without consuming the stream.
    pub fn peek_at(&self, offset: usize) -> (r: Option<u8>)
        requires
            self.wf(),
        ensures
            r == (if self.pos() + offset < self.data().len() {
                Some(self.data()[self.pos() + offset])
            } else {
                None::<u8>
            }),
    {
        if offset < self.input.len() - self.index {
            Some(self.input[self.index + offset])
        } else {
            None
        }
    }

    /// Peek and check if the next byte is the expected value.
    pub fn peek_eq(&self, expected: u8) -> (r: bool)
        requires
            self.wf(),
        ensures
            r == (self.pos() < self.data().len() && self.data()[self.pos()] == expected),
    {
        if self.index < self.input.len() {
            self.input[self.index] == expected
        } else {
            false
        }
    }

    /// Try to consume and return the next byte.
    pub fn read_byte(&mut self) -> (r: Result<u8>)
        requires
            old(self).wf(),
        ensures
            final(self).wf(),
            final(self).data() == old(self).data(),
            match r {
                Ok(b) => old(self).pos() < old(self).data().len() && b == old(self).data()[old(self).pos()]
                    && final(self).pos() == old(self).pos() + 1,
                Err(e) => old(self).pos() == old(self).data().len() && e == Error(ErrorKind::EndOfInput)
                    && final(self).pos() == old(self).pos(),
            },
    {
        if self.index < self.input.len() {
            let b = self.input[self.index];
            self.index = self.index + 1;
            Ok(b)
        } else {
            Err(Error(ErrorKind::EndOfInput))
        }
    }

    /// Try to read the specified amount of bytes and fail if it's not possible.
    pub fn read_bytes(&mut self, amount: usize) -> (r: Result<&'a [u8]>)
        requires
            old(self).wf(),
        ensures
            final(self).wf(),
            final(self).data() == old(self).data(),
            match r {
                Ok(s) => old(self).pos() + amount <= old(self).data().len()
                    && s@ == old(self).data().subrange(old(self).pos(), old(self).pos() + amount)
                    && final(self).pos() == old(self).pos() + amount,
                Err(e) => old(self).pos() + amount > old(self).data().len()
                    && e == Error(ErrorKind::EndOfInput) && final(self).pos() == old(self).pos(),
            },
    {
        if amount > self.input.len() - self.index {
            return Err(Error(ErrorKind::EndOfInput));
        }
        let new_index = self.index + amount;
        let result = &self.input[self.index..new_index];
        self.index = new_index;
        Ok(result)
    }

    /// Consume and returns the remaining bytes.
    pub fn read_bytes_to_end(&mut self) -> (r: &'a [u8])
        requires
            old(self).wf(),
        ensures
            final(self).wf(),
            final(self).data() == old(self).data(),
            r@ == old(self).rest(),
            final(self).pos() == final(self).data().len(),
    {
        let result = &self.input[self.index..self.input.len()];
        self.index = self.input.len();
        result
    }

    /// Call the given `callback` and return the consumed bytes and the result.
    pub fn read_and_get_bytes_read<F, R>(&mut self, callback: F) -> (r: Result<(&'a [u8], R)>)
        where
            F: FnOnce(&mut Reader<'a>) -> Result<R>,
        requires
            old(self).wf(),
            forall|rd: &mut Reader<'a>| rd.wf() && rd.data() == old(self).data() ==> callback.requires((rd,)),
            forall|rd: &mut Reader<'a>, res: Result<R>| callback.ensures((rd,), res) ==> final(rd).wf()
                && final(rd).data() == rd.data() && final(rd).pos() >= rd.pos(),
        ensures
            final(self).wf(),
            final(self).data() == old(self).data(),
            final(self).pos() >= old(self).pos(),
            exists|rd: &mut Reader<'a>| rd.data() == old(self).data() && rd.pos() == old(self).pos()
                && final(rd).pos() == final(self).pos() && match r {
                    Ok((bytes, v)) => callback.ensures((rd,), Ok::<R, Error>(v))
                        && bytes@ == old(self).data().subrange(old(self).pos(), final(self).pos()),
                    Err(e) => callback.ensures((rd,), Err::<R, Error>(e)),
                },
    {
        let index_at_start = self.index;
        match callback(self) {
            Ok(result) => Ok((&self.input[index_at_start..self.index], result)),
            Err(e) => Err(e),
        }
    }

    /// Create a new reader from the specified input and call the given callback
    /// with this reader. If the reader isn't completely consumed by the
    /// callback, the function returns an error.
    pub fn read_all<F, R>(input: &'a [u8], callback: F) -> (r: Result<R>)
        where
            F: FnOnce(&mut Reader<'a>) -> Result<R>,
        requires
            forall|rd: &mut Reader<'a>| rd.wf() && rd.data() == input@ && rd.pos() == 0 ==> callback.requires((rd,)),
            forall|rd: &mut Reader<'a>, res: Result<R>| callback.ensures((rd,), res) ==> final(rd).wf()
                && final(rd).data() == rd.data(),
        ensures
            exists|rd: &mut Reader<'a>| rd.data() == input@ && rd.pos() == 0 && match r {
                Ok(v) => callback.ensures((rd,), Ok::<R, Error>(v)) && final(rd).pos() == input@.len(),
                Err(e) => callback.ensures((rd,), Err::<R, Error>(e)) || (e == Error(
                    ErrorKind::IncompleteRead,
                ) && exists|v: R| callback.ensures((rd,), Ok::<R, Error>(v)) && final(rd).pos()
                    < input@.len()),
            },
    {
        let mut reader = Reader::new(input);
        let result = callback(&mut reader);
        match result {
            Ok(v) => {
                if reader.at_end() {
                    Ok(v)
                } else {
                    Err(Error(ErrorKind::IncompleteRead))
                }
            },
            Err(e) => Err(e),
        }
    }

    /// Consume all the remaining bytes of the reader.
    pub fn skip_to_end(&mut self)
        requires
            old(self).wf(),
        ensures
            final(self).wf(),
            final(self).data() == old(self).data(),
            final(self).pos() == final(self).data().len(),
    {
        self.index = self.input.len();
    }
}


/// The length field at the start of `s`: how many bytes it takes and the length it gives.
pub open spec fn length_field(s: Seq<u8>) -> core::result::Result<(int, int), ErrorKind> {
    if s.len() < 1 {
        Err(ErrorKind::EndOfInput)
    } else if s[0] < 0x80 {
        Ok((1, s[0] as int))
    } else if s[0] == 0x81 {
        if s.len() < 2 {
            Err(ErrorKind::EndOfInput)
        } else if s[1] < 128 {
            Err(ErrorKind::NonCanonicalLength)
        } else {
            Ok((2, s[1] as int))
        }
    } else if s[0] == 0x82 {
        if s.len() < 3 {
            Err(ErrorKind::EndOfInput)
        } else if (s[1] as int) * 256 + (s[2] as int) < 256 {
            Err(ErrorKind::NonCanonicalLength)
        } else {
            Ok((3, (s[1] as int) * 256 + (s[2] as int)))
        }
    } else {
        Err(ErrorKind::UnsupportedLength)
    }
}

/// One record at the start of `s`: its tag, the offset of its content and the
/// content's length; or why no record can be read there.
pub open spec fn tlv(s: Seq<u8>) -> core::result::Result<(Tag, int, int), ErrorKind> {
    if s.len() < 1 {
        Err(ErrorKind::EndOfInput)
    } else if s[0] % 32 == 31 {
        Err(ErrorKind::HighTagNumberForm)
    } else if tag_of_byte(s[0]) is None {
        Err(ErrorKind::UnsupportedTag)
    } else {
        match length_field(s.subrange(1, s.len() as int)) {
            Err(k) => Err(k),
            Ok((n, len)) => if 1 + n + len <= s.len() {
                Ok((tag_of_byte(s[0]).unwrap(), 1 + n, len))
            } else {
                Err(ErrorKind::EndOfInput)
            },
        }
    }
}

/// Reads one tag, its canonical length, and exactly that many content bytes.
pub fn read_tag_and_get_value<'a>(input: &mut Reader<'a>) -> (r: Result<(Tag, &'a [u8])>)
    requires
        old(input).wf(),
    ensures
        final(input).wf(),
        final(input).data() == old(input).data(),
        match tlv(old(input).rest()) {
            Ok((t, off, len)) => r is Ok && r.unwrap().0 == t
                && r.unwrap().1@ == old(input).rest().subrange(off, off + len)
                && final(input).pos() == old(input).pos() + off + len,
            Err(k) => r == Err::<(Tag, &'a [u8]), Error>(Error(k)),
        },
{
    let ghost s = old(input).rest();
    let ghost start = old(input).pos();
    let tag = input.read_byte()?;
    assert(tag & 0x1F == 0x1F <==> tag % 32 == 31) by (bit_vector);
    if (tag & 0x1F) == 0x1F {
        return Err(Error(ErrorKind::HighTagNumberForm));
    }
    let tag = Tag::from_byte(tag)?;
    let ghost ls = s.subrange(1, s.len() as int);
    assert(input.rest() =~= ls);
    // If the high order bit of the first byte is zero, the length is the
    // seven remaining bits; otherwise they count the bytes of the length.
    let first = input.read_byte()?;
    assert(first & 0x80 == 0 <==> first < 0x80) by (bit_vector);
    let length: usize = if (first & 0x80) == 0 {
        first as usize
    } else if first == 0x81 {
        let second = input.read_byte()?;
        if second < 128 {
            return Err(Error(ErrorKind::NonCanonicalLength));
        }
        second as usize
    } else if first == 0x82 {
        let second = input.read_byte()?;
        let third = input.read_byte()?;
        let combined: usize = (second as usize) * 256 + (third as usize);
        if combined < 256 {
            return Err(Error(ErrorKind::NonCanonicalLength));
        }
        combined
    } else {
        return Err(Error(ErrorKind::UnsupportedLength));
    };
    let inner = input.read_bytes(length)?;
    assert(inner@ =~= s.subrange(input.pos() - start - length, input.pos() - start));
    Ok((tag, inner))
}

/// A record whose length field claims more content bytes than follow it fails
/// with end of input; nothing past the buffer is read.
pub proof fn lemma_truncated_record(s: Seq<u8>)
    requires
        s.len() > 0,
        s[0] % 32 != 31,
        tag_of_byte(s[0]) is Some,
        length_field(s.subrange(1, s.len() as int)) is Ok,
        1 + length_field(s.subrange(1, s.len() as int)).unwrap().0 + length_field(
            s.subrange(1, s.len() as int),
        ).unwrap().1 > s.len(),
    ensures
        tlv(s) == Err::<(Tag, int, int), ErrorKind>(ErrorKind::EndOfInput),
{
}

} // verus!
