//! What can be read from an encoding and written to one, and the simplest things that can.

use vstd::prelude::*;

use crate::error::{ParseError, ParseResult};
use crate::parser::{self, Parser};

verus! {

/// Something that can be read off the front of an encoding, whatever its tag.
pub trait Asn1Element<'a>: Sized {
    /// What reading gives.
    type ParsedType;

    /// The mathematical value that a `ParsedType` stands for.
    type Value;

    /// The value that `parsed` stands for.
    spec fn value_of(parsed: Self::ParsedType) -> Self::Value;

    /// What reading one element off the front of `input` gives, and what is left of the input.
    spec fn read(input: Seq<u8>) -> (ParseResult<Self::Value>, Seq<u8>);

    /// What is known beyond `read` of what reading one element off the front of `input` gives, once
    /// it has been read.
    spec fn read_assures(input: Seq<u8>) -> bool;

    /// Reads one element.
    fn parse(parser: &mut Parser<'a>) -> (r: ParseResult<Self::ParsedType>)
        ensures
            Self::read_assures(old(parser)@),
            final(parser)@ == Self::read(old(parser)@).1,
            (match r {
                Ok(parsed) => Ok(Self::value_of(parsed)),
                Err(e) => Err(e),
            }) == Self::read(old(parser)@).0,
    ;
}

/// A type of element that has one tag of its own. What it says is how the contents of such an
/// element are read and written. The tag and the length around them are dealt with elsewhere.
pub trait SimpleAsn1Element<'a>: Sized {
    /// The tag of the elements of this type.
    const TAG: u8;

    /// What reading gives.
    type ParsedType;

    /// What can be written.
    type WriteType;

    /// The mathematical value that a `ParsedType` stands for.
    type Value;

    /// The tag, as contracts have it.
    spec fn tag() -> u8;

    /// The value that `parsed` stands for.
    spec fn parsed_value(parsed: Self::ParsedType) -> Self::Value;

    /// What the contents `data` stand for, or why they stand for nothing.
    spec fn decode(data: Seq<u8>) -> ParseResult<Self::Value>;

    /// What is known beyond `decode` of the result `r` of reading the contents `data`, once they
    /// have been read.
    spec fn assures(data: Seq<u8>, r: ParseResult<Self::Value>) -> bool;

    /// Whether `val` can be written.
    spec fn writable(val: Self::WriteType) -> bool;

    /// Whether writing `val` may give the contents `data`.
    spec fn encodes(val: Self::WriteType, data: Seq<u8>) -> bool;

    /// Whether writing `val` behind `before` may give the contents `data`, which `encodes` allows.
    /// What a function writes may depend on what stands before it.
    spec fn adds(val: Self::WriteType, before: Seq<u8>, data: Seq<u8>) -> bool;

    /// The tag of the elements is the tag that contracts have.
    proof fn lemma_tag()
        ensures
            Self::TAG == Self::tag(),
    ;

    /// Reads the contents of an element.
    fn parse_data(data: &'a [u8]) -> (r: ParseResult<Self::ParsedType>)
        ensures
            (match r {
                Ok(parsed) => Ok(Self::parsed_value(parsed)),
                Err(e) => Err(e),
            }) == Self::decode(data@),
            Self::assures(data@, Self::decode(data@)),
    ;

    /// Writes the contents of an element to the end of `dest`.
    fn write_data(dest: &mut Vec<u8>, val: Self::WriteType)
        requires
            Self::writable(val),
        ensures
            exists|data: Seq<u8>| #[trigger]
                Self::encodes(val, data) && Self::adds(val, old(dest)@, data) && final(dest)@
                    == old(dest)@ + data,
    ;
}

/// What reading an element of type `T` off the front of `input` gives: the element's contents as
/// `T` understands them, if it has the tag of `T`.
pub open spec fn read_simple<'a, T: SimpleAsn1Element<'a>>(input: Seq<u8>) -> (
    ParseResult<T::Value>,
    Seq<u8>,
) {
    match parser::read_tlv(input) {
        (Err(e), rest) => (Err(e), rest),
        (Ok((tag, data)), rest) => if tag == T::tag() {
            (T::decode(data), rest)
        } else {
            (Err(ParseError::UnexpectedTag { actual: tag }), rest)
        },
    }
}

/// What is known beyond `read_simple` of what reading an element of type `T` off the front of
/// `input` gives, once it has been read: what `T` assures of the element's contents.
pub open spec fn simple_assures<'a, T: SimpleAsn1Element<'a>>(input: Seq<u8>) -> bool {
    match parser::read_tlv(input) {
        (Ok((tag, data)), _) => tag == T::tag() ==> T::assures(data, T::decode(data)),
        _ => true,
    }
}

impl<'a, T: SimpleAsn1Element<'a>> Asn1Element<'a> for T {
    type ParsedType = T::ParsedType;

    type Value = T::Value;

    open spec fn value_of(parsed: T::ParsedType) -> T::Value {
        T::parsed_value(parsed)
    }

    open spec fn read(input: Seq<u8>) -> (ParseResult<T::Value>, Seq<u8>) {
        read_simple::<T>(input)
    }

    open spec fn read_assures(input: Seq<u8>) -> bool {
        simple_assures::<T>(input)
    }

    fn parse(parser: &mut Parser<'a>) -> (r: ParseResult<T::ParsedType>) {
        parse_simple::<T>(parser)
    }
}

/// Reads one element of type `T`.
pub(crate) fn parse_simple<'a, T: SimpleAsn1Element<'a>>(parser: &mut Parser<'a>) -> (r:
    ParseResult<T::ParsedType>)
    ensures
        final(parser)@ == read_simple::<T>(old(parser)@).1,
        (match r {
            Ok(parsed) => Ok(T::parsed_value(parsed)),
            Err(e) => Err(e),
        }) == read_simple::<T>(old(parser)@).0,
        simple_assures::<T>(old(parser)@),
{
    proof {
        T::lemma_tag();
    }
    match parser.read_tlv() {
        Ok(tlv) => {
            if tlv.tag != T::TAG {
                return Err(ParseError::UnexpectedTag { actual: tlv.tag });
            }
            T::parse_data(tlv.data)
        },
        Err(e) => Err(e),
    }
}

/// An element that may be left out: it is there if the next octet is its tag.
impl<'a, T: SimpleAsn1Element<'a>> Asn1Element<'a> for Option<T> {
    type ParsedType = Option<T::ParsedType>;

    type Value = Option<T::Value>;

    open spec fn value_of(parsed: Option<T::ParsedType>) -> Option<T::Value> {
        match parsed {
            Some(p) => Some(T::parsed_value(p)),
            None => None,
        }
    }

    open spec fn read(input: Seq<u8>) -> (ParseResult<Option<T::Value>>, Seq<u8>) {
        if input.len() > 0 && input[0] == T::tag() {
            match read_simple::<T>(input) {
                (Ok(v), rest) => (Ok(Some(v)), rest),
                (Err(e), rest) => (Err(e), rest),
            }
        } else {
            (Ok(None), input)
        }
    }

    open spec fn read_assures(input: Seq<u8>) -> bool {
        input.len() > 0 && input[0] == T::tag() ==> simple_assures::<T>(input)
    }

    fn parse(parser: &mut Parser<'a>) -> (r: ParseResult<Option<T::ParsedType>>) {
        proof {
            T::lemma_tag();
        }
        match parser.peek_u8() {
            Some(tag) => {
                if tag == T::TAG {
                    match parse_simple::<T>(parser) {
                        Ok(parsed) => Ok(Some(parsed)),
                        Err(e) => Err(e),
                    }
                } else {
                    Ok(None)
                }
            },
            None => Ok(None),
        }
    }
}

/// ASN.1 `NULL`, which has no contents.
impl<'a> SimpleAsn1Element<'a> for () {
    const TAG: u8 = 0x05;

    type ParsedType = ();

    type WriteType = ();

    type Value = ();

    open spec fn tag() -> u8 {
        0x05
    }

    open spec fn parsed_value(parsed: ()) -> () {
        ()
    }

    open spec fn decode(data: Seq<u8>) -> ParseResult<()> {
        if data.len() == 0 {
            Ok(())
        } else {
            Err(ParseError::InvalidValue)
        }
    }

    open spec fn assures(data: Seq<u8>, r: ParseResult<()>) -> bool {
        true
    }

    open spec fn writable(val: ()) -> bool {
        true
    }

    open spec fn encodes(val: (), data: Seq<u8>) -> bool {
        data == Seq::<u8>::empty()
    }

    open spec fn adds(val: (), before: Seq<u8>, data: Seq<u8>) -> bool {
        true
    }

    proof fn lemma_tag() {
    }

    fn parse_data(data: &'a [u8]) -> (r: ParseResult<()>) {
        if data.len() == 0 {
            Ok(())
        } else {
            Err(ParseError::InvalidValue)
        }
    }

    fn write_data(dest: &mut Vec<u8>, val: ()) {
        assert(Self::encodes(val, Seq::<u8>::empty()));
        assert(dest@ == dest@ + Seq::<u8>::empty());
    }
}

/// ASN.1 `BOOLEAN`: one octet, which is all zeros or all ones.
impl<'a> SimpleAsn1Element<'a> for bool {
    const TAG: u8 = 0x1;

    type ParsedType = bool;

    type WriteType = bool;

    type Value = bool;

    open spec fn tag() -> u8 {
        0x1
    }

    open spec fn parsed_value(parsed: bool) -> bool {
        parsed
    }

    open spec fn decode(data: Seq<u8>) -> ParseResult<bool> {
        if data == seq![0x00u8] {
            Ok(false)
        } else if data == seq![0xffu8] {
            Ok(true)
        } else {
            Err(ParseError::InvalidValue)
        }
    }

    open spec fn assures(data: Seq<u8>, r: ParseResult<bool>) -> bool {
        true
    }

    open spec fn writable(val: bool) -> bool {
        true
    }

    open spec fn encodes(val: bool, data: Seq<u8>) -> bool {
        data == if val {
            seq![0xffu8]
        } else {
            seq![0x00u8]
        }
    }

    open spec fn adds(val: bool, before: Seq<u8>, data: Seq<u8>) -> bool {
        true
    }

    proof fn lemma_tag() {
    }

    fn parse_data(data: &'a [u8]) -> (r: ParseResult<bool>) {
        if data.len() == 1 && data[0] == 0x00 {
            assert(data@ == seq![0x00u8]);
            Ok(false)
        } else if data.len() == 1 && data[0] == 0xff {
            assert(data@ == seq![0xffu8]);
            Ok(true)
        } else {
            Err(ParseError::InvalidValue)
        }
    }

    fn write_data(dest: &mut Vec<u8>, val: bool) {
        if val {
            dest.push(0xff);
            assert(Self::encodes(val, seq![0xffu8]));
        } else {
            dest.push(0x00);
            assert(Self::encodes(val, seq![0x00u8]));
        }
    }
}

/// ASN.1 `OCTET STRING`: the contents are the value.
impl<'a, 'b> SimpleAsn1Element<'a> for &'b [u8] {
    const TAG: u8 = 0x04;

    type ParsedType = &'a [u8];

    type WriteType = &'a [u8];

    type Value = Seq<u8>;

    open spec fn tag() -> u8 {
        0x04
    }

    open spec fn parsed_value(parsed: &'a [u8]) -> Seq<u8> {
        parsed@
    }

    open spec fn decode(data: Seq<u8>) -> ParseResult<Seq<u8>> {
        Ok(data)
    }

    open spec fn assures(data: Seq<u8>, r: ParseResult<Seq<u8>>) -> bool {
        true
    }

    open spec fn writable(val: &'a [u8]) -> bool {
        true
    }

    open spec fn encodes(val: &'a [u8], data: Seq<u8>) -> bool {
        data == val@
    }

    open spec fn adds(val: &'a [u8], before: Seq<u8>, data: Seq<u8>) -> bool {
        true
    }

    proof fn lemma_tag() {
    }

    fn parse_data(data: &'a [u8]) -> (r: ParseResult<&'a [u8]>) {
        Ok(data)
    }

    fn write_data(dest: &mut Vec<u8>, val: &'a [u8]) {
        dest.extend_from_slice(val);
        assert(dest@ == old(dest)@ + val@);
        assert(Self::encodes(val, val@));
    }
}

} // verus!
