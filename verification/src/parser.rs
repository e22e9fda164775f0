//! Reading elements off the front of a slice of bytes.

use vstd::prelude::*;

use crate::element::Asn1Element;
use crate::error::{ParseError, ParseResult};

verus! {

/// What reading one octet off the front of `input` gives, and what is left of the input.
pub open spec fn read_u8(input: Seq<u8>) -> (ParseResult<u8>, Seq<u8>) {
    if input.len() == 0 {
        (Err(ParseError::ShortData), input)
    } else {
        (Ok(input[0]), input.skip(1))
    }
}

/// What reading `length` octets off the front of `input` gives, and what is left of the input.
pub open spec fn read_bytes(input: Seq<u8>, length: nat) -> (ParseResult<Seq<u8>>, Seq<u8>) {
    if length > input.len() {
        (Err(ParseError::ShortData), input)
    } else {
        (Ok(input.take(length as int)), input.skip(length as int))
    }
}

/// What reading the last `count` octets of a long-form length gives, where the octets before
/// them have the value `high`. The first octet of a length is not zero, a length that has a
/// short form is not written in the long one, and a length fits a `usize`.
pub open spec fn read_length_octets(input: Seq<u8>, count: nat, high: nat) -> (
    ParseResult<nat>,
    Seq<u8>,
)
    decreases count,
{
    if count == 0 {
        if high < 128 {
            (Err(ParseError::InvalidValue), input)
        } else {
            (Ok(high), input)
        }
    } else if input.len() == 0 {
        (Err(ParseError::ShortData), input)
    } else if high * 256 + 255 > usize::MAX {
        (Err(ParseError::IntegerOverflow), input.skip(1))
    } else if high * 256 + input[0] == 0 {
        (Err(ParseError::InvalidValue), input.skip(1))
    } else {
        read_length_octets(input.skip(1), (count - 1) as nat, high * 256 + input[0] as nat)
    }
}

/// What reading the length of an element off the front of `input` gives, and what is left of the
/// input. The indefinite form is not accepted.
pub open spec fn read_length(input: Seq<u8>) -> (ParseResult<nat>, Seq<u8>) {
    if input.len() == 0 {
        (Err(ParseError::ShortData), input)
    } else if input[0] < 0x80 {
        (Ok(input[0] as nat), input.skip(1))
    } else if input[0] == 0x80 {
        (Err(ParseError::InvalidValue), input.skip(1))
    } else {
        read_length_octets(input.skip(1), (input[0] - 0x80) as nat, 0)
    }
}

/// What reading an element's tag and contents off the front of `input` gives, and what is left
/// of the input.
pub open spec fn read_tlv(input: Seq<u8>) -> (ParseResult<(u8, Seq<u8>)>, Seq<u8>) {
    match read_u8(input) {
        (Err(e), rest) => (Err(e), rest),
        (Ok(tag), rest) => match read_length(rest) {
            (Err(e), rest) => (Err(e), rest),
            (Ok(length), rest) => match read_bytes(rest, length) {
                (Err(e), rest) => (Err(e), rest),
                (Ok(contents), rest) => (Ok((tag, contents)), rest),
            },
        },
    }
}

/// An element taken apart: its tag and its contents.
pub struct Tlv<'a> {
    pub tag: u8,
    pub data: &'a [u8],
}

/// Reads elements one after the other. Its view is the data that is still to be read.
pub struct Parser<'a> {
    data: &'a [u8],
}

impl<'a> View for Parser<'a> {
    type V = Seq<u8>;

    closed spec fn view(&self) -> Seq<u8> {
        self.data@
    }
}

impl<'a> Parser<'a> {
    /// A parser that has all of `data` still to read.
    pub(crate) fn new(data: &'a [u8]) -> (p: Parser<'a>)
        ensures
            p@ == data@,
    {
        Parser { data }
    }

    /// Whether everything has been read.
    pub fn is_empty(&self) -> (b: bool)
        ensures
            b == (self@.len() == 0),
    {
        self.data.len() == 0
    }

    /// The next octet, which stays unread.
    pub(crate) fn peek_u8(&self) -> (b: Option<u8>)
        ensures
            b == (if self@.len() == 0 {
                None
            } else {
                Some(self@[0])
            }),
    {
        if self.data.len() == 0 {
            None
        } else {
            Some(self.data[0])
        }
    }

    fn read_u8(&mut self) -> (r: ParseResult<u8>)
        ensures
            (r, final(self)@) == read_u8(old(self)@),
    {
        if self.data.len() == 0 {
            return Err(ParseError::ShortData);
        }
        let b: u8 = self.data[0];
        let (_, rest) = self.data.split_at(1);
        self.data = rest;
        Ok(b)
    }

    fn read_bytes(&mut self, length: usize) -> (r: ParseResult<&'a [u8]>)
        ensures
            final(self)@ == read_bytes(old(self)@, length as nat).1,
            (match r {
                Ok(contents) => Ok(contents@),
                Err(e) => Err(e),
            }) == read_bytes(old(self)@, length as nat).0,
    {
        if length > self.data.len() {
            return Err(ParseError::ShortData);
        }
        let (contents, rest) = self.data.split_at(length);
        self.data = rest;
        Ok(contents)
    }

    fn read_length(&mut self) -> (r: ParseResult<usize>)
        ensures
            final(self)@ == read_length(old(self)@).1,
            (match r {
                Ok(length) => Ok(length as nat),
                Err(e) => Err(e),
            }) == read_length(old(self)@).0,
    {
        let first: u8 = match self.read_u8() {
            Ok(b) => b,
            Err(e) => return Err(e),
        };
        if first < 0x80 {
            return Ok(first as usize);
        }
        if first == 0x80 {
            return Err(ParseError::InvalidValue);
        }
        let mut left: u8 = first - 0x80;
        let mut length: usize = 0;
        let ghost whole = read_length(old(self)@);
        while left > 0
            invariant
                read_length_octets(self@, left as nat, length as nat) == whole,
                whole == read_length(old(self)@),
            decreases left,
        {
            let b: u8 = match self.read_u8() {
                Ok(b) => b,
                Err(e) => return Err(e),
            };
            if length > usize::MAX / 256 {
                return Err(ParseError::IntegerOverflow);
            }
            assert(length * 256 + 255 <= usize::MAX) by {
                assert(usize::MAX == 0xffff_ffff || usize::MAX == 0xffff_ffff_ffff_ffff);
            }
            length = length * 256 + b as usize;
            if length == 0 {
                return Err(ParseError::InvalidValue);
            }
            left = left - 1;
        }
        if length < 128 {
            return Err(ParseError::InvalidValue);
        }
        Ok(length)
    }

    /// Reads one element's tag and contents.
    pub(crate) fn read_tlv(&mut self) -> (r: ParseResult<Tlv<'a>>)
        ensures
            final(self)@ == read_tlv(old(self)@).1,
            (match r {
                Ok(tlv) => Ok((tlv.tag, tlv.data@)),
                Err(e) => Err(e),
            }) == read_tlv(old(self)@).0,
    {
        let tag: u8 = match self.read_u8() {
            Ok(tag) => tag,
            Err(e) => return Err(e),
        };
        let length: usize = match self.read_length() {
            Ok(length) => length,
            Err(e) => return Err(e),
        };
        match self.read_bytes(length) {
            Ok(data) => Ok(Tlv { tag, data }),
            Err(e) => Err(e),
        }
    }

    /// Reads one element of type `T`.
    pub fn read_element<T: Asn1Element<'a>>(&mut self) -> (r: ParseResult<T::ParsedType>)
        ensures
            final(self)@ == T::read(old(self)@).1,
            (match r {
                Ok(parsed) => Ok(T::value_of(parsed)),
                Err(e) => Err(e),
            }) == T::read(old(self)@).0,
            T::read_assures(old(self)@),
    {
        T::parse(self)
    }
}

/// Reads `data` with `f`, which is handed a parser that has all of it to read. Where `f` fails,
/// its error is returned. Where it leaves data unread, the error is `ParseError::ExtraData`,
/// turned into `E`.
pub fn parse<'a, T, E: From<ParseError>, F: Fn(&mut Parser<'a>) -> Result<T, E>>(
    data: &'a [u8],
    f: F,
) -> (r: Result<T, E>)
    requires
        forall|p: &mut Parser<'a>| p@ == data@ ==> #[trigger] call_requires(f, (p,)),
    ensures
        exists|p: &mut Parser<'a>, read: Result<T, E>| #[trigger]
            call_ensures(f, (p,), read) && p@ == data@ && match read {
                Err(e) => r == Err::<T, E>(e),
                Ok(v) => if final(p)@.len() == 0 {
                    r == Ok::<T, E>(v)
                } else {
                    r matches Err(e) && call_ensures(E::from, (ParseError::ExtraData,), e)
                },
            },
{
    let mut p = Parser::new(data);
    match f(&mut p) {
        Ok(v) => {
            if p.is_empty() {
                Ok(v)
            } else {
                Err(E::from(ParseError::ExtraData))
            }
        },
        Err(e) => Err(e),
    }
}

} // verus!
