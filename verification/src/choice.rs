//! ASN.1 `CHOICE` between up to three types, which are told apart by their tags.

use vstd::prelude::*;

use crate::element::{self, parse_simple, Asn1Element, SimpleAsn1Element};
use crate::error::{ParseError, ParseResult};
use crate::parser::Parser;

verus! {

/// Which of the types of a choice was read, and the value that was read.
pub enum Alternative<A, B, C> {
    First(A),
    Second(B),
    Third(C),
}

/// Represents an ASN.1 `CHOICE` with the provided number of potential types.
///
/// If you need more variants that are provided, please file an issue or submit a pull
/// request!
#[derive(Debug, PartialEq)]
pub enum Choice1<'a, T1: SimpleAsn1Element<'a>> {
    ChoiceA(T1::ParsedType),
}

impl<'a, T1: SimpleAsn1Element<'a>> Choice1<'a, T1> {
    /// Reads one element. The next octet is the tag that decides. An element with another tag
    /// stays unread.
    pub fn parse(parser: &mut Parser<'a>) -> (r: ParseResult<Choice1<'a, T1>>)
        ensures
            final(parser)@ == <Choice1<'a, T1> as Asn1Element<'a>>::read(old(parser)@).1,
            (match r {
                Ok(parsed) => Ok(<Choice1<'a, T1> as Asn1Element<'a>>::value_of(parsed)),
                Err(e) => Err(e),
            }) == <Choice1<'a, T1> as Asn1Element<'a>>::read(old(parser)@).0,
            <Choice1<'a, T1> as Asn1Element<'a>>::read_assures(old(parser)@),
    {
        proof {
            T1::lemma_tag();
        }
        match parser.peek_u8() {
            Some(tag) => {
                if tag == T1::TAG {
                    match parse_simple::<T1>(parser) {
                        Ok(parsed) => Ok(Choice1::ChoiceA(parsed)),
                        Err(e) => Err(e),
                    }
                } else {
                    Err(ParseError::UnexpectedTag { actual: tag })
                }
            },
            None => Err(ParseError::ShortData),
        }
    }
}

impl<'a, T1: SimpleAsn1Element<'a>> Asn1Element<'a> for Choice1<'a, T1> {
    type ParsedType = Choice1<'a, T1>;

    type Value = Alternative<T1::Value, (), ()>;

    open spec fn value_of(parsed: Choice1<'a, T1>) -> Self::Value {
        match parsed {
            Choice1::ChoiceA(p) => Alternative::First(T1::parsed_value(p)),
        }
    }

    open spec fn read(input: Seq<u8>) -> (ParseResult<Self::Value>, Seq<u8>) {
        if input.len() == 0 {
            (Err(ParseError::ShortData), input)
        } else if input[0] == T1::tag() {
            match element::read_simple::<T1>(input) {
                (Ok(v), rest) => (Ok(Alternative::First(v)), rest),
                (Err(e), rest) => (Err(e), rest),
            }
        } else {
            (Err(ParseError::UnexpectedTag { actual: input[0] }), input)
        }
    }

    open spec fn read_assures(input: Seq<u8>) -> bool {
        if input.len() == 0 {
            true
        } else if input[0] == T1::tag() {
            element::simple_assures::<T1>(input)
        } else {
            true
        }
    }

    fn parse(parser: &mut Parser<'a>) -> (r: ParseResult<Choice1<'a, T1>>) {
        Choice1::<'a, T1>::parse(parser)
    }
}

/// Represents an ASN.1 `CHOICE` with the provided number of potential types.
///
/// If you need more variants that are provided, please file an issue or submit a pull
/// request!
#[derive(Debug, PartialEq)]
pub enum Choice2<'a, T1: SimpleAsn1Element<'a>, T2: SimpleAsn1Element<'a>> {
    ChoiceA(T1::ParsedType),
    ChoiceB(T2::ParsedType),
}

impl<'a, T1: SimpleAsn1Element<'a>, T2: SimpleAsn1Element<'a>> Choice2<'a, T1, T2> {
    /// Reads one element. The next octet is the tag that decides. An element with another tag
    /// stays unread.
    pub fn parse(parser: &mut Parser<'a>) -> (r: ParseResult<Choice2<'a, T1, T2>>)
        ensures
            final(parser)@ == <Choice2<'a, T1, T2> as Asn1Element<'a>>::read(old(parser)@).1,
            (match r {
                Ok(parsed) => Ok(<Choice2<'a, T1, T2> as Asn1Element<'a>>::value_of(parsed)),
                Err(e) => Err(e),
            }) == <Choice2<'a, T1, T2> as Asn1Element<'a>>::read(old(parser)@).0,
            <Choice2<'a, T1, T2> as Asn1Element<'a>>::read_assures(old(parser)@),
    {
        proof {
            T1::lemma_tag();
            T2::lemma_tag();
        }
        match parser.peek_u8() {
            Some(tag) => {
                if tag == T1::TAG {
                    match parse_simple::<T1>(parser) {
                        Ok(parsed) => Ok(Choice2::ChoiceA(parsed)),
                        Err(e) => Err(e),
                    }
                } else if tag == T2::TAG {
                    match parse_simple::<T2>(parser) {
                        Ok(parsed) => Ok(Choice2::ChoiceB(parsed)),
                        Err(e) => Err(e),
                    }
                } else {
                    Err(ParseError::UnexpectedTag { actual: tag })
                }
            },
            None => Err(ParseError::ShortData),
        }
    }
}

impl<'a, T1: SimpleAsn1Element<'a>, T2: SimpleAsn1Element<'a>> Asn1Element<'a> for Choice2<
    'a,
    T1,
    T2,
> {
    type ParsedType = Choice2<'a, T1, T2>;

    type Value = Alternative<T1::Value, T2::Value, ()>;

    open spec fn value_of(parsed: Choice2<'a, T1, T2>) -> Self::Value {
        match parsed {
            Choice2::ChoiceA(p) => Alternative::First(T1::parsed_value(p)),
            Choice2::ChoiceB(p) => Alternative::Second(T2::parsed_value(p)),
        }
    }

    open spec fn read(input: Seq<u8>) -> (ParseResult<Self::Value>, Seq<u8>) {
        if input.len() == 0 {
            (Err(ParseError::ShortData), input)
        } else if input[0] == T1::tag() {
            match element::read_simple::<T1>(input) {
                (Ok(v), rest) => (Ok(Alternative::First(v)), rest),
                (Err(e), rest) => (Err(e), rest),
            }
        } else if input[0] == T2::tag() {
            match element::read_simple::<T2>(input) {
                (Ok(v), rest) => (Ok(Alternative::Second(v)), rest),
                (Err(e), rest) => (Err(e), rest),
            }
        } else {
            (Err(ParseError::UnexpectedTag { actual: input[0] }), input)
        }
    }

    open spec fn read_assures(input: Seq<u8>) -> bool {
        if input.len() == 0 {
            true
        } else if input[0] == T1::tag() {
            element::simple_assures::<T1>(input)
        } else if input[0] == T2::tag() {
            element::simple_assures::<T2>(input)
        } else {
            true
        }
    }

    fn parse(parser: &mut Parser<'a>) -> (r: ParseResult<Choice2<'a, T1, T2>>) {
        Choice2::<'a, T1, T2>::parse(parser)
    }
}

/// Represents an ASN.1 `CHOICE` with the provided number of potential types.
///
/// If you need more variants that are provided, please file an issue or submit a pull
/// request!
#[derive(Debug, PartialEq)]
pub enum Choice3<
    'a,
    T1: SimpleAsn1Element<'a>,
    T2: SimpleAsn1Element<'a>,
    T3: SimpleAsn1Element<'a>,
> {
    ChoiceA(T1::ParsedType),
    ChoiceB(T2::ParsedType),
    ChoiceC(T3::ParsedType),
}

impl<
    'a,
    T1: SimpleAsn1Element<'a>,
    T2: SimpleAsn1Element<'a>,
    T3: SimpleAsn1Element<'a>,
> Choice3<'a, T1, T2, T3> {
    /// Reads one element. The next octet is the tag that decides. An element with another tag
    /// stays unread.
    pub fn parse(parser: &mut Parser<'a>) -> (r: ParseResult<Choice3<'a, T1, T2, T3>>)
        ensures
            final(parser)@ == <Choice3<'a, T1, T2, T3> as Asn1Element<'a>>::read(old(parser)@).1,
            (match r {
                Ok(parsed) => Ok(<Choice3<'a, T1, T2, T3> as Asn1Element<'a>>::value_of(parsed)),
                Err(e) => Err(e),
            }) == <Choice3<'a, T1, T2, T3> as Asn1Element<'a>>::read(old(parser)@).0,
            <Choice3<'a, T1, T2, T3> as Asn1Element<'a>>::read_assures(old(parser)@),
    {
        proof {
            T1::lemma_tag();
            T2::lemma_tag();
            T3::lemma_tag();
        }
        match parser.peek_u8() {
            Some(tag) => {
                if tag == T1::TAG {
                    match parse_simple::<T1>(parser) {
                        Ok(parsed) => Ok(Choice3::ChoiceA(parsed)),
                        Err(e) => Err(e),
                    }
                } else if tag == T2::TAG {
                    match parse_simple::<T2>(parser) {
                        Ok(parsed) => Ok(Choice3::ChoiceB(parsed)),
                        Err(e) => Err(e),
                    }
                } else if tag == T3::TAG {
                    match parse_simple::<T3>(parser) {
                        Ok(parsed) => Ok(Choice3::ChoiceC(parsed)),
                        Err(e) => Err(e),
                    }
                } else {
                    Err(ParseError::UnexpectedTag { actual: tag })
                }
            },
            None => Err(ParseError::ShortData),
        }
    }
}

impl<
    'a,
    T1: SimpleAsn1Element<'a>,
    T2: SimpleAsn1Element<'a>,
    T3: SimpleAsn1Element<'a>,
> Asn1Element<'a> for Choice3<'a, T1, T2, T3> {
    type ParsedType = Choice3<'a, T1, T2, T3>;

    type Value = Alternative<T1::Value, T2::Value, T3::Value>;

    open spec fn value_of(parsed: Choice3<'a, T1, T2, T3>) -> Self::Value {
        match parsed {
            Choice3::ChoiceA(p) => Alternative::First(T1::parsed_value(p)),
            Choice3::ChoiceB(p) => Alternative::Second(T2::parsed_value(p)),
            Choice3::ChoiceC(p) => Alternative::Third(T3::parsed_value(p)),
        }
    }

    open spec fn read(input: Seq<u8>) -> (ParseResult<Self::Value>, Seq<u8>) {
        if input.len() == 0 {
            (Err(ParseError::ShortData), input)
        } else if input[0] == T1::tag() {
            match element::read_simple::<T1>(input) {
                (Ok(v), rest) => (Ok(Alternative::First(v)), rest),
                (Err(e), rest) => (Err(e), rest),
            }
        } else if input[0] == T2::tag() {
            match element::read_simple::<T2>(input) {
                (Ok(v), rest) => (Ok(Alternative::Second(v)), rest),
                (Err(e), rest) => (Err(e), rest),
            }
        } else if input[0] == T3::tag() {
            match element::read_simple::<T3>(input) {
                (Ok(v), rest) => (Ok(Alternative::Third(v)), rest),
                (Err(e), rest) => (Err(e), rest),
            }
        } else {
            (Err(ParseError::UnexpectedTag { actual: input[0] }), input)
        }
    }

    open spec fn read_assures(input: Seq<u8>) -> bool {
        if input.len() == 0 {
            true
        } else if input[0] == T1::tag() {
            element::simple_assures::<T1>(input)
        } else if input[0] == T2::tag() {
            element::simple_assures::<T2>(input)
        } else if input[0] == T3::tag() {
            element::simple_assures::<T3>(input)
        } else {
            true
        }
    }

    fn parse(parser: &mut Parser<'a>) -> (r: ParseResult<Choice3<'a, T1, T2, T3>>) {
        Choice3::<'a, T1, T2, T3>::parse(parser)
    }
}

} // verus!
