//! Elements that are tagged with a number of the context they stand in.

use core::marker::PhantomData;

use vstd::prelude::*;

use crate::element::{parse_simple, SimpleAsn1Element};
use crate::error::{ParseError, ParseResult};
use crate::parser::{parse, Parser};
use crate::writer::{self, Writer};

verus! {

/// The bit of a tag that marks a context-specific one.
pub const CONTEXT_SPECIFIC: u8 = 0x80;

/// The bit of a tag that marks contents which are themselves made of elements.
pub const CONSTRUCTED: u8 = 0x20;

/// `Implicit` is a type which wraps another ASN.1 type, indicating that the tag is an ASN.1
/// `IMPLICIT`. This will generally be used with `Option` or `Choice`.
pub struct Implicit<'a, T, const TAG: u8> {
    _inner: PhantomData<T>,
    _lifetime: PhantomData<&'a ()>,
}

/// The contents are those of a `T`. Only the tag is another.
impl<'a, 'b, T: SimpleAsn1Element<'a>, const TAG: u8> SimpleAsn1Element<'a> for Implicit<
    'b,
    T,
    TAG,
> {
    const TAG: u8 = CONTEXT_SPECIFIC | TAG | (T::TAG & CONSTRUCTED);

    type ParsedType = T::ParsedType;

    type WriteType = T::WriteType;

    type Value = T::Value;

    open spec fn tag() -> u8 {
        CONTEXT_SPECIFIC | TAG | (T::tag() & CONSTRUCTED)
    }

    open spec fn parsed_value(parsed: T::ParsedType) -> T::Value {
        T::parsed_value(parsed)
    }

    open spec fn decode(data: Seq<u8>) -> ParseResult<T::Value> {
        T::decode(data)
    }

    open spec fn assures(data: Seq<u8>, r: ParseResult<T::Value>) -> bool {
        T::assures(data, r)
    }

    open spec fn writable(val: T::WriteType) -> bool {
        T::writable(val)
    }

    open spec fn encodes(val: T::WriteType, data: Seq<u8>) -> bool {
        T::encodes(val, data)
    }

    open spec fn adds(val: T::WriteType, before: Seq<u8>, data: Seq<u8>) -> bool {
        T::adds(val, before, data)
    }

    proof fn lemma_tag() {
        T::lemma_tag();
    }

    fn parse_data(data: &'a [u8]) -> (r: ParseResult<T::ParsedType>) {
        T::parse_data(data)
    }

    fn write_data(dest: &mut Vec<u8>, val: T::WriteType) {
        T::write_data(dest, val);
        proof {
            let data = choose|data: Seq<u8>| #[trigger]
                T::encodes(val, data) && T::adds(val, old(dest)@, data) && dest@ == old(dest)@
                    + data;
            assert(Self::encodes(val, data));
        }
    }
}

/// `Explicit` is a type which wraps another ASN.1 type, indicating that the tag is an ASN.1
/// `EXPLICIT`. This will generally be used with `Option` or `Choice`.
pub struct Explicit<'a, T, const TAG: u8> {
    _inner: PhantomData<T>,
    _lifetime: PhantomData<&'a ()>,
}

/// The contents are one whole element of type `T`.
impl<'a, 'b, T: SimpleAsn1Element<'a>, const TAG: u8> SimpleAsn1Element<'a> for Explicit<
    'b,
    T,
    TAG,
> {
    const TAG: u8 = CONTEXT_SPECIFIC | CONSTRUCTED | TAG;

    type ParsedType = T::ParsedType;

    type WriteType = T::WriteType;

    type Value = T::Value;

    open spec fn tag() -> u8 {
        CONTEXT_SPECIFIC | CONSTRUCTED | TAG
    }

    open spec fn parsed_value(parsed: T::ParsedType) -> T::Value {
        T::parsed_value(parsed)
    }

    open spec fn decode(data: Seq<u8>) -> ParseResult<T::Value> {
        match crate::element::read_simple::<T>(data) {
            (Err(e), _) => Err(e),
            (Ok(v), rest) => if rest.len() == 0 {
                Ok(v)
            } else {
                Err(ParseError::ExtraData)
            },
        }
    }

    open spec fn assures(data: Seq<u8>, r: ParseResult<T::Value>) -> bool {
        crate::element::simple_assures::<T>(data)
    }

    open spec fn writable(val: T::WriteType) -> bool {
        T::writable(val)
    }

    open spec fn encodes(val: T::WriteType, data: Seq<u8>) -> bool {
        exists|inner: Seq<u8>| #[trigger]
            T::encodes(val, inner) && data == writer::element(T::tag(), inner)
    }

    open spec fn adds(val: T::WriteType, before: Seq<u8>, data: Seq<u8>) -> bool {
        exists|inner: Seq<u8>| #[trigger]
            T::encodes(val, inner) && T::adds(val, Seq::empty(), inner) && data == writer::element(
                T::tag(),
                inner,
            )
    }

    proof fn lemma_tag() {
    }

    fn parse_data(data: &'a [u8]) -> (r: ParseResult<T::ParsedType>) {
        let read = |p: &mut Parser<'a>| -> (r: ParseResult<T::ParsedType>)
            ensures
                final(p)@ == crate::element::read_simple::<T>(old(p)@).1,
                (match r {
                    Ok(parsed) => Ok(T::parsed_value(parsed)),
                    Err(e) => Err(e),
                }) == crate::element::read_simple::<T>(old(p)@).0,
                crate::element::simple_assures::<T>(old(p)@),
            { parse_simple::<T>(p) };
        parse(data, read)
    }

    fn write_data(dest: &mut Vec<u8>, val: T::WriteType) {
        let mut storage: Vec<u8> = Vec::new();
        core::mem::swap(dest, &mut storage);
        let mut writer = Writer::new_with_storage(storage);
        writer.write_element_with_type::<T>(val);
        *dest = writer.into_storage();
        proof {
            let inner = choose|inner: Seq<u8>| #[trigger]
                T::encodes(val, inner) && T::adds(val, Seq::empty(), inner) && dest@ == old(dest)@
                    + writer::element(T::tag(), inner);
            assert(Self::encodes(val, writer::element(T::tag(), inner)));
        }
    }
}

} // verus!
