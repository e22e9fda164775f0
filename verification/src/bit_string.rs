//! ASN.1 `BIT STRING`.

use vstd::prelude::*;

use crate::element::SimpleAsn1Element;
use crate::error::{ParseError, ParseResult};

verus! {

/// Whether `bytes`, of which the last `padding_bits` bits do not count, are a string of bits: not
/// a whole octet is padding, there is none where there are no octets, and it is all zeros.
pub open spec fn is_bit_string(bytes: Seq<u8>, padding_bits: u8) -> bool {
    &&& padding_bits <= 7
    &&& bytes.len() == 0 ==> padding_bits == 0
    &&& bytes.len() > 0 ==> bytes.last() & (((1u8 << padding_bits) - 1) as u8) == 0
}

/// A string of bits, in whole octets. Its view is those octets, and how many bits at the end of
/// them are padding.
#[derive(Debug, PartialEq)]
pub struct BitString<'a> {
    data: &'a [u8],
    padding_bits: u8,
}

impl<'a> View for BitString<'a> {
    type V = (Seq<u8>, u8);

    closed spec fn view(&self) -> (Seq<u8>, u8) {
        (self.data@, self.padding_bits)
    }
}

impl<'a> Clone for BitString<'a> {
    fn clone(&self) -> (r: BitString<'a>)
        ensures
            r@ == self@,
    {
        proof {
            use_type_invariant(self);
        }
        BitString { data: self.data, padding_bits: self.padding_bits }
    }
}

impl<'a> BitString<'a> {
    #[verifier::type_invariant]
    spec fn well_formed(self) -> bool {
        is_bit_string(self.data@, self.padding_bits)
    }

    /// The string of bits that `data` holds in front of `padding_bits` bits of padding, if there
    /// can be that much of it and it is all zeros.
    pub fn new(data: &'a [u8], padding_bits: u8) -> (r: Option<BitString<'a>>)
        ensures
            r is Some <==> is_bit_string(data@, padding_bits),
            r matches Some(b) ==> b@ == (data@, padding_bits),
    {
        if padding_bits > 7 || (data.len() == 0 && padding_bits != 0) {
            return None;
        }
        assert(1u8 << padding_bits >= 1) by (bit_vector)
            requires
                padding_bits <= 7,
        ;
        if data.len() > 0 {
            let last: u8 = data[data.len() - 1];
            if last & ((1u8 << padding_bits) - 1) != 0 {
                return None;
            }
        }
        Some(BitString { data, padding_bits })
    }

    /// The octets that hold the bits.
    pub fn as_bytes(&self) -> (bytes: &'a [u8])
        ensures
            bytes@ == self@.0,
            is_bit_string(self@.0, self@.1),
    {
        proof {
            use_type_invariant(self);
        }
        self.data
    }

    /// How many bits at the end of the octets are padding.
    pub fn padding_bits(&self) -> (n: u8)
        ensures
            n == self@.1,
            is_bit_string(self@.0, self@.1),
    {
        proof {
            use_type_invariant(self);
        }
        self.padding_bits
    }
}

/// The number of bits of padding, and then the octets.
impl<'a, 'b> SimpleAsn1Element<'a> for BitString<'b> {
    const TAG: u8 = 0x03;

    type ParsedType = BitString<'a>;

    type WriteType = BitString<'a>;

    type Value = (Seq<u8>, u8);

    open spec fn tag() -> u8 {
        0x03
    }

    open spec fn parsed_value(parsed: BitString<'a>) -> (Seq<u8>, u8) {
        parsed@
    }

    open spec fn decode(data: Seq<u8>) -> ParseResult<(Seq<u8>, u8)> {
        if data.len() > 0 && is_bit_string(data.skip(1), data[0]) {
            Ok((data.skip(1), data[0]))
        } else {
            Err(ParseError::InvalidValue)
        }
    }

    open spec fn assures(data: Seq<u8>, r: ParseResult<(Seq<u8>, u8)>) -> bool {
        true
    }

    open spec fn writable(val: BitString<'a>) -> bool {
        true
    }

    open spec fn encodes(val: BitString<'a>, data: Seq<u8>) -> bool {
        data == seq![val@.1] + val@.0
    }

    open spec fn adds(val: BitString<'a>, before: Seq<u8>, data: Seq<u8>) -> bool {
        true
    }

    proof fn lemma_tag() {
    }

    fn parse_data(data: &'a [u8]) -> (r: ParseResult<BitString<'a>>) {
        if data.len() == 0 {
            return Err(ParseError::InvalidValue);
        }
        let (_, bytes) = data.split_at(1);
        match BitString::new(bytes, data[0]) {
            Some(b) => Ok(b),
            None => Err(ParseError::InvalidValue),
        }
    }

    fn write_data(dest: &mut Vec<u8>, val: BitString<'a>) {
        dest.push(val.padding_bits());
        dest.extend_from_slice(val.as_bytes());
        proof {
            let data = seq![val@.1] + val@.0;
            assert(Self::encodes(val, data));
            assert(dest@ =~= old(dest)@ + data);
        }
    }
}

} // verus!
