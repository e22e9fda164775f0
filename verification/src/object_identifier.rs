//! ASN.1 `OBJECT IDENTIFIER`.

use vstd::prelude::*;

use crate::element::SimpleAsn1Element;
use crate::error::{ParseError, ParseResult};

verus! {

/// Whether the octet is one of an arc's that is not the arc's last.
pub open spec fn continues(octet: u8) -> bool {
    octet >= 0x80
}

/// Whether `data` is a sequence of arcs, of which there is at least one. An arc is at most four
/// octets long, so no four octets in a row are followed by more of the same arc.
pub open spec fn is_arcs(data: Seq<u8>) -> bool {
    &&& data.len() > 0
    &&& !continues(data.last())
    &&& forall|i: int|
        0 <= i <= data.len() - 4 ==> !(#[trigger] continues(data[i]) && continues(data[i + 1])
            && continues(data[i + 2]) && continues(data[i + 3]))
}

/// An object identifier. Its view is the octets of its arcs.
#[derive(Debug, PartialEq)]
pub struct ObjectIdentifier<'a> {
    der_encoded: &'a [u8],
}

impl<'a> View for ObjectIdentifier<'a> {
    type V = Seq<u8>;

    closed spec fn view(&self) -> Seq<u8> {
        self.der_encoded@
    }
}

impl<'a> Clone for ObjectIdentifier<'a> {
    fn clone(&self) -> (r: ObjectIdentifier<'a>)
        ensures
            r@ == self@,
    {
        proof {
            use_type_invariant(self);
        }
        ObjectIdentifier { der_encoded: self.der_encoded }
    }
}

impl<'a> ObjectIdentifier<'a> {
    #[verifier::type_invariant]
    spec fn well_formed(self) -> bool {
        is_arcs(self.der_encoded@)
    }

    /// The object identifier whose arcs are encoded in `data`, if that is what it holds.
    pub fn from_der(data: &'a [u8]) -> (r: Option<ObjectIdentifier<'a>>)
        ensures
            r is Some <==> is_arcs(data@),
            r matches Some(oid) ==> oid@ == data@,
    {
        if data.len() == 0 {
            return None;
        }
        // The octets of the arc that is being read, and how many of them there are before `i`.
        let mut run: usize = 0;
        let mut i: usize = 0;
        while i < data.len()
            invariant
                i <= data.len(),
                run <= i,
                run < 4,
                i > 0 ==> (run == 0 <==> !continues(data@[i - 1])),
                i > run ==> !continues(data@[i - run - 1]),
                forall|k: int| i - run <= k < i ==> #[trigger] continues(data@[k]),
                forall|k: int|
                    0 <= k <= i - 4 ==> !(#[trigger] continues(data@[k]) && continues(data@[k + 1])
                        && continues(data@[k + 2]) && continues(data@[k + 3])),
            decreases data.len() - i,
        {
            if data[i] >= 0x80 {
                run = run + 1;
                if run == 4 {
                    assert(continues(data@[i - 3]) && continues(data@[i - 2]) && continues(
                        data@[i - 1],
                    ) && continues(data@[i as int]));
                    return None;
                }
            } else {
                run = 0;
            }
            i = i + 1;
        }
        if run > 0 {
            return None;
        }
        Some(ObjectIdentifier { der_encoded: data })
    }

    /// The octets of the arcs.
    pub fn as_der(&self) -> (data: &'a [u8])
        ensures
            data@ == self@,
            is_arcs(self@),
    {
        proof {
            use_type_invariant(self);
        }
        self.der_encoded
    }
}

/// The contents are the octets of the arcs.
impl<'a, 'b> SimpleAsn1Element<'a> for ObjectIdentifier<'b> {
    const TAG: u8 = 0x06;

    type ParsedType = ObjectIdentifier<'a>;

    type WriteType = ObjectIdentifier<'a>;

    type Value = Seq<u8>;

    open spec fn tag() -> u8 {
        0x06
    }

    open spec fn parsed_value(parsed: ObjectIdentifier<'a>) -> Seq<u8> {
        parsed@
    }

    open spec fn decode(data: Seq<u8>) -> ParseResult<Seq<u8>> {
        if is_arcs(data) {
            Ok(data)
        } else {
            Err(ParseError::InvalidValue)
        }
    }

    open spec fn assures(data: Seq<u8>, r: ParseResult<Seq<u8>>) -> bool {
        true
    }

    open spec fn writable(val: ObjectIdentifier<'a>) -> bool {
        true
    }

    open spec fn encodes(val: ObjectIdentifier<'a>, data: Seq<u8>) -> bool {
        data == val@
    }

    open spec fn adds(val: ObjectIdentifier<'a>, before: Seq<u8>, data: Seq<u8>) -> bool {
        true
    }

    proof fn lemma_tag() {
    }

    fn parse_data(data: &'a [u8]) -> (r: ParseResult<ObjectIdentifier<'a>>) {
        match ObjectIdentifier::from_der(data) {
            Some(oid) => Ok(oid),
            None => Err(ParseError::InvalidValue),
        }
    }

    fn write_data(dest: &mut Vec<u8>, val: ObjectIdentifier<'a>) {
        dest.extend_from_slice(val.der_encoded);
        assert(dest@ =~= old(dest)@ + val@);
        assert(Self::encodes(val, val@));
    }
}

} // verus!
