//! ASN.1 `SEQUENCE`.

use vstd::prelude::*;

use crate::element::SimpleAsn1Element;
use crate::error::{ParseError, ParseResult};
use crate::parser::{parse, Parser};
use crate::tagging::CONSTRUCTED;
use crate::writer::Writer;

verus! {

/// Represents an ASN.1 `SEQUENCE`. By itself, this merely indicates a sequence of bytes that are
/// claimed to form an ASN.1 sequence. In almost any circumstance, you'll want to immediately call
/// `Sequence.parse` on this value to decode the actual contents therein. Its view is those bytes.
#[derive(Debug, PartialEq)]
pub struct Sequence<'a> {
    data: &'a [u8],
}

impl<'a> View for Sequence<'a> {
    type V = Seq<u8>;

    closed spec fn view(&self) -> Seq<u8> {
        self.data@
    }
}

impl<'a> Sequence<'a> {
    pub(crate) fn new(data: &'a [u8]) -> (s: Sequence<'a>)
        ensures
            s@ == data@,
    {
        Sequence { data }
    }

    /// Parses the contents of the `Sequence`. Behaves the same as the module-level `parse`
    /// function.
    pub fn parse<T, E: From<ParseError>, F: Fn(&mut Parser) -> Result<T, E>>(self, f: F) -> (r:
        Result<T, E>)
        requires
            forall|p: &mut Parser| p@ == self@ ==> #[trigger] call_requires(f, (p,)),
        ensures
            exists|p: &mut Parser, read: Result<T, E>| #[trigger]
                call_ensures(f, (p,), read) && p@ == self@ && match read {
                    Err(e) => r == Err::<T, E>(e),
                    Ok(v) => if final(p)@.len() == 0 {
                        r == Ok::<T, E>(v)
                    } else {
                        r matches Err(e) && call_ensures(E::from, (ParseError::ExtraData,), e)
                    },
                },
    {
        parse(self.data, f)
    }
}

/// What the contents of a sequence are written by.
pub trait SequenceBody {
    /// Whether `write` may be called.
    spec fn ready(&self) -> bool;

    /// Whether `write` may add `data` to a writer that has written `before`.
    spec fn emits(&self, before: Seq<u8>, data: Seq<u8>) -> bool;

    /// Writes the elements of the sequence.
    fn write(&self, writer: Writer) -> (r: Writer)
        requires
            self.ready(),
        ensures
            exists|data: Seq<u8>| #[trigger]
                self.emits(writer@, data) && r@ == writer@ + data,
    ;
}

/// A function that takes a writer and hands it back with more written to it.
impl<F: Fn(Writer) -> Writer> SequenceBody for F {
    /// The function takes any writer, and leaves what has been written before.
    open spec fn ready(&self) -> bool {
        &&& forall|w: Writer| #[trigger] call_requires(*self, (w,))
        &&& forall|w: Writer, r: Writer| #[trigger]
            call_ensures(*self, (w,), r) ==> w@.is_prefix_of(r@)
    }

    open spec fn emits(&self, before: Seq<u8>, data: Seq<u8>) -> bool {
        exists|w: Writer, r: Writer| #[trigger]
            call_ensures(*self, (w,), r) && w@ == before && r@ == before + data
    }

    fn write(&self, writer: Writer) -> (r: Writer) {
        let ghost before = writer@;
        let r = self(writer);
        proof {
            let data = r@.skip(before.len() as int);
            assert(r@ == before + data);
            assert(self.emits(before, data));
        }
        r
    }
}

/// The contents of a sequence that is to be written.
pub struct Contents<'a>(pub &'a dyn SequenceBody);

impl<'a, 'b> SimpleAsn1Element<'a> for Sequence<'b> {
    const TAG: u8 = 0x10 | CONSTRUCTED;

    type ParsedType = Sequence<'a>;

    type WriteType = Contents<'a>;

    type Value = Seq<u8>;

    open spec fn tag() -> u8 {
        0x30
    }

    open spec fn parsed_value(parsed: Sequence<'a>) -> Seq<u8> {
        parsed@
    }

    open spec fn decode(data: Seq<u8>) -> ParseResult<Seq<u8>> {
        Ok(data)
    }

    open spec fn assures(data: Seq<u8>, r: ParseResult<Seq<u8>>) -> bool {
        true
    }

    open spec fn writable(val: Contents<'a>) -> bool {
        val.0.ready()
    }

    open spec fn encodes(val: Contents<'a>, data: Seq<u8>) -> bool {
        exists|before: Seq<u8>| #[trigger] val.0.emits(before, data)
    }

    open spec fn adds(val: Contents<'a>, before: Seq<u8>, data: Seq<u8>) -> bool {
        val.0.emits(before, data)
    }

    proof fn lemma_tag() {
        assert(0x10u8 | CONSTRUCTED == 0x30u8) by (bit_vector);
    }

    fn parse_data(data: &'a [u8]) -> (r: ParseResult<Sequence<'a>>) {
        Ok(Sequence::new(data))
    }

    /// The body is handed a writer that writes to the end of `dest`, and nothing is written but
    /// what the body adds.
    fn write_data(dest: &mut Vec<u8>, val: Contents<'a>) {
        let mut storage: Vec<u8> = Vec::new();
        core::mem::swap(dest, &mut storage);
        let written = val.0.write(Writer::new_with_storage(storage));
        *dest = written.into_storage();
        proof {
            let data = choose|data: Seq<u8>| #[trigger]
                val.0.emits(old(dest)@, data) && dest@ == old(dest)@ + data;
            assert(Self::encodes(val, data));
        }
    }
}

} // verus!
