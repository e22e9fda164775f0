//! What elements look like, octet by octet, and what each type makes of its contents.

use vstd::arithmetic::power;
use vstd::arithmetic::power2;
use vstd::prelude::*;

use crate::bit_string::{self, BitString};
use crate::choice::{Alternative, Choice1, Choice2, Choice3};
use crate::element::{self, Asn1Element, SimpleAsn1Element};
use crate::error::{ParseError, ParseResult};
use crate::integer;
use crate::object_identifier::{self, ObjectIdentifier};
use crate::parser;
use crate::printable_string::{self, PrintableString};
use crate::sequence::{Contents, Sequence, SequenceBody};
use crate::tagging::{Explicit, Implicit};
use crate::utf8;
use crate::writer::{self, Writer};

verus! {

/// The tags of the types.
pub proof fn lemma_tags<'a>()
    ensures
        <bool as SimpleAsn1Element<'a>>::tag() == 1,
        <i8 as SimpleAsn1Element<'a>>::tag() == 2,
        <u8 as SimpleAsn1Element<'a>>::tag() == 2,
        <i64 as SimpleAsn1Element<'a>>::tag() == 2,
        <u64 as SimpleAsn1Element<'a>>::tag() == 2,
        <BitString<'a> as SimpleAsn1Element<'a>>::tag() == 3,
        <&'a [u8] as SimpleAsn1Element<'a>>::tag() == 4,
        <() as SimpleAsn1Element<'a>>::tag() == 5,
        <ObjectIdentifier<'a> as SimpleAsn1Element<'a>>::tag() == 6,
        <PrintableString<'a> as SimpleAsn1Element<'a>>::tag() == 19,
        <crate::UtcTime as SimpleAsn1Element<'a>>::tag() == 23,
        <Sequence<'a> as SimpleAsn1Element<'a>>::tag() == 48,
{
}

/// The tag of an implicitly tagged element is context-specific, and constructed just when that of
/// the type inside is. The tag of an explicitly tagged one is context-specific and constructed.
pub proof fn lemma_context_tags<'a, T: SimpleAsn1Element<'a>, const TAG: u8>()
    ensures
        <Implicit<'a, T, TAG> as SimpleAsn1Element<'a>>::tag() == 0x80u8 | TAG | (T::tag()
            & 0x20u8),
        <Explicit<'a, T, TAG> as SimpleAsn1Element<'a>>::tag() == 0x80u8 | 0x20u8 | TAG,
        TAG < 32 ==> <Implicit<'a, T, TAG> as SimpleAsn1Element<'a>>::tag() == 128 + TAG + (
        if T::tag() / 32 % 2 == 1 {
            32int
        } else {
            0
        }),
        TAG < 32 ==> <Explicit<'a, T, TAG> as SimpleAsn1Element<'a>>::tag() == 160 + TAG,
{
    let inner = T::tag();
    let number = TAG;
    assert(number < 32 ==> 0x80u8 | number | (inner & 0x20u8) == 128 + number + (if inner / 32 % 2
        == 1 {
        32int
    } else {
        0
    })) by (bit_vector);
    assert(number < 32 ==> 0x80u8 | 0x20u8 | number == 160 + number) by (bit_vector);
}

/// The value that was read is the one that is handed out.
pub proof fn lemma_parsed_values<'a>(
    b: bool,
    s8: i8,
    n8: u8,
    s64: i64,
    n64: u64,
    octets: &'a [u8],
    text: &'a str,
    oid: ObjectIdentifier<'a>,
    bits: BitString<'a>,
    sequence: Sequence<'a>,
    time: crate::DateTime,
)
    ensures
        <bool as SimpleAsn1Element<'a>>::parsed_value(b) == b,
        <i8 as SimpleAsn1Element<'a>>::parsed_value(s8) == s8,
        <u8 as SimpleAsn1Element<'a>>::parsed_value(n8) == n8,
        <i64 as SimpleAsn1Element<'a>>::parsed_value(s64) == s64,
        <u64 as SimpleAsn1Element<'a>>::parsed_value(n64) == n64,
        <&'a [u8] as SimpleAsn1Element<'a>>::parsed_value(octets) == octets@,
        <PrintableString<'a> as SimpleAsn1Element<'a>>::parsed_value(text) == text@,
        <ObjectIdentifier<'a> as SimpleAsn1Element<'a>>::parsed_value(oid) == oid@,
        <BitString<'a> as SimpleAsn1Element<'a>>::parsed_value(bits) == bits@,
        <Sequence<'a> as SimpleAsn1Element<'a>>::parsed_value(sequence) == sequence@,
        <crate::UtcTime as SimpleAsn1Element<'a>>::parsed_value(time) == time@,
{
}

/// Tagging does not change the value that is handed out.
pub proof fn lemma_tagged_values<'a, T: SimpleAsn1Element<'a>, const TAG: u8>(p: T::ParsedType)
    ensures
        <Implicit<'a, T, TAG> as SimpleAsn1Element<'a>>::parsed_value(p) == T::parsed_value(p),
        <Explicit<'a, T, TAG> as SimpleAsn1Element<'a>>::parsed_value(p) == T::parsed_value(p),
        <T as Asn1Element<'a>>::value_of(p) == T::parsed_value(p),
        <Option<T> as Asn1Element<'a>>::value_of(Some(p)) == Some(T::parsed_value(p)),
        <Option<T> as Asn1Element<'a>>::value_of(None) == None::<T::Value>,
{
}

/// Each variant of a choice holds a value of the type in its place.
pub proof fn lemma_choice_values<
    'a,
    T1: SimpleAsn1Element<'a>,
    T2: SimpleAsn1Element<'a>,
    T3: SimpleAsn1Element<'a>,
>(p1: T1::ParsedType, p2: T2::ParsedType, p3: T3::ParsedType)
    ensures
        <Choice1<'a, T1> as Asn1Element<'a>>::value_of(Choice1::ChoiceA(p1)) == Alternative::<
            T1::Value,
            (),
            (),
        >::First(T1::parsed_value(p1)),
        <Choice2<'a, T1, T2> as Asn1Element<'a>>::value_of(Choice2::ChoiceA(p1)) == Alternative::<
            T1::Value,
            T2::Value,
            (),
        >::First(T1::parsed_value(p1)),
        <Choice2<'a, T1, T2> as Asn1Element<'a>>::value_of(Choice2::ChoiceB(p2)) == Alternative::<
            T1::Value,
            T2::Value,
            (),
        >::Second(T2::parsed_value(p2)),
        <Choice3<'a, T1, T2, T3> as Asn1Element<'a>>::value_of(Choice3::ChoiceA(p1))
            == Alternative::<T1::Value, T2::Value, T3::Value>::First(T1::parsed_value(p1)),
        <Choice3<'a, T1, T2, T3> as Asn1Element<'a>>::value_of(Choice3::ChoiceB(p2))
            == Alternative::<T1::Value, T2::Value, T3::Value>::Second(T2::parsed_value(p2)),
        <Choice3<'a, T1, T2, T3> as Asn1Element<'a>>::value_of(Choice3::ChoiceC(p3))
            == Alternative::<T1::Value, T2::Value, T3::Value>::Third(T3::parsed_value(p3)),
{
}

/// A `NULL` has no contents.
pub proof fn lemma_null_form<'a>(data: Seq<u8>)
    ensures
        <() as SimpleAsn1Element<'a>>::decode(data) == (if data.len() == 0 {
            Ok(())
        } else {
            Err(ParseError::InvalidValue)
        }),
        <() as SimpleAsn1Element<'a>>::encodes((), data) <==> data.len() == 0,
        <() as SimpleAsn1Element<'a>>::writable(()),
{
    assert(data.len() == 0 ==> data =~= Seq::<u8>::empty());
}

/// A `BOOLEAN` is one octet, of ones if it is true and of zeros if it is not.
pub proof fn lemma_boolean_form<'a>(val: bool, data: Seq<u8>)
    ensures
        <bool as SimpleAsn1Element<'a>>::decode(data) == (if data.len() == 1 && data[0] == 255 {
            Ok(true)
        } else if data.len() == 1 && data[0] == 0 {
            Ok(false)
        } else {
            Err(ParseError::InvalidValue)
        }),
        <bool as SimpleAsn1Element<'a>>::encodes(val, data) <==> data.len() == 1 && data[0] == (
        if val {
            255int
        } else {
            0
        }),
        <bool as SimpleAsn1Element<'a>>::writable(val),
{
    if data.len() == 1 {
        assert(data =~= seq![data[0]]);
    }
    assert(seq![0x00u8][0] != seq![0xffu8][0]);
}

/// The contents of an `OCTET STRING` are the value.
pub proof fn lemma_octet_string_form<'a>(val: &'a [u8], data: Seq<u8>)
    ensures
        <&'a [u8] as SimpleAsn1Element<'a>>::decode(data) == Ok::<Seq<u8>, ParseError>(data),
        <&'a [u8] as SimpleAsn1Element<'a>>::encodes(val, data) <==> data == val@,
        <&'a [u8] as SimpleAsn1Element<'a>>::writable(val),
{
}

/// What an integer type reads is the number that the contents are in two's complement, if it is one
/// of the type's.
pub proof fn lemma_integer_forms<'a>(data: Seq<u8>)
    ensures
        ({
            let v = integer::signed_value(data);
            let unfit = data.len() == 0 || data.len() > 1 && (data[0] == 0 && data[1] < 128
                || data[0] == 255 && data[1] >= 128);
            let negative = data.len() > 0 && data[0] >= 128;
            &&& <i8 as SimpleAsn1Element<'a>>::decode(data) == (if unfit {
                Err(ParseError::InvalidValue)
            } else if -128 <= v <= 127 {
                Ok(v as i8)
            } else {
                Err(ParseError::IntegerOverflow)
            })
            &&& <u8 as SimpleAsn1Element<'a>>::decode(data) == (if unfit || negative {
                Err(ParseError::InvalidValue)
            } else if 0 <= v <= 255 {
                Ok(v as u8)
            } else {
                Err(ParseError::IntegerOverflow)
            })
            &&& <i64 as SimpleAsn1Element<'a>>::decode(data) == (if unfit {
                Err(ParseError::InvalidValue)
            } else if i64::MIN <= v <= i64::MAX {
                Ok(v as i64)
            } else {
                Err(ParseError::IntegerOverflow)
            })
            &&& <u64 as SimpleAsn1Element<'a>>::decode(data) == (if unfit || negative {
                Err(ParseError::InvalidValue)
            } else if 0 <= v <= u64::MAX {
                Ok(v as u64)
            } else {
                Err(ParseError::IntegerOverflow)
            })
        }),
{
    reveal(power::pow);
    reveal_with_fuel(power::pow, 9);
    integer::lemma_decode_integer(data, 1, true);
    integer::lemma_decode_integer(data, 1, false);
    integer::lemma_decode_integer(data, 8, true);
    integer::lemma_decode_integer(data, 8, false);
    if data.len() > 0 && data[0] < 0x80 {
        integer::lemma_sign(data);
    }
}

/// What is written of an integer is its shortest two's complement, and each can be written.
pub proof fn lemma_integer_writing<'a>(s8: i8, n8: u8, s64: i64, n64: u64, data: Seq<u8>)
    ensures
        ({
            let fit = data.len() > 0 && !(data.len() > 1 && (data[0] == 0 && data[1] < 128
                || data[0] == 255 && data[1] >= 128));
            let v = integer::signed_value(data);
            &&& <i8 as SimpleAsn1Element<'a>>::encodes(s8, data) <==> fit && v == s8
            &&& <u8 as SimpleAsn1Element<'a>>::encodes(n8, data) <==> fit && v == n8
            &&& <i64 as SimpleAsn1Element<'a>>::encodes(s64, data) <==> fit && v == s64
            &&& <u64 as SimpleAsn1Element<'a>>::encodes(n64, data) <==> fit && v == n64
        }),
        <i8 as SimpleAsn1Element<'a>>::writable(s8),
        <u8 as SimpleAsn1Element<'a>>::writable(n8),
        <i64 as SimpleAsn1Element<'a>>::writable(s64),
        <u64 as SimpleAsn1Element<'a>>::writable(n64),
{
    integer::lemma_encode_integer(s8 as int);
    integer::lemma_encode_integer(n8 as int);
    integer::lemma_encode_integer(s64 as int);
    integer::lemma_encode_integer(n64 as int);
    if data.len() > 0 && !integer::has_redundant_octet(data) {
        integer::lemma_signed_value_canonical(data);
    }
}

/// The characters of a `PrintableString`, by their codes: letters, digits, the space and some
/// marks.
pub proof fn lemma_printable_codes(b: int)
    ensures
        printable_string::is_printable(b) <==> b == 32 || 39 <= b <= 41 || 43 <= b <= 58 || b == 61
            || b == 63 || 65 <= b <= 90 || 97 <= b <= 122,
{
}

/// The contents of a `PrintableString` are the codes of its characters, and each is one that it may
/// hold.
pub proof fn lemma_printable_string_form<'a>(
    val: PrintableString<'a>,
    text: Seq<char>,
    data: Seq<u8>,
)
    ensures
        <PrintableString<'a> as SimpleAsn1Element<'a>>::decode(data) == Ok::<Seq<char>, ParseError>(
            text,
        ) <==> (text.len() == data.len() && forall|i: int|
            0 <= i < data.len() ==> printable_string::is_printable(#[trigger] data[i] as int)
                && text[i] as int == data[i]),
        <PrintableString<'a> as SimpleAsn1Element<'a>>::decode(data) matches Err(e) ==> e
            == ParseError::InvalidValue,
        printable_string::is_printable_data(data) <==> forall|i: int|
            0 <= i < data.len() ==> printable_string::is_printable(#[trigger] data[i] as int),
        printable_string::is_printable_text(text) <==> forall|i: int|
            0 <= i < text.len() ==> printable_string::is_printable(#[trigger] text[i] as int),
        printable_string::is_printable_text(val@) ==> (<PrintableString<
            'a,
        > as SimpleAsn1Element<'a>>::encodes(val, data) <==> data.len() == val@.len() && forall|
            i: int,
        |
            0 <= i < data.len() ==> #[trigger] data[i] == val@[i] as int),
        <PrintableString<'a> as SimpleAsn1Element<'a>>::writable(val),
{
    lemma_ascii_text(data);
    let read = utf8::ascii_text(data);
    if text.len() == data.len() && forall|i: int|
        0 <= i < data.len() ==> printable_string::is_printable(#[trigger] data[i] as int)
            && text[i] as int == data[i] {
        assert forall|i: int| 0 <= i < text.len() implies text[i] == read[i] by {
            assert(printable_string::is_printable(data[i] as int));
        }
        assert(text =~= read);
    }
    if printable_string::is_printable_text(val@) {
        assert forall|i: int| 0 <= i < val@.len() implies #[trigger] val@[i] as u8
            == val@[i] as int by {
            assert(printable_string::is_printable(val@[i] as int));
        }
    }
}

/// A text in ASCII has a character for each octet, whose code the octet is.
pub proof fn lemma_ascii_text(data: Seq<u8>)
    ensures
        utf8::ascii_text(data).len() == data.len(),
        forall|i: int|
            0 <= i < data.len() && data[i] < 0x80 ==> #[trigger] utf8::ascii_text(data)[i] as int
                == data[i],
{
}

/// An arc is up to four octets, of which the last alone is below 128. Where the first four octets,
/// or all of them, are not, there is no arc.
pub proof fn lemma_one_arc(data: Seq<u8>)
    ensures
        (1 <= data.len() <= 4 && data.last() < 128 && forall|i: int|
            0 <= i < data.len() - 1 ==> #[trigger] data[i] >= 128)
            ==> object_identifier::is_arcs(data),
        (forall|i: int| 0 <= i < 4 && i < data.len() ==> #[trigger] data[i] >= 128)
            ==> !object_identifier::is_arcs(data),
{
    if object_identifier::is_arcs(data) && forall|i: int|
        0 <= i < 4 && i < data.len() ==> #[trigger] data[i] >= 128 {
        assert(data.last() == data[data.len() - 1]);
        if data.len() >= 4 {
            assert(object_identifier::continues(data[0]));
            assert(data[1] >= 128 && data[2] >= 128 && data[3] >= 128);
        }
    }
}

/// Octets that follow whole arcs are arcs with them just when they are arcs themselves.
pub proof fn lemma_more_arcs(data: Seq<u8>, more: Seq<u8>)
    requires
        object_identifier::is_arcs(data),
        more.len() > 0,
    ensures
        object_identifier::is_arcs(data + more) <==> object_identifier::is_arcs(more),
{
    let whole = data + more;
    let n = data.len() as int;
    assert(whole.last() == more.last());
    assert(!object_identifier::continues(whole[n - 1]));
    if object_identifier::is_arcs(more) {
        assert forall|i: int| 0 <= i <= whole.len() - 4 implies !(#[trigger]
        object_identifier::continues(whole[i]) && object_identifier::continues(whole[i + 1])
            && object_identifier::continues(whole[i + 2]) && object_identifier::continues(
            whole[i + 3],
        )) by {
            if i >= n {
                assert(whole[i] == more[i - n] && whole[i + 1] == more[i - n + 1]);
                assert(whole[i + 2] == more[i - n + 2] && whole[i + 3] == more[i - n + 3]);
                assert(object_identifier::continues(whole[i]) == object_identifier::continues(
                    more[i - n],
                ));
            } else if i + 3 < n {
                assert(whole[i] == data[i] && whole[i + 1] == data[i + 1]);
                assert(whole[i + 2] == data[i + 2] && whole[i + 3] == data[i + 3]);
                assert(object_identifier::continues(whole[i]) == object_identifier::continues(
                    data[i],
                ));
            } else {
                assert(n - 1 == i || n - 1 == i + 1 || n - 1 == i + 2);
            }
        }
    }
    if object_identifier::is_arcs(whole) {
        assert forall|i: int| 0 <= i <= more.len() - 4 implies !(#[trigger]
        object_identifier::continues(more[i]) && object_identifier::continues(more[i + 1])
            && object_identifier::continues(more[i + 2]) && object_identifier::continues(
            more[i + 3],
        )) by {
            assert(object_identifier::continues(whole[n + i]) == object_identifier::continues(
                more[i],
            ));
            assert(whole[n + i + 1] == more[i + 1] && whole[n + i + 2] == more[i + 2] && whole[n + i
                + 3] == more[i + 3]);
        }
    }
}

/// The contents of an `OBJECT IDENTIFIER` are the octets of its arcs.
pub proof fn lemma_object_identifier_form<'a>(val: ObjectIdentifier<'a>, data: Seq<u8>)
    ensures
        <ObjectIdentifier<'a> as SimpleAsn1Element<'a>>::decode(data) == (
        if object_identifier::is_arcs(data) {
            Ok(data)
        } else {
            Err(ParseError::InvalidValue)
        }),
        <ObjectIdentifier<'a> as SimpleAsn1Element<'a>>::encodes(val, data) <==> data == val@,
        <ObjectIdentifier<'a> as SimpleAsn1Element<'a>>::writable(val),
{
}

/// Up to seven bits at the end of the last octet can be padding, if they are zeros. Octets without
/// padding are always a string of bits, and where there are no octets there is no padding.
pub proof fn lemma_padding(bytes: Seq<u8>, padding_bits: u8)
    ensures
        bit_string::is_bit_string(bytes, 0),
        bit_string::is_bit_string(bytes, padding_bits) <==> padding_bits <= 7 && (if bytes.len()
            == 0 {
            padding_bits == 0
        } else {
            bytes.last() as int % power2::pow2(padding_bits as nat) as int == 0
        }),
{
    power2::lemma2_to64();
    if bytes.len() > 0 {
        let last = bytes.last();
        assert(last & (((1u8 << 0u8) - 1) as u8) == 0) by (bit_vector);
        if padding_bits <= 7 {
            let p = padding_bits;
            assert(p == 0 || p == 1 || p == 2 || p == 3 || p == 4 || p == 5 || p == 6 || p == 7);
            assert(last & (((1u8 << 1u8) - 1) as u8) == last % 2) by (bit_vector);
            assert(last & (((1u8 << 2u8) - 1) as u8) == last % 4) by (bit_vector);
            assert(last & (((1u8 << 3u8) - 1) as u8) == last % 8) by (bit_vector);
            assert(last & (((1u8 << 4u8) - 1) as u8) == last % 16) by (bit_vector);
            assert(last & (((1u8 << 5u8) - 1) as u8) == last % 32) by (bit_vector);
            assert(last & (((1u8 << 6u8) - 1) as u8) == last % 64) by (bit_vector);
            assert(last & (((1u8 << 7u8) - 1) as u8) == last % 128) by (bit_vector);
        }
    }
}

/// The contents of a `BIT STRING` are an octet that is the number of bits of padding, and the
/// octets that hold the bits.
pub proof fn lemma_bit_string_form<'a>(
    val: BitString<'a>,
    bytes: Seq<u8>,
    padding_bits: u8,
    data: Seq<u8>,
)
    ensures
        <BitString<'a> as SimpleAsn1Element<'a>>::decode(Seq::empty()) == Err::<
            (Seq<u8>, u8),
            ParseError,
        >(ParseError::InvalidValue),
        <BitString<'a> as SimpleAsn1Element<'a>>::decode(seq![padding_bits] + bytes) == (
        if bit_string::is_bit_string(bytes, padding_bits) {
            Ok((bytes, padding_bits))
        } else {
            Err(ParseError::InvalidValue)
        }),
        <BitString<'a> as SimpleAsn1Element<'a>>::encodes(val, data) <==> data.len() == val@.0.len()
            + 1 && data[0] == val@.1 && data.skip(1) == val@.0,
        <BitString<'a> as SimpleAsn1Element<'a>>::writable(val),
{
    assert((seq![padding_bits] + bytes).skip(1) =~= bytes);
    assert((seq![val@.1] + val@.0).skip(1) =~= val@.0);
    if data.len() > 0 {
        assert(data =~= seq![data[0]] + data.skip(1));
    }
}

/// The contents of a `SEQUENCE` are what its body adds, and the body is handed what stands before
/// them.
pub proof fn lemma_sequence_form<'a>(val: Contents<'a>, before: Seq<u8>, data: Seq<u8>)
    ensures
        <Sequence<'a> as SimpleAsn1Element<'a>>::decode(data) == Ok::<Seq<u8>, ParseError>(data),
        <Sequence<'a> as SimpleAsn1Element<'a>>::encodes(val, data) ==> exists|b: Seq<u8>|
            #[trigger] val.0.emits(b, data),
        <Sequence<'a> as SimpleAsn1Element<'a>>::adds(val, before, data) <==> val.0.emits(
            before,
            data,
        ),
        val.0.ready() ==> <Sequence<'a> as SimpleAsn1Element<'a>>::writable(val),
{
}

/// A function writes as the body of a `SEQUENCE` just what a call of it adds to what stands before.
pub proof fn lemma_function_emits<F: Fn(Writer) -> Writer>(f: &F, before: Seq<u8>, data: Seq<u8>)
    ensures
        f.emits(before, data) <==> exists|w: Writer, r: Writer| #[trigger]
            call_ensures(*f, (w,), r) && w@ == before && r@ == before + data,
        f.ready() ==> forall|w: Writer| #[trigger] call_requires(*f, (w,)),
        f.ready() ==> forall|w: Writer, r: Writer| #[trigger]
            call_ensures(*f, (w,), r) ==> w@.is_prefix_of(r@),
{
}

/// The contents of an implicitly tagged element are those of the type inside.
pub proof fn lemma_implicit_form<'a, T: SimpleAsn1Element<'a>, const TAG: u8>(
    val: T::WriteType,
    r: ParseResult<T::Value>,
    before: Seq<u8>,
    data: Seq<u8>,
)
    ensures
        <Implicit<'a, T, TAG> as SimpleAsn1Element<'a>>::decode(data) == T::decode(data),
        <Implicit<'a, T, TAG> as SimpleAsn1Element<'a>>::assures(data, r) == T::assures(data, r),
        <Implicit<'a, T, TAG> as SimpleAsn1Element<'a>>::encodes(val, data) == T::encodes(
            val,
            data,
        ),
        <Implicit<'a, T, TAG> as SimpleAsn1Element<'a>>::adds(val, before, data) == T::adds(
            val,
            before,
            data,
        ),
        <Implicit<'a, T, TAG> as SimpleAsn1Element<'a>>::writable(val) == T::writable(val),
{
}

/// The contents of an explicitly tagged element are one whole element of the type inside, and
/// nothing else is written or read.
pub proof fn lemma_explicit_form<'a, T: SimpleAsn1Element<'a>, const TAG: u8>(
    val: T::WriteType,
    r: ParseResult<T::Value>,
    before: Seq<u8>,
    data: Seq<u8>,
)
    ensures
        <Explicit<'a, T, TAG> as SimpleAsn1Element<'a>>::encodes(val, data) <==> exists|
            inner: Seq<u8>,
        | #[trigger]
            T::encodes(val, inner) && data == writer::element(T::tag(), inner),
        <Explicit<'a, T, TAG> as SimpleAsn1Element<'a>>::adds(val, before, data) ==> exists|
            inner: Seq<u8>,
        | #[trigger]
            T::encodes(val, inner) && T::adds(val, Seq::empty(), inner) && data == writer::element(
                T::tag(),
                inner,
            ),
        <Explicit<'a, T, TAG> as SimpleAsn1Element<'a>>::writable(val) == T::writable(val),
        ({
            let (read, rest) = element::read_simple::<T>(data);
            <Explicit<'a, T, TAG> as SimpleAsn1Element<'a>>::decode(data) == (if read is Ok
                && rest.len() > 0 {
                Err(ParseError::ExtraData)
            } else {
                read
            })
        }),
        <Explicit<'a, T, TAG> as SimpleAsn1Element<'a>>::assures(data, r)
            == element::simple_assures::<T>(data),
{
}

/// A length below 128 is one octet. Another is an octet that is 128 more than the number of octets
/// that follow it, and these are the length in base 256, of which the first is not zero.
pub proof fn lemma_length_form(n: nat)
    requires
        n <= usize::MAX,
    ensures
        ({
            let octets = writer::length_octets(n);
            if n < 128 {
                octets.len() == 1 && octets[0] == n
            } else {
                &&& 2 <= octets.len() <= 9
                &&& octets[0] == 128 + (octets.len() - 1)
                &&& octets[1] != 0
                &&& integer::unsigned_value(octets.skip(1)) == n
            }
        }),
{
    if n >= 128 {
        assert(n < integer::pow256(8)) by {
            reveal_with_fuel(integer::pow256, 9);
        }
        lemma_base256(n, 8);
        assert(writer::length_octets(n).skip(1) =~= writer::base256(n));
    }
}

proof fn lemma_base256(n: nat, count: nat)
    requires
        n < integer::pow256(count),
    ensures
        writer::base256(n).len() <= count,
        n > 0 ==> writer::base256(n).len() > 0 && writer::base256(n)[0] != 0,
        integer::unsigned_value(writer::base256(n)) == n,
    decreases count,
{
    if n > 0 {
        lemma_base256(n / 256, (count - 1) as nat);
        integer::lemma_positional(writer::base256(n / 256), (n % 256) as u8);
        if n / 256 > 0 {
            assert(writer::base256(n)[0] == writer::base256(n / 256)[0]);
        }
    }
}

/// An element is its tag, the length of its contents, and its contents.
pub proof fn lemma_element_form(tag: u8, data: Seq<u8>)
    ensures
        writer::element(tag, data) == seq![tag] + writer::length_octets(data.len()) + data,
{
}

proof fn lemma_longer(a: Seq<u8>, b: Seq<u8>)
    ensures
        integer::unsigned_value(a) >= 0,
        integer::unsigned_value(a + b) >= integer::unsigned_value(a),
        b.len() > 0 ==> integer::unsigned_value(a + b) >= 256 * integer::unsigned_value(a),
    decreases a.len() + b.len(),
{
    if b.len() > 0 {
        lemma_longer(a, b.drop_last());
        assert((a + b).drop_last() =~= a + b.drop_last());
    } else {
        assert(a + b =~= a);
        if a.len() > 0 {
            lemma_longer(a.drop_last(), Seq::empty());
        }
    }
}

/// Whether `fit` octets of `input` after those `seen` are a length that is not too large, with one
/// more they are, and `rest` is behind that one.
spec fn stops(seen: Seq<u8>, input: Seq<u8>, count: int, fit: int, rest: Seq<u8>) -> bool {
    &&& 0 <= fit < count
    &&& fit < input.len()
    &&& integer::unsigned_value(seen + input.take(fit)) <= usize::MAX
    &&& usize::MAX < integer::unsigned_value(seen + input.take(fit + 1))
    &&& rest == input.skip(fit + 1)
}

/// What is read of a length after the octets `seen`.
#[verifier::rlimit(50)]
proof fn lemma_read_octets(input: Seq<u8>, count: nat, seen: Seq<u8>)
    requires
        0 < integer::unsigned_value(seen) <= usize::MAX,
    ensures
        ({
            let there = if count <= input.len() {
                count as int
            } else {
                input.len() as int
            };
            let v = integer::unsigned_value(seen + input.take(there));
            let (r, rest) = parser::read_length_octets(
                input,
                count,
                integer::unsigned_value(seen) as nat,
            );
            if v > usize::MAX {
                r == Err::<nat, ParseError>(ParseError::IntegerOverflow) && exists|fit: int|
                    #[trigger] stops(seen, input, count as int, fit, rest)
            } else if input.len() < count {
                r == Err::<nat, ParseError>(ParseError::ShortData) && rest.len() == 0
            } else {
                rest == input.skip(count as int) && r == (if v < 128 {
                    Err(ParseError::InvalidValue)
                } else {
                    Ok(v as nat)
                })
            }
        }),
    decreases count,
{
    let there = if count <= input.len() {
        count as int
    } else {
        input.len() as int
    };
    let whole = seen + input.take(there);
    let high = integer::unsigned_value(seen);
    if count == 0 || input.len() == 0 {
        assert(whole =~= seen);
        assert(input.skip(0) =~= input);
    } else {
        let next = seen.push(input[0]);
        let rest = input.skip(1);
        integer::lemma_positional(seen, input[0]);
        assert(whole =~= next + rest.take(there - 1));
        lemma_longer(next, rest.take(there - 1));
        assert(usize::MAX == 0xffff_ffff || usize::MAX == 0xffff_ffff_ffff_ffff);
        if high * 256 + 255 > usize::MAX {
            assert(seen + input.take(0) =~= seen);
            assert(seen + input.take(1) =~= next);
            assert(stops(seen, input, count as int, 0, rest));
            assert(parser::read_length_octets(input, count, high as nat).1 == rest);
        } else {
            lemma_read_octets(rest, (count - 1) as nat, next);
            assert(parser::read_length_octets(input, count, high as nat)
                == parser::read_length_octets(
                rest,
                (count - 1) as nat,
                integer::unsigned_value(next) as nat,
            ));
            if integer::unsigned_value(whole) > usize::MAX {
                let left = parser::read_length_octets(
                    rest,
                    (count - 1) as nat,
                    integer::unsigned_value(next) as nat,
                ).1;
                let fit = choose|fit: int| #[trigger] stops(next, rest, count - 1, fit, left);
                assert(next + rest.take(fit) =~= seen + input.take(fit + 1));
                assert(next + rest.take(fit + 1) =~= seen + input.take(fit + 2));
                assert(rest.skip(fit + 1) =~= input.skip(fit + 2));
                assert(stops(seen, input, count as int, fit + 1, left));
            }
            if count <= input.len() {
                assert(rest.skip(count - 1) =~= input.skip(count as int));
            }
        }
    }
}

/// A length below 128 is read from one octet. An octet from 129 on says how many follow. They are
/// the length in base 256, and it is refused if it begins with a zero, if it is below 128, or if it
/// is too large. Where octets are missing, the data are too short. A length that is too large is
/// read as far as the octet that makes it so.
pub proof fn lemma_read_length(input: Seq<u8>)
    ensures
        ({
            let (r, rest) = parser::read_length(input);
            if input.len() == 0 {
                r == Err::<nat, ParseError>(ParseError::ShortData) && rest == input
            } else if input[0] < 128 {
                r == Ok::<nat, ParseError>(input[0] as nat) && rest == input.skip(1)
            } else if input[0] == 128 {
                r == Err::<nat, ParseError>(ParseError::InvalidValue) && rest == input.skip(1)
            } else if input.len() == 1 {
                r == Err::<nat, ParseError>(ParseError::ShortData) && rest.len() == 0
            } else if input[1] == 0 {
                r == Err::<nat, ParseError>(ParseError::InvalidValue) && rest == input.skip(2)
            } else {
                let count = input[0] - 128;
                let there = if count < input.len() {
                    count
                } else {
                    input.len() - 1
                };
                let v = integer::unsigned_value(input.subrange(1, 1 + there));
                if v > usize::MAX {
                    r == Err::<nat, ParseError>(ParseError::IntegerOverflow) && exists|fit: int|
                        1 <= fit < there && integer::unsigned_value(
                            #[trigger] input.subrange(1, 1 + fit),
                        ) <= usize::MAX < integer::unsigned_value(input.subrange(1, 2 + fit))
                            && rest == input.skip(2 + fit)
                } else if input.len() < 1 + count {
                    r == Err::<nat, ParseError>(ParseError::ShortData) && rest.len() == 0
                } else {
                    rest == input.skip(1 + count) && r == (if v < 128 {
                        Err(ParseError::InvalidValue)
                    } else {
                        Ok(v as nat)
                    })
                }
            }
        }),
{
    if input.len() > 1 && input[0] > 128 {
        let count = (input[0] - 128) as nat;
        let after = input.skip(1);
        let rest = after.skip(1);
        assert(rest =~= input.skip(2));
        if input[1] != 0 {
            let seen = Seq::<u8>::empty().push(input[1]);
            integer::lemma_positional(Seq::empty(), input[1]);
            lemma_read_octets(rest, (count - 1) as nat, seen);
            let there = if count < input.len() {
                count as int
            } else {
                input.len() - 1
            };
            assert(seen + rest.take(there - 1) =~= input.subrange(1, 1 + there));
            if integer::unsigned_value(input.subrange(1, 1 + there)) > usize::MAX {
                let left = parser::read_length(input).1;
                let fit = choose|fit: int| #[trigger] stops(seen, rest, count - 1, fit, left);
                assert(seen + rest.take(fit) =~= input.subrange(1, 1 + (fit + 1)));
                assert(seen + rest.take(fit + 1) =~= input.subrange(1, 2 + (fit + 1)));
                assert(rest.skip(fit + 1) =~= input.skip(2 + (fit + 1)));
            }
            if count < input.len() {
                assert(rest.skip(count - 1) =~= input.skip(1 + count as int));
            }
        }
    }
}

/// An element is read as its first octet, which is the tag, a length, and as many octets of
/// contents as the length says.
pub proof fn lemma_read_tlv(input: Seq<u8>)
    ensures
        ({
            let (r, rest) = parser::read_tlv(input);
            if input.len() == 0 {
                r == Err::<(u8, Seq<u8>), ParseError>(ParseError::ShortData) && rest == input
            } else {
                let (length, after) = parser::read_length(input.skip(1));
                match length {
                    Err(e) => r == Err::<(u8, Seq<u8>), ParseError>(e) && rest == after,
                    Ok(n) => if n > after.len() {
                        r == Err::<(u8, Seq<u8>), ParseError>(ParseError::ShortData) && rest
                            == after
                    } else {
                        r == Ok::<(u8, Seq<u8>), ParseError>((input[0], after.take(n as int)))
                            && rest == after.skip(n as int)
                    },
                }
            }
        }),
{
}

/// A type reads an element that has its tag, and makes of the contents what it does. An element
/// with another tag is read and refused.
pub proof fn lemma_read_simple<'a, T: SimpleAsn1Element<'a>>(input: Seq<u8>)
    ensures
        ({
            let (r, rest) = element::read_simple::<T>(input);
            &&& rest == parser::read_tlv(input).1
            &&& match parser::read_tlv(input).0 {
                Err(e) => r == Err::<T::Value, ParseError>(e),
                Ok((tag, data)) => if tag == T::tag() {
                    r == T::decode(data)
                } else {
                    r == Err::<T::Value, ParseError>(ParseError::UnexpectedTag { actual: tag })
                },
            }
        }),
        <T as Asn1Element<'a>>::read(input) == element::read_simple::<T>(input),
        <T as Asn1Element<'a>>::read_assures(input) == element::simple_assures::<T>(input),
{
}

/// Where the next octet is the tag of the type, an element that may be left out is read as one that
/// may not, and else nothing is read.
pub proof fn lemma_read_option<'a, T: SimpleAsn1Element<'a>>(input: Seq<u8>)
    ensures
        ({
            let (r, rest) = <Option<T> as Asn1Element<'a>>::read(input);
            if input.len() > 0 && input[0] == T::tag() {
                &&& rest == element::read_simple::<T>(input).1
                &&& match element::read_simple::<T>(input).0 {
                    Ok(v) => r == Ok::<Option<T::Value>, ParseError>(Some(v)),
                    Err(e) => r == Err::<Option<T::Value>, ParseError>(e),
                }
                &&& <Option<T> as Asn1Element<'a>>::read_assures(input)
                    == element::simple_assures::<T>(input)
            } else {
                r == Ok::<Option<T::Value>, ParseError>(None) && rest == input
            }
        }),
{
}

/// Where the next octet is the tag of a type of the choice, an element of the first such type is
/// read, and else nothing is.
pub proof fn lemma_read_choice1<
    'a,
    T1: SimpleAsn1Element<'a>,
>(input: Seq<u8>)
    ensures
        ({
            let (r, rest) = <Choice1<'a, T1> as Asn1Element<'a>>::read(input);
            if input.len() == 0 {
                (r matches Err(e) && e == ParseError::ShortData) && rest == input
            } else if input[0] == T1::tag() {
                &&& rest == element::read_simple::<T1>(input).1
                &&& match element::read_simple::<T1>(input).0 {
                    Ok(v) => r matches Ok(a) && a
                        == Alternative::<T1::Value, (), ()>::First(v),
                    Err(e) => r matches Err(f) && f == e,
                }
                &&& <Choice1<'a, T1> as Asn1Element<'a>>::read_assures(input)
                    == element::simple_assures::<T1>(input)
            } else {
                (r matches Err(e) && e == ParseError::UnexpectedTag { actual: input[0] }) && rest
                    == input
            }
        }),
{
}

/// Where the next octet is the tag of a type of the choice, an element of the first such type is
/// read, and else nothing is.
pub proof fn lemma_read_choice2<
    'a,
    T1: SimpleAsn1Element<'a>,
    T2: SimpleAsn1Element<'a>,
>(input: Seq<u8>)
    ensures
        ({
            let (r, rest) = <Choice2<'a, T1, T2> as Asn1Element<'a>>::read(input);
            if input.len() == 0 {
                (r matches Err(e) && e == ParseError::ShortData) && rest == input
            } else if input[0] == T1::tag() {
                &&& rest == element::read_simple::<T1>(input).1
                &&& match element::read_simple::<T1>(input).0 {
                    Ok(v) => r matches Ok(a) && a
                        == Alternative::<T1::Value, T2::Value, ()>::First(v),
                    Err(e) => r matches Err(f) && f == e,
                }
                &&& <Choice2<'a, T1, T2> as Asn1Element<'a>>::read_assures(input)
                    == element::simple_assures::<T1>(input)
            } else if input[0] == T2::tag() {
                &&& rest == element::read_simple::<T2>(input).1
                &&& match element::read_simple::<T2>(input).0 {
                    Ok(v) => r matches Ok(a) && a
                        == Alternative::<T1::Value, T2::Value, ()>::Second(v),
                    Err(e) => r matches Err(f) && f == e,
                }
                &&& <Choice2<'a, T1, T2> as Asn1Element<'a>>::read_assures(input)
                    == element::simple_assures::<T2>(input)
            } else {
                (r matches Err(e) && e == ParseError::UnexpectedTag { actual: input[0] }) && rest
                    == input
            }
        }),
{
}

/// Where the next octet is the tag of a type of the choice, an element of the first such type is
/// read, and else nothing is.
pub proof fn lemma_read_choice3<
    'a,
    T1: SimpleAsn1Element<'a>,
    T2: SimpleAsn1Element<'a>,
    T3: SimpleAsn1Element<'a>,
>(input: Seq<u8>)
    ensures
        ({
            let (r, rest) = <Choice3<'a, T1, T2, T3> as Asn1Element<'a>>::read(input);
            if input.len() == 0 {
                (r matches Err(e) && e == ParseError::ShortData) && rest == input
            } else if input[0] == T1::tag() {
                &&& rest == element::read_simple::<T1>(input).1
                &&& match element::read_simple::<T1>(input).0 {
                    Ok(v) => r matches Ok(a) && a
                        == Alternative::<T1::Value, T2::Value, T3::Value>::First(v),
                    Err(e) => r matches Err(f) && f == e,
                }
                &&& <Choice3<'a, T1, T2, T3> as Asn1Element<'a>>::read_assures(input)
                    == element::simple_assures::<T1>(input)
            } else if input[0] == T2::tag() {
                &&& rest == element::read_simple::<T2>(input).1
                &&& match element::read_simple::<T2>(input).0 {
                    Ok(v) => r matches Ok(a) && a
                        == Alternative::<T1::Value, T2::Value, T3::Value>::Second(v),
                    Err(e) => r matches Err(f) && f == e,
                }
                &&& <Choice3<'a, T1, T2, T3> as Asn1Element<'a>>::read_assures(input)
                    == element::simple_assures::<T2>(input)
            } else if input[0] == T3::tag() {
                &&& rest == element::read_simple::<T3>(input).1
                &&& match element::read_simple::<T3>(input).0 {
                    Ok(v) => r matches Ok(a) && a
                        == Alternative::<T1::Value, T2::Value, T3::Value>::Third(v),
                    Err(e) => r matches Err(f) && f == e,
                }
                &&& <Choice3<'a, T1, T2, T3> as Asn1Element<'a>>::read_assures(input)
                    == element::simple_assures::<T3>(input)
            } else {
                (r matches Err(e) && e == ParseError::UnexpectedTag { actual: input[0] }) && rest
                    == input
            }
        }),
{
}

} // verus!
