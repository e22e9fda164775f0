//! What holds of reading and writing together.

use vstd::prelude::*;

use crate::bit_string::{self, BitString};
use crate::choice::{Alternative, Choice1, Choice2, Choice3};
use crate::element::{self, Asn1Element, SimpleAsn1Element};
use crate::error::{ParseError, ParseResult};
use crate::integer;
use crate::object_identifier::{self, ObjectIdentifier};
use crate::parser;
use crate::printable_string::{self, PrintableString};
use crate::sequence::{Contents, Sequence, SequenceBody};
use crate::tagging::{Explicit, Implicit};
use crate::time::Civil;
use crate::utc_time::{self, UtcTime};
use crate::writer::{self, Writer};

verus! {

/// Whether reading a `T` off the front of `input` gives `result` and leaves `rest`.
pub open spec fn reads<'a, T: Asn1Element<'a>>(
    input: Seq<u8>,
    result: ParseResult<T::Value>,
    rest: Seq<u8>,
) -> bool {
    T::read(input) == (result, rest)
}

proof fn lemma_read_base256(n: nat, tail: Seq<u8>, count: nat)
    requires
        0 < n <= usize::MAX,
    ensures
        parser::read_length_octets(
            writer::base256(n) + tail,
            writer::base256(n).len() + count,
            0,
        ) == parser::read_length_octets(tail, count, n),
    decreases n,
{
    let last = (n % 256) as u8;
    let high = n / 256;
    let input = seq![last] + tail;
    assert(writer::base256(n) + tail =~= writer::base256(high) + input);
    if high > 0 {
        lemma_read_base256(high, input, count + 1);
    } else {
        assert(writer::base256(high) + input =~= input);
    }
    assert(usize::MAX == 0xffff_ffff || usize::MAX == 0xffff_ffff_ffff_ffff);
    assert(high * 256 + 255 <= usize::MAX);
    assert(input[0] == last && input.skip(1) =~= tail);
}

proof fn lemma_base256_len(n: nat, count: nat)
    requires
        n < integer::pow256(count),
    ensures
        writer::base256(n).len() <= count,
        n > 0 ==> writer::base256(n).len() > 0,
    decreases count,
{
    if n > 0 {
        lemma_base256_len(n / 256, (count - 1) as nat);
    }
}

/// A length is read back as it was written.
pub proof fn lemma_length_round_trip(n: nat, rest: Seq<u8>)
    requires
        n <= usize::MAX,
    ensures
        parser::read_length(writer::length_octets(n) + rest) == (
            Ok::<nat, ParseError>(n),
            rest,
        ),
{
    let input = writer::length_octets(n) + rest;
    if n < 128 {
        assert(input.skip(1) =~= rest);
    } else {
        assert(n < integer::pow256(8)) by {
            reveal_with_fuel(integer::pow256, 9);
        }
        lemma_base256_len(n, 8);
        lemma_read_base256(n, rest, 0);
        assert(input.skip(1) =~= writer::base256(n) + rest);
    }
}

proof fn lemma_length_octets_canonical(input: Seq<u8>, count: nat, high: nat)
    requires
        parser::read_length_octets(input, count, high).0 is Ok,
    ensures
        ({
            let (n, rest) = parser::read_length_octets(input, count, high);
            &&& n->Ok_0 >= 128
            &&& writer::base256(high) + input == writer::base256(n->Ok_0) + rest
            &&& writer::base256(n->Ok_0).len() == writer::base256(high).len() + count
        }),
    decreases count,
{
    if count > 0 {
        let next = high * 256 + input[0] as nat;
        lemma_length_octets_canonical(input.skip(1), (count - 1) as nat, next);
        assert(writer::base256(next) == writer::base256(high).push(input[0]));
        assert(writer::base256(high) + input =~= writer::base256(next) + input.skip(1));
    }
}

/// A length has one encoding: from no other octets than those that are written of it is it read.
pub proof fn lemma_length_canonical(input: Seq<u8>)
    requires
        parser::read_length(input).0 is Ok,
    ensures
        input == writer::length_octets(parser::read_length(input).0->Ok_0) + parser::read_length(
            input,
        ).1,
{
    if input[0] >= 0x80 {
        lemma_length_octets_canonical(input.skip(1), (input[0] - 0x80) as nat, 0);
        let (n, rest) = parser::read_length(input);
        assert(writer::base256(0) + input.skip(1) =~= input.skip(1));
        assert(writer::base256(n->Ok_0).len() == input[0] - 0x80);
        assert(input =~= seq![input[0]] + (writer::base256(n->Ok_0) + rest));
        assert(input =~= writer::length_octets(n->Ok_0) + rest);
    } else {
        assert(input =~= seq![input[0]] + input.skip(1));
    }
}

/// The tag and the contents of an element are read back as they were written, and nothing that
/// follows the element is touched.
pub proof fn lemma_tlv_round_trip(tag: u8, data: Seq<u8>, rest: Seq<u8>)
    requires
        data.len() <= usize::MAX,
    ensures
        parser::read_tlv(writer::element(tag, data) + rest) == (
            Ok::<(u8, Seq<u8>), ParseError>((tag, data)),
            rest,
        ),
{
    let input = writer::element(tag, data) + rest;
    assert(input.skip(1) =~= writer::length_octets(data.len()) + (data + rest));
    lemma_length_round_trip(data.len(), data + rest);
    assert((data + rest).take(data.len() as int) =~= data);
    assert((data + rest).skip(data.len() as int) =~= rest);
}

/// An element has one encoding: a tag and contents are read from no other octets than those that
/// are written of them.
pub proof fn lemma_tlv_canonical(input: Seq<u8>)
    requires
        parser::read_tlv(input).0 is Ok,
    ensures
        ({
            let (tlv, rest) = parser::read_tlv(input);
            input == writer::element(tlv->Ok_0.0, tlv->Ok_0.1) + rest
        }),
{
    lemma_length_canonical(input.skip(1));
    let (tlv, rest) = parser::read_tlv(input);
    let after = parser::read_length(input.skip(1)).1;
    assert(after =~= tlv->Ok_0.1 + rest);
    assert(input =~= seq![input[0]] + input.skip(1));
    assert(input =~= writer::element(tlv->Ok_0.0, tlv->Ok_0.1) + rest);
}

proof fn lemma_length_octets_rest(input: Seq<u8>, count: nat, high: nat)
    ensures
        parser::read_length_octets(input, count, high).1.is_suffix_of(input),
    decreases count,
{
    if count > 0 && input.len() > 0 {
        lemma_length_octets_rest(
            input.skip(1),
            (count - 1) as nat,
            high * 256 + input[0] as nat,
        );
    }
}

/// Whatever comes of reading an element, what is left is the end of what there was.
pub proof fn lemma_rest_is_suffix<'a, T: SimpleAsn1Element<'a>>(input: Seq<u8>)
    ensures
        element::read_simple::<T>(input).1.is_suffix_of(input),
{
    if input.len() > 0 {
        let after = input.skip(1);
        if after.len() > 0 && after[0] >= 0x80 {
            lemma_length_octets_rest(after.skip(1), (after[0] - 0x80) as nat, 0);
        }
    }
}

/// What is read of an element of the type `T` that was written is what `T` makes of the contents
/// that were written, and nothing that follows the element is touched. Any other type finds the
/// wrong tag.
pub proof fn lemma_element_round_trip<'a, T: SimpleAsn1Element<'a>>(
    tag: u8,
    data: Seq<u8>,
    rest: Seq<u8>,
)
    requires
        data.len() <= usize::MAX,
    ensures
        element::read_simple::<T>(writer::element(tag, data) + rest) == (
            if tag == T::tag() {
                T::decode(data)
            } else {
                Err(ParseError::UnexpectedTag { actual: tag })
            },
            rest,
        ),
{
    lemma_tlv_round_trip(tag, data, rest);
}

/// From no other octets than an element with the tag of `T` is a `T` read, and it is what `T` makes
/// of the contents of that element.
pub proof fn lemma_element_canonical<'a, T: SimpleAsn1Element<'a>>(input: Seq<u8>)
    requires
        element::read_simple::<T>(input).0 is Ok,
    ensures
        exists|data: Seq<u8>|
            input == #[trigger] writer::element(T::tag(), data) + element::read_simple::<T>(
                input,
            ).1 && T::decode(data) == element::read_simple::<T>(input).0,
{
    lemma_tlv_canonical(input);
    let data = parser::read_tlv(input).0->Ok_0.1;
    assert(input == writer::element(T::tag(), data) + element::read_simple::<T>(input).1);
}

/// What is known of an element that has been read is what its type assures of the contents.
pub proof fn lemma_element_assures<'a, T: SimpleAsn1Element<'a>>(data: Seq<u8>, rest: Seq<u8>)
    requires
        data.len() <= usize::MAX,
    ensures
        element::simple_assures::<T>(writer::element(T::tag(), data) + rest) == T::assures(
            data,
            T::decode(data),
        ),
{
    lemma_tlv_round_trip(T::tag(), data, rest);
}

/// A time that was written as a whole element is read back, with or without the seconds, and
/// nothing that follows the element is touched. `UtcTime` assures it where the element is read.
pub proof fn lemma_utc_time_round_trip<'a>(c: Civil, seconds: bool, rest: Seq<u8>)
    requires
        utc_time::is_clock_time(c, seconds),
        1950 <= c.year < 2050,
        element::simple_assures::<'a, UtcTime>(
            writer::element(
                <UtcTime as SimpleAsn1Element<'a>>::tag(),
                utc_time::utc_octets(c, seconds),
            ) + rest,
        ),
    ensures
        element::read_simple::<'a, UtcTime>(
            writer::element(
                <UtcTime as SimpleAsn1Element<'a>>::tag(),
                utc_time::utc_octets(c, seconds),
            ) + rest,
        ) == (Ok::<Civil, ParseError>(c), rest),
{
    lemma_tlv_round_trip(
        <UtcTime as SimpleAsn1Element<'a>>::tag(),
        utc_time::utc_octets(c, seconds),
        rest,
    );
}

/// The contents from which a `NULL` is read are just those that are written of one.
pub proof fn lemma_null<'a>(data: Seq<u8>)
    ensures
        <() as SimpleAsn1Element<'a>>::decode(data) is Ok <==> <() as SimpleAsn1Element<
            'a,
        >>::encodes((), data),
{
    assert(data.len() == 0 ==> data =~= Seq::<u8>::empty());
}

/// The contents from which a `BOOLEAN` is read are just those that are written of it.
pub proof fn lemma_boolean<'a>(val: bool, data: Seq<u8>)
    ensures
        <bool as SimpleAsn1Element<'a>>::decode(data) == Ok::<bool, ParseError>(val)
            <==> <bool as SimpleAsn1Element<'a>>::encodes(val, data),
{
    assert(seq![0x00u8][0] != seq![0xffu8][0]);
}

/// The contents from which an `OCTET STRING` is read are just those that are written of it.
pub proof fn lemma_octet_string<'a>(val: &'a [u8], data: Seq<u8>)
    ensures
        <&'a [u8] as SimpleAsn1Element<'a>>::decode(data) == Ok::<Seq<u8>, ParseError>(val@)
            <==> <&'a [u8] as SimpleAsn1Element<'a>>::encodes(val, data),
{
}

/// The contents from which a `PrintableString` is read are just those that are written of it.
pub proof fn lemma_printable_string<'a>(val: PrintableString<'a>, data: Seq<u8>)
    requires
        printable_string::is_printable_text(val@),
    ensures
        <PrintableString<'a> as SimpleAsn1Element<'a>>::decode(data) == Ok::<Seq<char>, ParseError>(
            val@,
        ) <==> <PrintableString<'a> as SimpleAsn1Element<'a>>::encodes(val, data),
{
    let text = crate::utf8::ascii_text(data);
    if <PrintableString<'a> as SimpleAsn1Element<'a>>::encodes(val, data) {
        assert forall|i: int| 0 <= i < data.len() implies printable_string::is_printable(
            #[trigger] data[i] as int,
        ) && text[i] == val@[i] by {
            assert(printable_string::is_printable(val@[i] as int));
        }
        assert(text =~= val@);
    }
    if <PrintableString<'a> as SimpleAsn1Element<'a>>::decode(data) == Ok::<Seq<char>, ParseError>(
        val@,
    ) {
        assert forall|i: int| 0 <= i < data.len() implies #[trigger] data[i] == val@[i] as u8 by {
            assert(printable_string::is_printable(data[i] as int));
            assert(val@[i] == text[i]);
        }
    }
}

/// What is read as a `PrintableString` holds only the characters that it may, and other contents
/// are refused.
pub proof fn lemma_printable_string_characters<'a>(data: Seq<u8>)
    ensures
        match <PrintableString<'a> as SimpleAsn1Element<'a>>::decode(data) {
            Ok(text) => printable_string::is_printable_text(text),
            Err(e) => e == ParseError::InvalidValue && exists|i: int|
                0 <= i < data.len() && !printable_string::is_printable(#[trigger] data[i] as int),
        },
{
    let text = crate::utf8::ascii_text(data);
    if printable_string::is_printable_data(data) {
        assert forall|i: int| 0 <= i < text.len() implies printable_string::is_printable(
            #[trigger] text[i] as int,
        ) by {
            assert(printable_string::is_printable(data[i] as int));
        }
    }
}

/// The contents from which an `i8` is read are just those that are written of it.
pub proof fn lemma_i8<'a>(val: i8, data: Seq<u8>)
    ensures
        <i8 as SimpleAsn1Element<'a>>::decode(data) == Ok::<i8, ParseError>(val)
            <==> <i8 as SimpleAsn1Element<'a>>::encodes(val, data),
{
    reveal_with_fuel(integer::pow256, 9);
    lemma_integer(val as int, data, 1, true);
}

/// The contents from which a `u8` is read are just those that are written of it.
pub proof fn lemma_u8<'a>(val: u8, data: Seq<u8>)
    ensures
        <u8 as SimpleAsn1Element<'a>>::decode(data) == Ok::<u8, ParseError>(val)
            <==> <u8 as SimpleAsn1Element<'a>>::encodes(val, data),
{
    reveal_with_fuel(integer::pow256, 9);
    lemma_integer(val as int, data, 1, false);
}

/// The contents from which an `i64` is read are just those that are written of it.
pub proof fn lemma_i64<'a>(val: i64, data: Seq<u8>)
    ensures
        <i64 as SimpleAsn1Element<'a>>::decode(data) == Ok::<i64, ParseError>(val)
            <==> <i64 as SimpleAsn1Element<'a>>::encodes(val, data),
{
    reveal_with_fuel(integer::pow256, 9);
    lemma_integer(val as int, data, 8, true);
}

/// The contents from which a `u64` is read are just those that are written of it.
pub proof fn lemma_u64<'a>(val: u64, data: Seq<u8>)
    ensures
        <u64 as SimpleAsn1Element<'a>>::decode(data) == Ok::<u64, ParseError>(val)
            <==> <u64 as SimpleAsn1Element<'a>>::encodes(val, data),
{
    reveal_with_fuel(integer::pow256, 9);
    lemma_integer(val as int, data, 8, false);
}

proof fn lemma_integer(v: int, data: Seq<u8>, size: nat, signed: bool)
    requires
        size == 1 || size == 8,
        integer::in_range(v, size, signed),
    ensures
        integer::decode_integer(data, size, signed) == Ok::<int, ParseError>(v) <==> data
            == integer::encode_integer(v),
        integer::decode_integer(data, size, signed) matches Ok(w) ==> integer::in_range(
            w,
            size,
            signed,
        ),
{
    integer::lemma_integer_round_trip(v, size, signed);
    if integer::decode_integer(data, size, signed) is Ok {
        integer::lemma_decode_range(data, size, signed);
        integer::lemma_integer_canonical(data, size, signed);
    }
}

/// The contents from which an `OBJECT IDENTIFIER` is read are just those that are written of it.
pub proof fn lemma_object_identifier<'a>(val: ObjectIdentifier<'a>, data: Seq<u8>)
    requires
        object_identifier::is_arcs(val@),
    ensures
        <ObjectIdentifier<'a> as SimpleAsn1Element<'a>>::decode(data) == Ok::<Seq<u8>, ParseError>(
            val@,
        ) <==> <ObjectIdentifier<'a> as SimpleAsn1Element<'a>>::encodes(val, data),
{
}

/// The contents from which a `BIT STRING` is read are just those that are written of it.
pub proof fn lemma_bit_string<'a>(val: BitString<'a>, data: Seq<u8>)
    requires
        bit_string::is_bit_string(val@.0, val@.1),
    ensures
        <BitString<'a> as SimpleAsn1Element<'a>>::decode(data) == Ok::<(Seq<u8>, u8), ParseError>(
            val@,
        ) <==> <BitString<'a> as SimpleAsn1Element<'a>>::encodes(val, data),
{
    let written = seq![val@.1] + val@.0;
    assert(written.skip(1) =~= val@.0);
    if data.len() > 0 {
        assert(data =~= seq![data[0]] + data.skip(1));
    }
}

/// What is read of a `SEQUENCE` is what its body wrote.
pub proof fn lemma_sequence<'a>(val: Contents<'a>, data: Seq<u8>)
    requires
        <Sequence<'a> as SimpleAsn1Element<'a>>::encodes(val, data),
    ensures
        exists|before: Seq<u8>| #[trigger] val.0.emits(before, data),
        <Sequence<'a> as SimpleAsn1Element<'a>>::decode(data) == Ok::<Seq<u8>, ParseError>(data),
{
}

/// A function can be the body of a `SEQUENCE` if it takes any writer and only adds to what has
/// been written, and the body then writes what the function adds.
pub proof fn lemma_function_body<F: Fn(Writer) -> Writer>(f: &F)
    requires
        forall|w: Writer| #[trigger] call_requires(*f, (w,)),
        forall|w: Writer, r: Writer| #[trigger]
            call_ensures(*f, (w,), r) ==> w@.is_prefix_of(r@),
    ensures
        f.ready(),
        forall|before: Seq<u8>, data: Seq<u8>| #[trigger]
            f.emits(before, data) ==> exists|w: Writer, r: Writer| #[trigger]
                call_ensures(*f, (w,), r) && w@ == before && r@ == before + data,
{
}

/// `Implicit` changes the tag and nothing else.
pub proof fn lemma_implicit<'a, T: SimpleAsn1Element<'a>, const TAG: u8>(
    val: T::WriteType,
    data: Seq<u8>,
    rest: Seq<u8>,
)
    requires
        data.len() <= usize::MAX,
    ensures
        <Implicit<'a, T, TAG> as SimpleAsn1Element<'a>>::encodes(val, data) == T::encodes(
            val,
            data,
        ),
        forall|before: Seq<u8>|
            <Implicit<'a, T, TAG> as SimpleAsn1Element<'a>>::adds(val, before, data)
                == #[trigger] T::adds(val, before, data),
        element::read_simple::<Implicit<'a, T, TAG>>(
            writer::element(
                <Implicit<'a, T, TAG> as SimpleAsn1Element<'a>>::tag(),
                data,
            ) + rest,
        ) == (T::decode(data), rest),
{
    lemma_element_round_trip::<Implicit<'a, T, TAG>>(
        <Implicit<'a, T, TAG> as SimpleAsn1Element<'a>>::tag(),
        data,
        rest,
    );
}

/// `Explicit` puts a whole element of the type `T` into another, and takes it out again. Anything
/// behind that element is refused.
pub proof fn lemma_explicit<'a, T: SimpleAsn1Element<'a>, const TAG: u8>(
    val: T::WriteType,
    inner: Seq<u8>,
    extra: Seq<u8>,
)
    requires
        inner.len() <= usize::MAX,
        T::encodes(val, inner),
    ensures
        <Explicit<'a, T, TAG> as SimpleAsn1Element<'a>>::encodes(
            val,
            writer::element(T::tag(), inner),
        ),
        <Explicit<'a, T, TAG> as SimpleAsn1Element<'a>>::decode(
            writer::element(T::tag(), inner) + extra,
        ) == (if T::decode(inner) is Ok && extra.len() > 0 {
            Err(ParseError::ExtraData)
        } else {
            T::decode(inner)
        }),
{
    lemma_element_round_trip::<T>(T::tag(), inner, extra);
}

/// From no other contents than one whole element of the type `T` is an `Explicit` read.
pub proof fn lemma_explicit_canonical<'a, T: SimpleAsn1Element<'a>, const TAG: u8>(data: Seq<u8>)
    requires
        <Explicit<'a, T, TAG> as SimpleAsn1Element<'a>>::decode(data) is Ok,
    ensures
        exists|inner: Seq<u8>|
            data == #[trigger] writer::element(T::tag(), inner) && T::decode(inner) == <Explicit<
                'a,
                T,
                TAG,
            > as SimpleAsn1Element<'a>>::decode(data),
{
    lemma_element_canonical::<T>(data);
    let rest = element::read_simple::<T>(data).1;
    let inner = choose|inner: Seq<u8>|
        data == #[trigger] writer::element(T::tag(), inner) + rest && T::decode(inner)
            == element::read_simple::<T>(data).0;
    assert(writer::element(T::tag(), inner) + rest =~= writer::element(T::tag(), inner));
}

/// An element that may be left out is read where it is there, and where it is not, nothing is.
pub proof fn lemma_option<'a, T: SimpleAsn1Element<'a>>(input: Seq<u8>, data: Seq<u8>)
    requires
        data.len() <= usize::MAX,
    ensures
        input.len() == 0 || input[0] != T::tag() ==> reads::<'a, Option<T>>(
            input,
            Ok(None),
            input,
        ),
        reads::<'a, Option<T>>(
            writer::element(T::tag(), data) + input,
            match T::decode(data) {
                Ok(v) => Ok(Some(v)),
                Err(e) => Err(e),
            },
            input,
        ),
{
    lemma_element_round_trip::<T>(T::tag(), data, input);
    assert((writer::element(T::tag(), data) + input)[0] == T::tag());
}

/// A choice is read as its one type. Where there is no element, or none of that type,
/// nothing is read.
pub proof fn lemma_choice1<
    'a,
    T1: SimpleAsn1Element<'a>,
>(input: Seq<u8>, data: Seq<u8>)
    requires
        data.len() <= usize::MAX,
    ensures
        input.len() == 0 ==> reads::<'a, Choice1<'a, T1>>(input, Err(ParseError::ShortData), input),
        input.len() > 0
            && input[0] != T1::tag() ==> reads::<'a, Choice1<'a, T1>>(
            input,
            Err(ParseError::UnexpectedTag { actual: input[0] }),
            input,
        ),
        reads::<'a, Choice1<'a, T1>>(
            writer::element(T1::tag(), data) + input,
            match T1::decode(data) {
                Ok(v) => Ok(Alternative::First(v)),
                Err(e) => Err(e),
            },
            input,
        ),
{
    lemma_element_round_trip::<T1>(T1::tag(), data, input);
    assert((writer::element(T1::tag(), data) + input)[0] == T1::tag());
}

/// A choice is read as the first of its two types whose tag is there. Where there is no element, or
/// none of these types, nothing is read.
pub proof fn lemma_choice2<
    'a,
    T1: SimpleAsn1Element<'a>,
    T2: SimpleAsn1Element<'a>,
>(input: Seq<u8>, data: Seq<u8>)
    requires
        data.len() <= usize::MAX,
    ensures
        input.len() == 0 ==> reads::<'a, Choice2<'a, T1, T2>>(
            input,
            Err(ParseError::ShortData),
            input,
        ),
        input.len() > 0
            && input[0] != T1::tag()
            && input[0] != T2::tag() ==> reads::<'a, Choice2<'a, T1, T2>>(
            input,
            Err(ParseError::UnexpectedTag { actual: input[0] }),
            input,
        ),
        reads::<'a, Choice2<'a, T1, T2>>(
            writer::element(T1::tag(), data) + input,
            match T1::decode(data) {
                Ok(v) => Ok(Alternative::First(v)),
                Err(e) => Err(e),
            },
            input,
        ),
        T2::tag() != T1::tag() ==> reads::<'a, Choice2<'a, T1, T2>>(
            writer::element(T2::tag(), data) + input,
            match T2::decode(data) {
                Ok(v) => Ok(Alternative::Second(v)),
                Err(e) => Err(e),
            },
            input,
        ),
{
    lemma_element_round_trip::<T1>(T1::tag(), data, input);
    assert((writer::element(T1::tag(), data) + input)[0] == T1::tag());
    lemma_element_round_trip::<T2>(T2::tag(), data, input);
    assert((writer::element(T2::tag(), data) + input)[0] == T2::tag());
}

/// A choice is read as the first of its three types whose tag is there. Where there is no element,
/// or none of these types, nothing is read.
pub proof fn lemma_choice3<
    'a,
    T1: SimpleAsn1Element<'a>,
    T2: SimpleAsn1Element<'a>,
    T3: SimpleAsn1Element<'a>,
>(input: Seq<u8>, data: Seq<u8>)
    requires
        data.len() <= usize::MAX,
    ensures
        input.len() == 0 ==> reads::<'a, Choice3<'a, T1, T2, T3>>(
            input,
            Err(ParseError::ShortData),
            input,
        ),
        input.len() > 0
            && input[0] != T1::tag()
            && input[0] != T2::tag()
            && input[0] != T3::tag() ==> reads::<'a, Choice3<'a, T1, T2, T3>>(
            input,
            Err(ParseError::UnexpectedTag { actual: input[0] }),
            input,
        ),
        reads::<'a, Choice3<'a, T1, T2, T3>>(
            writer::element(T1::tag(), data) + input,
            match T1::decode(data) {
                Ok(v) => Ok(Alternative::First(v)),
                Err(e) => Err(e),
            },
            input,
        ),
        T2::tag() != T1::tag() ==> reads::<'a, Choice3<'a, T1, T2, T3>>(
            writer::element(T2::tag(), data) + input,
            match T2::decode(data) {
                Ok(v) => Ok(Alternative::Second(v)),
                Err(e) => Err(e),
            },
            input,
        ),
        T3::tag() != T1::tag()
            && T3::tag() != T2::tag() ==> reads::<'a, Choice3<'a, T1, T2, T3>>(
            writer::element(T3::tag(), data) + input,
            match T3::decode(data) {
                Ok(v) => Ok(Alternative::Third(v)),
                Err(e) => Err(e),
            },
            input,
        ),
{
    lemma_element_round_trip::<T1>(T1::tag(), data, input);
    assert((writer::element(T1::tag(), data) + input)[0] == T1::tag());
    lemma_element_round_trip::<T2>(T2::tag(), data, input);
    assert((writer::element(T2::tag(), data) + input)[0] == T2::tag());
    lemma_element_round_trip::<T3>(T3::tag(), data, input);
    assert((writer::element(T3::tag(), data) + input)[0] == T3::tag());
}

} // verus!
