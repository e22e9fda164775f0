//! ASN.1 `INTEGER`, for the integer types of 8 and of 64 bits.

use vstd::arithmetic::power;
use vstd::prelude::*;

use crate::element::SimpleAsn1Element;
use crate::error::{ParseError, ParseResult};

verus! {

/// The number that `data` is in base 256, the most significant octet first.
pub open spec fn unsigned_value(data: Seq<u8>) -> int
    decreases data.len(),
{
    if data.len() == 0 {
        0
    } else {
        unsigned_value(data.drop_last()) * 256 + data.last()
    }
}

/// The number that `data` is in two's complement, the most significant octet first.
pub open spec fn signed_value(data: Seq<u8>) -> int
    decreases data.len(),
{
    if data.len() == 0 {
        0
    } else if data.len() == 1 {
        if data[0] < 0x80 {
            data[0] as int
        } else {
            data[0] - 256
        }
    } else {
        signed_value(data.drop_last()) * 256 + data.last()
    }
}

/// The number that `data` stands for.
pub open spec fn value(data: Seq<u8>, signed: bool) -> int {
    if signed {
        signed_value(data)
    } else {
        unsigned_value(data)
    }
}

/// Whether the first octet of `data` says no more than the sign of the second one does.
pub open spec fn has_redundant_octet(data: Seq<u8>) -> bool {
    data.len() > 1 && (data[0] == 0 && data[1] < 0x80 || data[0] == 0xff && data[1] >= 0x80)
}

/// What the contents `data` are as an integer type of `size` octets. An unsigned type drops a zero
/// octet in front of `size` more: it only keeps the number from being taken for a negative one.
pub open spec fn decode_integer(data: Seq<u8>, size: nat, signed: bool) -> ParseResult<int> {
    if data.len() == 0 || has_redundant_octet(data) || (!signed && data[0] >= 0x80) {
        Err(ParseError::InvalidValue)
    } else if !signed && data.len() == size + 1 && data[0] == 0 {
        Ok(value(data.skip(1), signed))
    } else if data.len() > size {
        Err(ParseError::IntegerOverflow)
    } else {
        Ok(value(data, signed))
    }
}

/// The shortest two's complement of `v`, the most significant octet first.
pub open spec fn encode_integer(v: int) -> Seq<u8>
    decreases (if v < 0 {
        -v
    } else {
        v
    }),
{
    if -128 <= v <= 127 {
        seq![(v % 256) as u8]
    } else {
        encode_integer(v / 256).push((v % 256) as u8)
    }
}

/// `256` to the power `n`.
pub open spec fn pow256(n: nat) -> int
    decreases n,
{
    if n == 0 {
        1
    } else {
        256 * pow256((n - 1) as nat)
    }
}

proof fn lemma_value_bounds(data: Seq<u8>)
    ensures
        0 <= unsigned_value(data) < pow256(data.len()),
        data.len() > 0 ==> -128 * pow256((data.len() - 1) as nat) <= signed_value(data) < 128
            * pow256((data.len() - 1) as nat),
    decreases data.len(),
{
    if data.len() > 0 {
        lemma_value_bounds(data.drop_last());
        reveal_with_fuel(pow256, 2);
        if data.len() == 1 {
            reveal_with_fuel(signed_value, 2);
        }
    }
}

proof fn lemma_pow256_small()
    ensures
        pow256(0) == 1,
        pow256(1) == 0x100,
        pow256(2) == 0x1_0000,
        pow256(3) == 0x100_0000,
        pow256(4) == 0x1_0000_0000,
        pow256(5) == 0x100_0000_0000,
        pow256(6) == 0x1_0000_0000_0000,
        pow256(7) == 0x100_0000_0000_0000,
        pow256(8) == 0x1_0000_0000_0000_0000,
{
    reveal_with_fuel(pow256, 9);
}

/// The range of what `size` octets hold.
proof fn lemma_value_range(data: Seq<u8>, size: nat)
    requires
        0 < data.len() <= size,
        size == 1 || size == 8,
    ensures
        -pow256(size) <= 2 * signed_value(data) < pow256(size),
        0 <= unsigned_value(data) < pow256(size),
{
    lemma_value_bounds(data);
    lemma_pow256_small();
    let n = data.len();
    assert(n == 1 || n == 2 || n == 3 || n == 4 || n == 5 || n == 6 || n == 7 || n == 8);
}

/// Reads an integer type of `size` octets.
fn parse_integer(data: &[u8], size: usize, signed: bool) -> (r: ParseResult<i128>)
    requires
        size == 1 || size == 8,
    ensures
        (match r {
            Ok(v) => Ok(v as int),
            Err(e) => Err(e),
        }) == decode_integer(data@, size as nat, signed),
        r matches Ok(v) ==> if signed {
            -pow256(size as nat) <= 2 * v < pow256(size as nat)
        } else {
            0 <= v < pow256(size as nat)
        },
{
    if data.len() == 0 {
        return Err(ParseError::InvalidValue);
    }
    if data.len() > 1 && ((data[0] == 0 && data[1] < 0x80) || (data[0] == 0xff && data[1]
        >= 0x80)) {
        return Err(ParseError::InvalidValue);
    }
    // Negative numbers are none of an unsigned type.
    if !signed && data[0] >= 0x80 {
        return Err(ParseError::InvalidValue);
    }
    // A zero octet in front only keeps the number from being taken for a negative one.
    let mut start: usize = 0;
    if !signed && data.len() == size + 1 && data[0] == 0 {
        start = 1;
    }
    if data.len() - start > size {
        return Err(ParseError::IntegerOverflow);
    }
    let ghost digits = data@.skip(start as int);
    let first: u8 = data[start];
    let mut v: i128 = if signed && first >= 0x80 {
        first as i128 - 256
    } else {
        first as i128
    };
    let mut i: usize = start + 1;
    proof {
        reveal_with_fuel(unsigned_value, 2);
        reveal_with_fuel(signed_value, 2);
        assert(digits.take(1) =~= seq![first]);
        assert(digits.take(1).drop_last() =~= Seq::<u8>::empty());
        if start == 0 {
            assert(digits =~= data@);
        }
    }
    while i < data.len()
        invariant
            start <= 1,
            start < i <= data.len(),
            data.len() - start <= 8,
            digits == data@.skip(start as int),
            v == value(digits.take(i - start), signed),
        decreases data.len() - i,
    {
        proof {
            let before = digits.take(i - start);
            lemma_value_bounds(before);
            lemma_pow256_small();
            assert(digits.take(i - start + 1).drop_last() =~= before);
            assert(digits.take(i - start + 1).last() == data@[i as int]);
            let n = before.len();
            assert(n == 1 || n == 2 || n == 3 || n == 4 || n == 5 || n == 6 || n == 7);
        }
        v = v * 256 + data[i] as i128;
        i = i + 1;
    }
    proof {
        assert(digits.take(i - start) =~= digits);
        lemma_value_range(digits, size as nat);
    }
    Ok(v)
}

/// Writes the shortest two's complement of `val` to the end of `dest`.
fn write_integer(dest: &mut Vec<u8>, val: i128)
    requires
        i64::MIN <= val <= u64::MAX,
    ensures
        final(dest)@ == old(dest)@ + encode_integer(val as int),
{
    let mut num_bytes: u32 = 1;
    let mut v: i128 = val;
    assert(val >> 0u32 == val) by (bit_vector);
    while v > 127 || v < -128
        invariant
            1 <= num_bytes <= 9,
            i64::MIN <= val <= u64::MAX,
            v == val >> ((8 * (num_bytes - 1)) as u32),
            forall|k: u32|
                k + 1 < num_bytes ==> !(-128 <= #[trigger] (val >> ((8 * k) as u32)) <= 127),
            num_bytes == 9 ==> -128 <= v <= 127,
        decreases 9 - num_bytes,
    {
        let ghost shift = (8 * (num_bytes - 1)) as u32;
        assert((val >> shift) >> 8u32 == val >> ((shift + 8) as u32)) by (bit_vector)
            requires
                shift <= 56,
        ;
        assert(-128 <= (val >> 64u32) && (val >> 64u32) <= 127) by (bit_vector)
            requires
                -0x8000_0000_0000_0000 <= val <= 0xffff_ffff_ffff_ffff,
        ;
        v = v >> 8u32;
        num_bytes = num_bytes + 1;
    }
    let mut i: u32 = num_bytes;
    while i > 0
        invariant
            i <= num_bytes <= 9,
            1 <= num_bytes,
            -128 <= val >> ((8 * (num_bytes - 1)) as u32) <= 127,
            forall|k: u32|
                k + 1 < num_bytes ==> !(-128 <= #[trigger] (val >> ((8 * k) as u32)) <= 127),
            dest@ == old(dest)@ + (if i == num_bytes {
                Seq::<u8>::empty()
            } else {
                encode_integer((val >> ((8 * i) as u32)) as int)
            }),
        decreases i,
    {
        let shift: u32 = (i - 1) * 8;
        let digit: i128 = val >> shift;
        proof {
            assert(digit as u8 == digit % 256) by (bit_vector);
            if i < num_bytes {
                assert(!(-128 <= (val >> ((8 * ((i - 1) as u32)) as u32)) <= 127));
                assert(digit / 256 == digit >> 8u32) by (bit_vector);
                assert((val >> shift) >> 8u32 == val >> ((shift + 8) as u32)) by (bit_vector)
                    requires
                        shift <= 56,
                ;
            }
            assert(encode_integer(digit as int) == (if i == num_bytes {
                Seq::<u8>::empty()
            } else {
                encode_integer((val >> ((8 * i) as u32)) as int)
            }).push(digit as u8));
        }
        dest.push(digit as u8);
        i = i - 1;
    }
}

/// Any `i8` is written as one octet.
impl<'a> SimpleAsn1Element<'a> for i8 {
    const TAG: u8 = 0x02;

    type ParsedType = i8;

    type WriteType = i8;

    type Value = i8;

    open spec fn tag() -> u8 {
        0x02
    }

    open spec fn parsed_value(parsed: i8) -> i8 {
        parsed
    }

    open spec fn decode(data: Seq<u8>) -> ParseResult<i8> {
        match decode_integer(data, 1, true) {
            Ok(v) => Ok(v as i8),
            Err(e) => Err(e),
        }
    }

    open spec fn assures(data: Seq<u8>, r: ParseResult<i8>) -> bool {
        true
    }

    open spec fn writable(val: i8) -> bool {
        true
    }

    open spec fn encodes(val: i8, data: Seq<u8>) -> bool {
        data == encode_integer(val as int)
    }

    open spec fn adds(val: i8, before: Seq<u8>, data: Seq<u8>) -> bool {
        true
    }

    proof fn lemma_tag() {
    }

    fn parse_data(data: &'a [u8]) -> (r: ParseResult<i8>) {
        proof {
            lemma_pow256_small();
        }
        match parse_integer(data, 1, true) {
            Ok(v) => Ok(v as i8),
            Err(e) => Err(e),
        }
    }

    fn write_data(dest: &mut Vec<u8>, val: i8) {
        write_integer(dest, val as i128);
        assert(Self::encodes(val, encode_integer(val as int)));
    }
}

/// A `u8` above 127 is written with a zero octet in front.
impl<'a> SimpleAsn1Element<'a> for u8 {
    const TAG: u8 = 0x02;

    type ParsedType = u8;

    type WriteType = u8;

    type Value = u8;

    open spec fn tag() -> u8 {
        0x02
    }

    open spec fn parsed_value(parsed: u8) -> u8 {
        parsed
    }

    open spec fn decode(data: Seq<u8>) -> ParseResult<u8> {
        match decode_integer(data, 1, false) {
            Ok(v) => Ok(v as u8),
            Err(e) => Err(e),
        }
    }

    open spec fn assures(data: Seq<u8>, r: ParseResult<u8>) -> bool {
        true
    }

    open spec fn writable(val: u8) -> bool {
        true
    }

    open spec fn encodes(val: u8, data: Seq<u8>) -> bool {
        data == encode_integer(val as int)
    }

    open spec fn adds(val: u8, before: Seq<u8>, data: Seq<u8>) -> bool {
        true
    }

    proof fn lemma_tag() {
    }

    fn parse_data(data: &'a [u8]) -> (r: ParseResult<u8>) {
        proof {
            lemma_pow256_small();
        }
        match parse_integer(data, 1, false) {
            Ok(v) => Ok(v as u8),
            Err(e) => Err(e),
        }
    }

    fn write_data(dest: &mut Vec<u8>, val: u8) {
        write_integer(dest, val as i128);
        assert(Self::encodes(val, encode_integer(val as int)));
    }
}

/// Any `i64` is written in at most eight octets.
impl<'a> SimpleAsn1Element<'a> for i64 {
    const TAG: u8 = 0x02;

    type ParsedType = i64;

    type WriteType = i64;

    type Value = i64;

    open spec fn tag() -> u8 {
        0x02
    }

    open spec fn parsed_value(parsed: i64) -> i64 {
        parsed
    }

    open spec fn decode(data: Seq<u8>) -> ParseResult<i64> {
        match decode_integer(data, 8, true) {
            Ok(v) => Ok(v as i64),
            Err(e) => Err(e),
        }
    }

    open spec fn assures(data: Seq<u8>, r: ParseResult<i64>) -> bool {
        true
    }

    open spec fn writable(val: i64) -> bool {
        true
    }

    open spec fn encodes(val: i64, data: Seq<u8>) -> bool {
        data == encode_integer(val as int)
    }

    open spec fn adds(val: i64, before: Seq<u8>, data: Seq<u8>) -> bool {
        true
    }

    proof fn lemma_tag() {
    }

    fn parse_data(data: &'a [u8]) -> (r: ParseResult<i64>) {
        proof {
            lemma_pow256_small();
        }
        match parse_integer(data, 8, true) {
            Ok(v) => Ok(v as i64),
            Err(e) => Err(e),
        }
    }

    fn write_data(dest: &mut Vec<u8>, val: i64) {
        write_integer(dest, val as i128);
        assert(Self::encodes(val, encode_integer(val as int)));
    }
}

/// A `u64` above `i64::MAX` is written with a zero octet in front.
impl<'a> SimpleAsn1Element<'a> for u64 {
    const TAG: u8 = 0x02;

    type ParsedType = u64;

    type WriteType = u64;

    type Value = u64;

    open spec fn tag() -> u8 {
        0x02
    }

    open spec fn parsed_value(parsed: u64) -> u64 {
        parsed
    }

    open spec fn decode(data: Seq<u8>) -> ParseResult<u64> {
        match decode_integer(data, 8, false) {
            Ok(v) => Ok(v as u64),
            Err(e) => Err(e),
        }
    }

    open spec fn assures(data: Seq<u8>, r: ParseResult<u64>) -> bool {
        true
    }

    open spec fn writable(val: u64) -> bool {
        true
    }

    open spec fn encodes(val: u64, data: Seq<u8>) -> bool {
        data == encode_integer(val as int)
    }

    open spec fn adds(val: u64, before: Seq<u8>, data: Seq<u8>) -> bool {
        true
    }

    proof fn lemma_tag() {
    }

    fn parse_data(data: &'a [u8]) -> (r: ParseResult<u64>) {
        proof {
            lemma_pow256_small();
        }
        match parse_integer(data, 8, false) {
            Ok(v) => Ok(v as u64),
            Err(e) => Err(e),
        }
    }

    fn write_data(dest: &mut Vec<u8>, val: u64) {
        write_integer(dest, val as i128);
        assert(Self::encodes(val, encode_integer(val as int)));
    }
}

proof fn lemma_unsigned_is_signed(data: Seq<u8>)
    requires
        data.len() > 0,
        data[0] < 0x80,
    ensures
        unsigned_value(data) == signed_value(data),
    decreases data.len(),
{
    reveal_with_fuel(unsigned_value, 2);
    if data.len() > 1 {
        lemma_unsigned_is_signed(data.drop_last());
    }
}

proof fn lemma_encode_integer_len(v: int, n: nat)
    requires
        n > 0,
        -128 * pow256((n - 1) as nat) <= v < 128 * pow256((n - 1) as nat),
    ensures
        0 < encode_integer(v).len() <= n,
    decreases n,
{
    if !(-128 <= v <= 127) {
        lemma_pow256_small();
        assert(n > 1);
        lemma_encode_integer_len(v / 256, (n - 1) as nat);
    }
}

/// What is written of an integer is not longer than it need be, and stands for that integer.
pub proof fn lemma_encode_integer(v: int)
    ensures
        encode_integer(v).len() > 0,
        !has_redundant_octet(encode_integer(v)),
        signed_value(encode_integer(v)) == v,
        encode_integer(v)[0] < 0x80 <==> v >= 0,
        encode_integer(v).len() > 1 <==> !(-128 <= v <= 127),
    decreases (if v < 0 {
        -v
    } else {
        v
    }),
{
    if !(-128 <= v <= 127) {
        lemma_encode_integer(v / 256);
        let head = encode_integer(v / 256);
        let data = encode_integer(v);
        assert(data.drop_last() =~= head);
        if head.len() == 1 {
            assert(signed_value(head) == v / 256);
        }
    }
}

/// Contents that are not longer than need be are what is written of the integer that they stand
/// for.
pub proof fn lemma_signed_value_canonical(data: Seq<u8>)
    requires
        data.len() > 0,
        !has_redundant_octet(data),
    ensures
        encode_integer(signed_value(data)) == data,
        data.len() > 1 ==> !(-128 <= signed_value(data) <= 127),
    decreases data.len(),
{
    if data.len() == 1 {
        assert(encode_integer(signed_value(data)) =~= data);
    } else {
        let head = data.drop_last();
        lemma_signed_value_canonical(head);
        assert(signed_value(data) / 256 == signed_value(head));
        assert(signed_value(data) % 256 == data.last());
        if data.len() == 2 {
            assert(signed_value(head) == if head[0] < 0x80 {
                head[0] as int
            } else {
                head[0] - 256
            });
        }
        assert(head.push(data.last()) =~= data);
    }
}

proof fn lemma_unsigned_value_first(data: Seq<u8>)
    requires
        data.len() > 0,
    ensures
        unsigned_value(data) == data[0] * pow256((data.len() - 1) as nat) + unsigned_value(
            data.skip(1),
        ),
    decreases data.len(),
{
    let rest = data.skip(1);
    if data.len() == 1 {
        assert(data.drop_last() =~= Seq::<u8>::empty());
        reveal_with_fuel(unsigned_value, 2);
    } else {
        let n = (data.len() - 2) as nat;
        lemma_unsigned_value_first(data.drop_last());
        assert(data.drop_last().skip(1) =~= rest.drop_last());
        assert(pow256(n + 1) == 256 * pow256(n));
        assert(data[0] * (256 * pow256(n)) == data[0] * pow256(n) * 256) by (nonlinear_arith);
    }
}

/// Whether an integer type of `size` octets can hold `v`.
pub open spec fn in_range(v: int, size: nat, signed: bool) -> bool {
    if signed {
        -pow256(size) <= 2 * v < pow256(size)
    } else {
        0 <= v < pow256(size)
    }
}

/// What is written of an integer that the type can hold is read as that integer.
pub proof fn lemma_integer_round_trip(v: int, size: nat, signed: bool)
    requires
        size == 1 || size == 8,
        in_range(v, size, signed),
    ensures
        decode_integer(encode_integer(v), size, signed) == Ok::<int, ParseError>(v),
{
    let data = encode_integer(v);
    lemma_encode_integer(v);
    lemma_pow256_small();
    if !signed {
        lemma_unsigned_is_signed(data);
    }
    if 2 * v < pow256(size) {
        lemma_encode_integer_len(v, size);
    } else {
        assert(pow256(size + 1) == 256 * pow256(size));
        lemma_encode_integer_len(v, size + 1);
        if data.len() <= size {
            lemma_value_range(data, size);
        }
        lemma_unsigned_value_first(data);
        lemma_value_bounds(data.skip(1));
        let first = data[0] as int;
        let p = pow256(size);
        assert(first == 0) by (nonlinear_arith)
            requires
                first >= 0,
                first * p <= v,
                0 <= v < p,
        ;
    }
}

/// What is read is an integer that the type can hold.
pub proof fn lemma_decode_range(data: Seq<u8>, size: nat, signed: bool)
    requires
        size == 1 || size == 8,
        decode_integer(data, size, signed) is Ok,
    ensures
        in_range(decode_integer(data, size, signed)->Ok_0, size, signed),
{
    if data.len() == size + 1 {
        lemma_value_range(data.skip(1), size);
    } else {
        lemma_value_range(data, size);
    }
}

/// An integer has one encoding: contents from which an integer is read are those that are written
/// of it.
pub proof fn lemma_integer_canonical(data: Seq<u8>, size: nat, signed: bool)
    requires
        decode_integer(data, size, signed) is Ok,
    ensures
        encode_integer(decode_integer(data, size, signed)->Ok_0) == data,
{
    lemma_signed_value_canonical(data);
    if !signed {
        lemma_unsigned_is_signed(data);
        lemma_unsigned_value_first(data);
    }
}

/// A number is not negative where the first bit is not set.
pub proof fn lemma_sign(data: Seq<u8>)
    requires
        data.len() > 0,
        data[0] < 0x80,
    ensures
        signed_value(data) >= 0,
{
    lemma_unsigned_is_signed(data);
    lemma_value_bounds(data);
}

/// `pow256` is the power of 256.
proof fn lemma_pow256(n: nat)
    ensures
        pow256(n) == power::pow(256, n),
    decreases n,
{
    reveal(power::pow);
    if n > 0 {
        lemma_pow256((n - 1) as nat);
    }
}

/// An unsigned number is read in base 256: no octets are zero, and an octet more is 256 times what
/// was before it, and the octet.
pub proof fn lemma_positional(data: Seq<u8>, octet: u8)
    ensures
        unsigned_value(Seq::empty()) == 0,
        unsigned_value(data.push(octet)) == 256 * unsigned_value(data) + octet,
{
    assert(data.push(octet).drop_last() =~= data);
}

/// A signed number is read in two's complement: where the first bit is set, it is less than the
/// unsigned one by the power of 256 that the octets have no room for.
pub proof fn lemma_twos_complement(data: Seq<u8>)
    requires
        data.len() > 0,
    ensures
        signed_value(data) == unsigned_value(data) - (if data[0] >= 0x80 {
            power::pow(256, data.len())
        } else {
            0
        }),
    decreases data.len(),
{
    lemma_pow256(data.len());
    lemma_pow256((data.len() - 1) as nat);
    if data.len() == 1 {
        assert(data.drop_last() =~= Seq::<u8>::empty());
        reveal_with_fuel(unsigned_value, 2);
        reveal_with_fuel(pow256, 2);
    } else {
        lemma_twos_complement(data.drop_last());
    }
}

/// Contents are read as the number that they are in two's complement, whether or not the type is
/// signed, if the type can hold it, and else there is an overflow. There are no contents of no
/// octets, none whose first nine bits are all alike, and for an unsigned type none that are
/// negative.
pub proof fn lemma_decode_integer(data: Seq<u8>, size: nat, signed: bool)
    requires
        size == 1 || size == 8,
    ensures
        decode_integer(data, size, signed) == (if data.len() == 0 || (data.len() > 1 && data[0] == 0
            && data[1] < 0x80) || (data.len() > 1 && data[0] == 0xff && data[1] >= 0x80) || (!signed
            && data[0] >= 0x80) {
            Err(ParseError::InvalidValue)
        } else if if signed {
            -power::pow(256, size) <= 2 * signed_value(data) < power::pow(256, size)
        } else {
            signed_value(data) < power::pow(256, size)
        } {
            Ok(signed_value(data))
        } else {
            Err(ParseError::IntegerOverflow)
        }),
{
    lemma_pow256(size);
    lemma_pow256_small();
    if data.len() > 0 && !has_redundant_octet(data) && (signed || data[0] < 0x80) {
        let v = signed_value(data);
        lemma_signed_value_canonical(data);
        lemma_encode_integer(v);
        if !signed {
            lemma_unsigned_is_signed(data);
            lemma_unsigned_value_first(data);
        }
        if in_range(v, size, signed) {
            lemma_integer_round_trip(v, size, signed);
        } else if decode_integer(data, size, signed) is Ok {
            lemma_decode_range(data, size, signed);
        }
    }
}

} // verus!
