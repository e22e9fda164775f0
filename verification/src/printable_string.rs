//! ASN.1 `PrintableString`.

use vstd::prelude::*;
use vstd::utf8;

use crate::element::SimpleAsn1Element;
use crate::error::{ParseError, ParseResult};

verus! {

/// Whether `b` is the ASCII code of a character that a `PrintableString` may hold.
pub open spec fn is_printable(b: int) -> bool {
    ||| 'A' as int <= b <= 'Z' as int
    ||| 'a' as int <= b <= 'z' as int
    ||| '0' as int <= b <= '9' as int
    ||| b == ' ' as int
    ||| b == '\'' as int
    ||| b == '(' as int
    ||| b == ')' as int
    ||| b == '+' as int
    ||| b == ',' as int
    ||| b == '-' as int
    ||| b == '.' as int
    ||| b == '/' as int
    ||| b == ':' as int
    ||| b == '=' as int
    ||| b == '?' as int
}

/// Whether `text` holds only characters that a `PrintableString` may hold.
pub open spec fn is_printable_text(text: Seq<char>) -> bool {
    forall|i: int| 0 <= i < text.len() ==> is_printable(#[trigger] text[i] as int)
}

/// Whether `data` holds only the codes of characters that a `PrintableString` may hold.
pub open spec fn is_printable_data(data: Seq<u8>) -> bool {
    forall|i: int| 0 <= i < data.len() ==> is_printable(#[trigger] data[i] as int)
}

/// What a character that is not printable is encoded as does not begin with a printable octet.
proof fn lemma_first_octet(c: char)
    requires
        !is_printable(c as int),
    ensures
        utf8::encode_scalar(c as u32).len() > 0,
        !is_printable(utf8::encode_scalar(c as u32)[0] as int),
{
    let v = c as u32;
    if v <= 0x7f {
        assert((v & 0x7F) as u8 == v) by (bit_vector)
            requires
                v <= 0x7f,
        ;
    } else {
        assert(0xC0u8 | ((v >> 6) & 0x1F) as u8 >= 0xc0) by (bit_vector);
        assert(0xE0u8 | ((v >> 12) & 0x0F) as u8 >= 0xc0) by (bit_vector);
        assert(0xF0u8 | ((v >> 18) & 0x7) as u8 >= 0xc0) by (bit_vector);
    }
}

/// A text is printable just when its encoding is.
pub proof fn lemma_printable_encoding(text: Seq<char>)
    ensures
        is_printable_data(utf8::encode_utf8(text)) <==> is_printable_text(text),
        is_printable_text(text) ==> crate::utf8::ascii_text(utf8::encode_utf8(text)) == text,
    decreases text.len(),
{
    let data = utf8::encode_utf8(text);
    if is_printable_text(text) {
        assert(utf8::is_ascii_chars(text));
        utf8::is_ascii_chars_encode_utf8(text);
        assert forall|i: int| 0 <= i < data.len() implies is_printable(
            #[trigger] data[i] as int,
        ) by {
            assert(is_printable(text[i] as int));
            assert(text[i] as u8 == data[i]);
        }
        assert(crate::utf8::ascii_text(data) =~= text);
    } else if text.len() > 0 {
        let rest = text.drop_first();
        let first = utf8::encode_scalar(text[0] as u32);
        let tail = utf8::encode_utf8(rest);
        lemma_printable_encoding(rest);
        assert(data == first + tail);
        if !is_printable(text[0] as int) {
            lemma_first_octet(text[0]);
            assert(data[0] == first[0]);
            assert(!is_printable(data[0] as int));
        } else {
            assert(!is_printable_text(rest)) by {
                let i = choose|i: int|
                    0 <= i < text.len() && !is_printable(#[trigger] text[i] as int);
                assert(rest[i - 1] == text[i]);
            }
            let i = choose|i: int| 0 <= i < tail.len() && !is_printable(#[trigger] tail[i] as int);
            assert(data[first.len() + i] == tail[i]);
        }
    }
}

/// Octets that follow others are printable with them just when both are.
pub proof fn lemma_printable_concatenation(a: Seq<u8>, b: Seq<u8>)
    ensures
        is_printable_data(a + b) == (is_printable_data(a) && is_printable_data(b)),
{
    if is_printable_data(a + b) {
        assert forall|i: int| 0 <= i < a.len() implies is_printable(#[trigger] a[i] as int) by {
            assert((a + b)[i] == a[i]);
        }
        assert forall|i: int| 0 <= i < b.len() implies is_printable(#[trigger] b[i] as int) by {
            assert((a + b)[a.len() + i] == b[i]);
        }
    }
}

/// In what order the octets stand does not matter to whether they are printable.
pub proof fn lemma_printable_reordering(a: Seq<u8>, b: Seq<u8>)
    requires
        a.to_multiset() == b.to_multiset(),
    ensures
        is_printable_data(a) == is_printable_data(b),
{
    a.to_multiset_ensures();
    b.to_multiset_ensures();
    if is_printable_data(a) {
        assert forall|i: int| 0 <= i < b.len() implies is_printable(#[trigger] b[i] as int) by {
            assert(b.contains(b[i]) && b.to_multiset().count(b[i]) > 0);
            assert(a.to_multiset().count(b[i]) > 0 && a.contains(b[i]));
        }
    }
    if is_printable_data(b) {
        assert forall|i: int| 0 <= i < a.len() implies is_printable(#[trigger] a[i] as int) by {
            assert(a.contains(a[i]) && a.to_multiset().count(a[i]) > 0);
            assert(b.to_multiset().count(a[i]) > 0 && b.contains(a[i]));
        }
    }
}

/// Printable octets are the encoding of the text that they are in ASCII.
proof fn lemma_printable_data(data: Seq<u8>)
    requires
        is_printable_data(data),
    ensures
        utf8::valid_utf8(data),
        utf8::encode_utf8(crate::utf8::ascii_text(data)) == data,
        utf8::decode_utf8(data) == crate::utf8::ascii_text(data),
{
    assert forall|i: int| 0 <= i < data.len() implies #[trigger] data[i] < 0x80 by {
        assert(is_printable(data[i] as int));
    }
    crate::utf8::lemma_ascii(data);
}

/// Type for use with `Parser.read_element` and `Writer.write_element` for
/// handling ASN.1 `PrintableString`.  Parsing a `PrintableString` will return
/// an `&str` containing only valid characers. Its view is its text.
pub struct PrintableString<'a>(&'a str);

impl<'a> View for PrintableString<'a> {
    type V = Seq<char>;

    closed spec fn view(&self) -> Seq<char> {
        self.0@
    }
}

impl<'a> Clone for PrintableString<'a> {
    fn clone(&self) -> (r: PrintableString<'a>)
        ensures
            r@ == self@,
            is_printable_text(self@),
    {
        proof {
            use_type_invariant(self);
        }
        PrintableString(self.0)
    }
}

impl<'a> PrintableString<'a> {
    #[verifier::type_invariant]
    spec fn well_formed(self) -> bool {
        is_printable_text(self.0@)
    }

    /// The string `s`, if it holds no other characters than a `PrintableString` may.
    pub fn new(s: &'a str) -> (r: Option<PrintableString<'a>>)
        ensures
            r is Some <==> is_printable_text(s@),
            r matches Some(p) ==> p@ == s@,
    {
        proof {
            lemma_printable_encoding(s@);
        }
        if PrintableString::verify(s.as_bytes()) {
            Some(PrintableString(s))
        } else {
            None
        }
    }

    /// Whether `data` holds only the codes of characters that a `PrintableString` may hold.
    pub fn verify(data: &[u8]) -> (ok: bool)
        ensures
            ok == is_printable_data(data@),
    {
        let mut i: usize = 0;
        while i < data.len()
            invariant
                i <= data.len(),
                forall|k: int| 0 <= k < i ==> is_printable(#[trigger] data@[k] as int),
            decreases data.len() - i,
        {
            let b: u8 = data[i];
            let printable = ('A' as u8 <= b && b <= 'Z' as u8) || ('a' as u8 <= b && b <= 'z' as u8)
                || ('0' as u8 <= b && b <= '9' as u8) || b == ' ' as u8 || b == '\'' as u8
                || b == '(' as u8 || b == ')' as u8 || b == '+' as u8 || b == ',' as u8
                || b == '-' as u8 || b == '.' as u8 || b == '/' as u8 || b == ':' as u8
                || b == '=' as u8 || b == '?' as u8;
            if !printable {
                assert(!is_printable(data@[i as int] as int));
                return false;
            }
            i = i + 1;
        }
        true
    }
}

/// The contents are the text, in ASCII.
impl<'a, 'b> SimpleAsn1Element<'a> for PrintableString<'b> {
    const TAG: u8 = 0x13;

    type ParsedType = &'a str;

    type WriteType = PrintableString<'a>;

    type Value = Seq<char>;

    open spec fn tag() -> u8 {
        0x13
    }

    open spec fn parsed_value(parsed: &'a str) -> Seq<char> {
        parsed@
    }

    open spec fn decode(data: Seq<u8>) -> ParseResult<Seq<char>> {
        if is_printable_data(data) {
            Ok(crate::utf8::ascii_text(data))
        } else {
            Err(ParseError::InvalidValue)
        }
    }

    open spec fn assures(data: Seq<u8>, r: ParseResult<Seq<char>>) -> bool {
        true
    }

    open spec fn writable(val: PrintableString<'a>) -> bool {
        true
    }

    open spec fn encodes(val: PrintableString<'a>, data: Seq<u8>) -> bool {
        &&& data.len() == val@.len()
        &&& forall|i: int| 0 <= i < data.len() ==> #[trigger] data[i] == val@[i] as u8
    }

    open spec fn adds(val: PrintableString<'a>, before: Seq<u8>, data: Seq<u8>) -> bool {
        true
    }

    proof fn lemma_tag() {
    }

    fn parse_data(data: &'a [u8]) -> (r: ParseResult<&'a str>) {
        if !PrintableString::verify(data) {
            return Err(ParseError::InvalidValue);
        }
        proof {
            lemma_printable_data(data@);
        }
        let s = core::str::from_utf8(data).unwrap();
        proof {
            utf8::encode_utf8_decode_utf8(s@);
        }
        Ok(s)
    }

    /// What is written holds only the characters that a `PrintableString` may.
    fn write_data(dest: &mut Vec<u8>, val: PrintableString<'a>)
        ensures
            is_printable_text(val@),
    {
        proof {
            use_type_invariant(&val);
            assert(utf8::is_ascii_chars(val@));
            utf8::is_ascii_chars_encode_utf8(val@);
        }
        let bytes = val.0.as_bytes();
        dest.extend_from_slice(bytes);
        assert(dest@ =~= old(dest)@ + bytes@);
        assert(Self::encodes(val, bytes@));
    }
}

} // verus!
