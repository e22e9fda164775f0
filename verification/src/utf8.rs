//! What std says of UTF-8.

use vstd::prelude::*;

verus! {

/// std's error for bytes that are not UTF-8.
#[verifier::external_type_specification]
#[verifier::external_body]
pub struct ExUtf8Error(core::str::Utf8Error);

/// std's `core::str::from_utf8`: it takes just those bytes that are UTF-8, and gives the string
/// whose encoding they are.
pub assume_specification[ core::str::from_utf8 ](v: &[u8]) -> (r: Result<
    &str,
    core::str::Utf8Error,
>)
    ensures
        r is Ok <==> vstd::utf8::valid_utf8(v@),
        r matches Ok(s) ==> vstd::utf8::encode_utf8(s@) == v@,
;

/// The text that `data` is the ASCII encoding of.
pub open spec fn ascii_text(data: Seq<u8>) -> Seq<char> {
    Seq::new(data.len(), |i: int| data[i] as char)
}

/// ASCII is UTF-8.
pub proof fn lemma_ascii(data: Seq<u8>)
    requires
        forall|i: int| 0 <= i < data.len() ==> #[trigger] data[i] < 0x80,
    ensures
        vstd::utf8::valid_utf8(data),
        vstd::utf8::encode_utf8(ascii_text(data)) == data,
        vstd::utf8::decode_utf8(data) == ascii_text(data),
{
    let text = ascii_text(data);
    assert forall|i: int| 0 <= i < text.len() implies '\0' <= #[trigger] text[i] <= '\u{7f}'
        && text[i] as u8 == data[i] by {
        assert(data[i] < 0x80);
    }
    vstd::utf8::is_ascii_chars_encode_utf8(text);
    assert forall|i: int| 0 <= i < data.len() implies vstd::utf8::encode_utf8(text)[i]
        == data[i] by {
        assert(text[i] as u8 == data[i]);
    }
    assert(vstd::utf8::encode_utf8(text) =~= data);
    vstd::utf8::encode_utf8_valid_utf8(text);
    vstd::utf8::encode_utf8_decode_utf8(text);
}

} // verus!
