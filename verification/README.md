# asn1

A reader and writer for DER, the distinguished encoding of ASN.1, verified with Verus.

- `parse` hands a `Parser` for some bytes to a function, and refuses what the function leaves unread.
  `Parser::read_element::<T>` reads one element, `Writer::write_element_with_type::<T>` writes one.
- The types that can stand for `T` are `()`, `bool`, `i8`, `u8`, `i64`, `u64`, `&[u8]`,
  `PrintableString`, `ObjectIdentifier`, `BitString`, `UtcTime` and `Sequence`, any of these inside
  `Implicit` or `Explicit`, and, for reading, any of these inside `Option`, `Choice1`, `Choice2` or
  `Choice3`.

Each of these types says in `decode` what contents stand for, and in `encodes` what is written of a
value. `parser.rs` and `writer.rs` say the same of whole elements. `laws.rs` proves that the tag and
the contents of an element are read from no other bytes than those that are written of them. Of
each type of plain values but `UtcTime` it proves that the contents from which a value is read are
just those that are written of it. A `Sequence` gives back what its body wrote, and `Implicit` and
`Explicit` read back what the type inside them does.

A `UtcTime` is read from more than is written of it: without the seconds, and with an offset. That
a time that was written is read back, and what the other forms mean, is stated in `utc_time.rs`, by
`is_reading` and in the lemmas on the meaning of digits. Reading a `UtcTime`, alone or inside another
type, assures it.

The dates of `UtcTime` are read by chrono. What is relied on of it is in `chrono_time.rs`, and what
is relied on of std, for UTF-8 and for the conversion of a type to itself, is in `utf8.rs` and
`convert.rs`.
