use asn1::{
    parse, Asn1Element, BitString, ObjectIdentifier, ParseError, ParseResult, Parser,
    PrintableString, SimpleAsn1Element, Writer,
};

fn read<'a, T: Asn1Element<'a>>(data: &'a [u8]) -> ParseResult<T::ParsedType> {
    parse(data, |p: &mut Parser<'a>| p.read_element::<T>())
}

fn write<'a, T: SimpleAsn1Element<'a>>(val: T::WriteType) -> Vec<u8> {
    let mut w = Writer::new_with_storage(Vec::new());
    w.write_element_with_type::<T>(val);
    w.into_storage()
}

fn contents<'a, T: SimpleAsn1Element<'a>>(val: T::WriteType) -> Vec<u8> {
    let mut data = vec![0xaa];
    T::write_data(&mut data, val);
    assert_eq!(data[0], 0xaa);
    data[1..].to_vec()
}

#[test]
fn test_printable_string_new() {
    assert!(PrintableString::new("abc").is_some());
    assert!(PrintableString::new("").is_some());
    assert!(PrintableString::new(" ").is_some());
    assert!(PrintableString::new("%").is_none());
    assert!(PrintableString::new("\x00").is_none());
}

#[test]
fn printable_string_alphabet() {
    let allowed = "ABCDEFGHIJKLMNOPQRSTUVWXYZabcdefghijklmnopqrstuvwxyz0123456789 '()+,-./:=?";
    for b in 0u8..=0x7f {
        let s = String::from_utf8(vec![b]).unwrap();
        assert_eq!(PrintableString::new(&s).is_some(), allowed.contains(&s), "{:?}", s);
    }
    assert!(PrintableString::new("caf\u{e9}").is_none());
    assert!(PrintableString::new("\u{ff21}").is_none());
    assert!(PrintableString::new("a\u{10348}").is_none());
}

#[test]
fn printable_string_parts() {
    // A text is printable just when all its parts are, in whatever order they stand.
    for (a, b, ok) in [("ab", "c.", true), ("", "x", true), ("a%", "b", false), ("a", "%b", false)]
    {
        assert_eq!(PrintableString::new(&format!("{}{}", a, b)).is_some(), ok);
        assert_eq!(PrintableString::new(&format!("{}{}", b, a)).is_some(), ok);
        assert_eq!(
            PrintableString::new(a).is_some() && PrintableString::new(b).is_some(),
            ok
        );
        assert_eq!(PrintableString::verify(format!("{}{}", a, b).as_bytes()), ok);
    }
}

#[test]
fn printable_string_read_and_write() {
    assert_eq!(read::<PrintableString>(b"\x13\x03abc"), Ok("abc"));
    assert_eq!(read::<PrintableString>(b"\x13\x00"), Ok(""));
    assert_eq!(read::<PrintableString>(b"\x13\x03ab%"), Err(ParseError::InvalidValue));
    assert_eq!(read::<PrintableString>(b"\x13\x03ab\x00"), Err(ParseError::InvalidValue));
    assert_eq!(read::<PrintableString>(b"\x13\x02\xc3\xa9"), Err(ParseError::InvalidValue));
    let s = PrintableString::new("Test User 1").unwrap();
    assert_eq!(write::<PrintableString>(s.clone()), b"\x13\x0bTest User 1");
    assert_eq!(contents::<PrintableString>(s), b"Test User 1");
}

#[test]
fn null_read_and_write() {
    assert_eq!(read::<()>(b"\x05\x00"), Ok(()));
    assert_eq!(read::<()>(b"\x05\x01\x00"), Err(ParseError::InvalidValue));
    assert_eq!(write::<()>(()), b"\x05\x00");
    assert_eq!(contents::<()>(()), b"");
    assert_eq!(<() as SimpleAsn1Element>::TAG, 0x05);
}

#[test]
fn boolean_read_and_write() {
    assert_eq!(read::<bool>(b"\x01\x01\x00"), Ok(false));
    assert_eq!(read::<bool>(b"\x01\x01\xff"), Ok(true));
    assert_eq!(read::<bool>(b"\x01\x00"), Err(ParseError::InvalidValue));
    assert_eq!(read::<bool>(b"\x01\x01\x01"), Err(ParseError::InvalidValue));
    assert_eq!(read::<bool>(b"\x01\x02\x00\x00"), Err(ParseError::InvalidValue));
    assert_eq!(read::<bool>(b"\x01\x02\xff\x01"), Err(ParseError::InvalidValue));
    assert_eq!(write::<bool>(true), b"\x01\x01\xff");
    assert_eq!(write::<bool>(false), b"\x01\x01\x00");
}

#[test]
fn octet_string_read_and_write() {
    let empty: &[u8] = b"";
    assert_eq!(read::<&[u8]>(b"\x04\x00"), Ok(empty));
    assert_eq!(read::<&[u8]>(b"\x04\x03\x01\x02\x03"), Ok(&[1u8, 2, 3][..]));
    assert_eq!(write::<&[u8]>(b"\x01\x02\x03"), b"\x04\x03\x01\x02\x03");
    assert_eq!(write::<&[u8]>(b""), b"\x04\x00");
}

#[test]
fn bit_string_read_and_write() {
    let b = read::<BitString>(b"\x03\x02\x03\xf8").unwrap();
    assert_eq!(b.as_bytes(), b"\xf8");
    assert_eq!(b.padding_bits(), 3);
    assert_eq!(write::<BitString>(b.clone()), b"\x03\x02\x03\xf8");
    assert_eq!(Some(b), BitString::new(b"\xf8", 3));
    assert_eq!(read::<BitString>(b"\x03\x01\x00").unwrap().as_bytes(), b"");
    assert_eq!(read::<BitString>(b"\x03\x00"), Err(ParseError::InvalidValue));
    assert_eq!(read::<BitString>(b"\x03\x02\x03\xfc"), Err(ParseError::InvalidValue));
    assert_eq!(read::<BitString>(b"\x03\x01\x01"), Err(ParseError::InvalidValue));
    assert_eq!(read::<BitString>(b"\x03\x02\x08\x00"), Err(ParseError::InvalidValue));
    assert!(BitString::new(b"\x80", 7).is_some());
    assert!(BitString::new(b"\xc0", 7).is_none());
}

#[test]
fn object_identifier_read_and_write() {
    let rsa = b"\x2a\x86\x48\x86\xf7\x0d";
    let oid = read::<ObjectIdentifier>(b"\x06\x06\x2a\x86\x48\x86\xf7\x0d").unwrap();
    assert_eq!(oid.as_der(), rsa);
    assert_eq!(Some(oid.clone()), ObjectIdentifier::from_der(rsa));
    assert_eq!(write::<ObjectIdentifier>(oid), b"\x06\x06\x2a\x86\x48\x86\xf7\x0d");
    assert_eq!(read::<ObjectIdentifier>(b"\x06\x00"), Err(ParseError::InvalidValue));
    assert_eq!(read::<ObjectIdentifier>(b"\x06\x02\x2a\x86"), Err(ParseError::InvalidValue));
    assert_eq!(
        read::<ObjectIdentifier>(b"\x06\x06\x2a\x86\x86\x86\x86\x01"),
        Err(ParseError::InvalidValue)
    );
    assert!(ObjectIdentifier::from_der(b"\x2a\x86\x86\x86\x01").is_some());
}

#[test]
fn i64_read_and_write() {
    let cases: [(i64, &[u8]); 12] = [
        (0, b"\x02\x01\x00"),
        (127, b"\x02\x01\x7f"),
        (128, b"\x02\x02\x00\x80"),
        (256, b"\x02\x02\x01\x00"),
        (-1, b"\x02\x01\xff"),
        (-128, b"\x02\x01\x80"),
        (-129, b"\x02\x02\xff\x7f"),
        (32767, b"\x02\x02\x7f\xff"),
        (32768, b"\x02\x03\x00\x80\x00"),
        (-32769, b"\x02\x03\xff\x7f\xff"),
        (i64::MAX, b"\x02\x08\x7f\xff\xff\xff\xff\xff\xff\xff"),
        (i64::MIN, b"\x02\x08\x80\x00\x00\x00\x00\x00\x00\x00"),
    ];
    for (v, data) in cases.iter() {
        assert_eq!(read::<i64>(data), Ok(*v));
        assert_eq!(&write::<i64>(*v), data);
    }
    assert_eq!(read::<i64>(b"\x02\x00"), Err(ParseError::InvalidValue));
    assert_eq!(read::<i64>(b"\x02\x02\x00\x7f"), Err(ParseError::InvalidValue));
    assert_eq!(read::<i64>(b"\x02\x02\xff\x80"), Err(ParseError::InvalidValue));
    assert_eq!(
        read::<i64>(b"\x02\x09\x02\x00\x00\x00\x00\x00\x00\x00\x00"),
        Err(ParseError::IntegerOverflow)
    );
    assert_eq!(
        read::<i64>(b"\x02\x09\xff\x00\x00\x00\x00\x00\x00\x00\x00"),
        Err(ParseError::IntegerOverflow)
    );
    // The zero octet in front keeps the number from being negative, and it is too large.
    assert_eq!(
        read::<i64>(b"\x02\x09\x00\xff\xff\xff\xff\xff\xff\xff\xfe"),
        Err(ParseError::IntegerOverflow)
    );
    assert_eq!(
        read::<i64>(b"\x02\x09\x00\x80\x00\x00\x00\x00\x00\x00\x00"),
        Err(ParseError::IntegerOverflow)
    );
}

#[test]
fn u64_read_and_write() {
    let cases: [(u64, &[u8]); 9] = [
        (0, b"\x02\x01\x00"),
        (127, b"\x02\x01\x7f"),
        (128, b"\x02\x02\x00\x80"),
        (256, b"\x02\x02\x01\x00"),
        (0x1234_5678_9abc_def0, b"\x02\x08\x12\x34\x56\x78\x9a\xbc\xde\xf0"),
        (0x7fff_ffff_ffff_ffff, b"\x02\x08\x7f\xff\xff\xff\xff\xff\xff\xff"),
        (0x8000_0000_0000_0000, b"\x02\x09\x00\x80\x00\x00\x00\x00\x00\x00\x00"),
        (12356915591483590945, b"\x02\x09\x00\xab\x7c\x95\x42\xbd\xdd\x89\x21"),
        (u64::MAX, b"\x02\x09\x00\xff\xff\xff\xff\xff\xff\xff\xff"),
    ];
    for (v, data) in cases.iter() {
        assert_eq!(read::<u64>(data), Ok(*v));
        assert_eq!(&write::<u64>(*v), data);
    }
    assert_eq!(read::<u64>(b"\x02\x01\xff"), Err(ParseError::InvalidValue));
    assert_eq!(
        read::<u64>(b"\x02\x09\x02\x00\x00\x00\x00\x00\x00\x00\x00"),
        Err(ParseError::IntegerOverflow)
    );
}

#[test]
fn i8_read_and_write() {
    for v in i8::MIN..=i8::MAX {
        let data = write::<i8>(v);
        assert_eq!(data, vec![0x02, 0x01, v as u8]);
        assert_eq!(read::<i8>(&data), Ok(v));
    }
    assert_eq!(read::<i8>(b"\x02\x02\x01\x00"), Err(ParseError::IntegerOverflow));
    assert_eq!(read::<i8>(b"\x02\x02\xff\x7f"), Err(ParseError::IntegerOverflow));
    for v in 128u8..=255 {
        assert_eq!(read::<i8>(&[0x02, 0x02, 0x00, v]), Err(ParseError::IntegerOverflow));
    }
    assert_eq!(read::<i8>(b"\x02\x00"), Err(ParseError::InvalidValue));
}

#[test]
fn u8_read_and_write() {
    for v in 0u8..=127 {
        let data = write::<u8>(v);
        assert_eq!(data, vec![0x02, 0x01, v]);
        assert_eq!(read::<u8>(&data), Ok(v));
    }
    for v in 128u8..=255 {
        let data = write::<u8>(v);
        assert_eq!(data, vec![0x02, 0x02, 0x00, v]);
        assert_eq!(contents::<u8>(v), vec![0x00, v]);
        assert_eq!(read::<u8>(&data), Ok(v));
    }
    assert_eq!(read::<u8>(b"\x02\x02\x01\x00"), Err(ParseError::IntegerOverflow));
    assert_eq!(read::<u8>(b"\x02\x01\x80"), Err(ParseError::InvalidValue));
}
