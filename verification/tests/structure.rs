use asn1::{
    parse, Asn1Element, Choice1, Choice2, Choice3, Contents, Explicit, Implicit, ParseError,
    ParseResult, Parser, PrintableString, Sequence, SimpleAsn1Element, Writer,
};

fn read<'a, T: Asn1Element<'a>>(data: &'a [u8]) -> ParseResult<T::ParsedType> {
    parse(data, |p: &mut Parser<'a>| p.read_element::<T>())
}

fn write<'a, T: SimpleAsn1Element<'a>>(val: T::WriteType) -> Vec<u8> {
    let mut w = Writer::new_with_storage(Vec::new());
    w.write_element_with_type::<T>(val);
    w.into_storage()
}

#[derive(Debug, PartialEq)]
struct Failed(ParseError);

impl From<ParseError> for Failed {
    fn from(e: ParseError) -> Failed {
        Failed(e)
    }
}

#[test]
fn data_left_over_is_refused() {
    assert_eq!(read::<bool>(b"\x01\x01\xff\x00"), Err(ParseError::ExtraData));
    let r: Result<(), Failed> = parse(b"\x01\x01\xff", |_p: &mut Parser| Ok(()));
    assert_eq!(r, Err(Failed(ParseError::ExtraData)));
    let r: Result<(), Failed> = parse(b"", |_p: &mut Parser| Ok(()));
    assert_eq!(r, Ok(()));
    let r: Result<(), Failed> = parse(b"\x01\x01\xff", |_p: &mut Parser| {
        Err(Failed(ParseError::ShortData))
    });
    assert_eq!(r, Err(Failed(ParseError::ShortData)));
}

#[test]
fn truncated_data_is_refused() {
    assert_eq!(read::<bool>(b""), Err(ParseError::ShortData));
    assert_eq!(read::<bool>(b"\x01"), Err(ParseError::ShortData));
    assert_eq!(read::<bool>(b"\x01\x01"), Err(ParseError::ShortData));
    assert_eq!(read::<&[u8]>(b"\x04\x82\x01"), Err(ParseError::ShortData));
    assert_eq!(read::<&[u8]>(b"\x04\x05\x01"), Err(ParseError::ShortData));
}

#[test]
fn another_tag_is_refused() {
    assert_eq!(read::<bool>(b"\x02\x01\xff"), Err(ParseError::UnexpectedTag { actual: 0x02 }));
    assert_eq!(read::<i64>(b"\x04\x01\xff"), Err(ParseError::UnexpectedTag { actual: 0x04 }));
}

#[test]
fn lengths() {
    for n in [0usize, 1, 127, 128, 255, 256, 65535, 65536].iter() {
        let val = vec![0x5a; *n];
        let data = write::<&[u8]>(&val);
        let header: &[u8] = match *n {
            0 => b"\x04\x00",
            1 => b"\x04\x01",
            127 => b"\x04\x7f",
            128 => b"\x04\x81\x80",
            255 => b"\x04\x81\xff",
            256 => b"\x04\x82\x01\x00",
            65535 => b"\x04\x82\xff\xff",
            _ => b"\x04\x83\x01\x00\x00",
        };
        assert_eq!(&data[..header.len()], header);
        assert_eq!(&data[header.len()..], &val[..]);
        assert_eq!(read::<&[u8]>(&data), Ok(&val[..]));
    }
    // The indefinite form, a long form of what has a short one, a leading zero, and a length that
    // no `usize` holds.
    assert_eq!(read::<&[u8]>(b"\x04\x80"), Err(ParseError::InvalidValue));
    assert_eq!(read::<&[u8]>(b"\x04\x81\x01\x00"), Err(ParseError::InvalidValue));
    assert_eq!(read::<&[u8]>(b"\x04\x82\x00\x80"), Err(ParseError::InvalidValue));
    assert_eq!(
        read::<&[u8]>(b"\x04\x89\x01\x00\x00\x00\x00\x00\x00\x00\x00"),
        Err(ParseError::IntegerOverflow)
    );
}

#[test]
fn writer_keeps_what_was_there() {
    let mut w = Writer::new_with_storage(vec![0x99]);
    w.write_element_with_type::<bool>(true);
    w.write_element_with_type::<i64>(-129);
    assert_eq!(w.into_storage(), b"\x99\x01\x01\xff\x02\x02\xff\x7f");
}

#[test]
fn elements_one_after_the_other() {
    let r = parse(b"\x01\x01\xff\x02\x01\x07", |p: &mut Parser| {
        assert!(!p.is_empty());
        let b = p.read_element::<bool>()?;
        let n = p.read_element::<i64>()?;
        assert!(p.is_empty());
        Ok::<(bool, i64), ParseError>((b, n))
    });
    assert_eq!(r, Ok((true, 7)));
}

#[test]
fn optional_elements() {
    assert_eq!(read::<Option<bool>>(b""), Ok(None));
    assert_eq!(read::<Option<bool>>(b"\x01\x01\xff"), Ok(Some(true)));
    assert_eq!(read::<Option<bool>>(b"\x01\x01\x01"), Err(ParseError::InvalidValue));
    let r = parse(b"\x02\x01\x05", |p: &mut Parser| {
        let b = p.read_element::<Option<bool>>()?;
        let n = p.read_element::<Option<i64>>()?;
        Ok::<(Option<bool>, Option<i64>), ParseError>((b, n))
    });
    assert_eq!(r, Ok((None, Some(5))));
}

#[test]
fn choice_of_one() {
    assert_eq!(read::<Choice1<bool>>(b"\x01\x01\xff"), Ok(Choice1::ChoiceA(true)));
    assert_eq!(
        read::<Choice1<bool>>(b"\x04\x00"),
        Err(ParseError::UnexpectedTag { actual: 0x04 })
    );
    assert_eq!(read::<Choice1<bool>>(b""), Err(ParseError::ShortData));
    let r = parse(b"\x01\x01\xff", |p: &mut Parser| match Choice1::<bool>::parse(p) {
        Ok(Choice1::ChoiceA(b)) => Ok(b),
        Err(e) => Err(e),
    });
    assert_eq!(r, Ok(true));
    assert_eq!(read::<Choice1<bool>>(b"\x01\x01\x02"), Err(ParseError::InvalidValue));
}

#[test]
fn choice_of_two() {
    assert_eq!(read::<Choice2<bool, i64>>(b"\x01\x01\xff"), Ok(Choice2::ChoiceA(true)));
    assert_eq!(read::<Choice2<bool, i64>>(b"\x02\x01\x12"), Ok(Choice2::ChoiceB(18)));
    assert_eq!(
        read::<Choice2<bool, i64>>(b"\x04\x00"),
        Err(ParseError::UnexpectedTag { actual: 0x04 })
    );
    assert_eq!(read::<Choice2<bool, i64>>(b""), Err(ParseError::ShortData));
    // Where two types have one tag, the first of them is read.
    assert_eq!(read::<Choice2<i8, i64>>(b"\x02\x01\x12"), Ok(Choice2::ChoiceA(18)));
    assert_eq!(
        read::<Choice2<i8, i64>>(b"\x02\x02\x12\x12"),
        Err(ParseError::IntegerOverflow)
    );
}

#[test]
fn choice_of_three() {
    assert_eq!(read::<Choice3<bool, i64, ()>>(b"\x01\x01\xff"), Ok(Choice3::ChoiceA(true)));
    assert_eq!(read::<Choice3<bool, i64, ()>>(b"\x02\x01\x12"), Ok(Choice3::ChoiceB(18)));
    assert_eq!(read::<Choice3<bool, i64, ()>>(b"\x05\x00"), Ok(Choice3::ChoiceC(())));
    assert_eq!(
        read::<Choice3<bool, i64, ()>>(b"\x04\x00"),
        Err(ParseError::UnexpectedTag { actual: 0x04 })
    );
    assert_eq!(read::<Choice3<bool, i64, ()>>(b""), Err(ParseError::ShortData));
}

#[test]
fn choice_leaves_what_it_refuses() {
    let r = parse(b"\x04\x00", |p: &mut Parser| {
        let refused = p.read_element::<Choice1<bool>>();
        assert_eq!(refused, Err(ParseError::UnexpectedTag { actual: 0x04 }));
        p.read_element::<&[u8]>().map(|s| s.len())
    });
    assert_eq!(r, Ok(0));
}

#[test]
fn sequences_are_read() {
    let s = read::<Sequence>(b"\x30\x06\x01\x01\xff\x02\x01\x05").unwrap();
    let r = s.parse(|p: &mut Parser| {
        let b = p.read_element::<bool>()?;
        let n = p.read_element::<i64>()?;
        Ok::<(bool, i64), ParseError>((b, n))
    });
    assert_eq!(r, Ok((true, 5)));
    let s = read::<Sequence>(b"\x30\x06\x01\x01\xff\x02\x01\x05").unwrap();
    assert_eq!(
        s.parse(|p: &mut Parser| p.read_element::<bool>()),
        Err(ParseError::ExtraData)
    );
    let s = read::<Sequence>(b"\x30\x00").unwrap();
    assert_eq!(s.parse(|p: &mut Parser| p.read_element::<bool>()), Err(ParseError::ShortData));
    assert_eq!(read::<Sequence>(b"\x30\x00"), read::<Sequence>(b"\x30\x00"));
}

#[test]
fn sequences_are_written() {
    let body = |w: Writer| {
        let mut w = w;
        w.write_element_with_type::<bool>(true);
        w.write_element_with_type::<i64>(5);
        w
    };
    assert_eq!(
        write::<Sequence>(Contents(&body)),
        b"\x30\x06\x01\x01\xff\x02\x01\x05"
    );
    let nested = |w: Writer| {
        let mut w = w;
        w.write_element_with_type::<Sequence>(Contents(&body));
        w
    };
    assert_eq!(
        write::<Sequence>(Contents(&nested)),
        b"\x30\x08\x30\x06\x01\x01\xff\x02\x01\x05"
    );
    let nothing = |w: Writer| w;
    assert_eq!(write::<Sequence>(Contents(&nothing)), b"\x30\x00");
}

#[test]
fn a_sequence_body_writes_behind_what_is_there() {
    // The body sees what has been written before it.
    let body = |w: Writer| {
        let seen = w.into_storage();
        let mut w = Writer::new_with_storage(seen.clone());
        w.write_element_with_type::<&[u8]>(&seen);
        w
    };
    let mut dest = vec![0x01, 0x02];
    Sequence::write_data(&mut dest, Contents(&body));
    assert_eq!(dest, b"\x01\x02\x04\x02\x01\x02");
    let nothing = |w: Writer| w;
    let mut dest = vec![0x01, 0x02];
    Sequence::write_data(&mut dest, Contents(&nothing));
    assert_eq!(dest, b"\x01\x02");
}

#[test]
fn implicit_tags() {
    assert_eq!(<Implicit<bool, 2> as SimpleAsn1Element>::TAG, 0x82);
    assert_eq!(<Implicit<Sequence, 2> as SimpleAsn1Element>::TAG, 0xa2);
    assert_eq!(read::<Implicit<bool, 2>>(b"\x82\x01\xff"), Ok(true));
    assert_eq!(
        read::<Implicit<bool, 2>>(b"\x01\x01\xff"),
        Err(ParseError::UnexpectedTag { actual: 0x01 })
    );
    assert_eq!(write::<Implicit<bool, 2>>(true), b"\x82\x01\xff");
    assert_eq!(write::<Implicit<&[u8], 0>>(b"ab"), b"\x80\x02ab");
    assert_eq!(read::<Option<Implicit<bool, 2>>>(b""), Ok(None));
    assert_eq!(read::<Option<Implicit<bool, 2>>>(b"\x82\x01\x00"), Ok(Some(false)));
    let s = read::<Implicit<Sequence, 2>>(b"\xa2\x03\x01\x01\xff").unwrap();
    assert_eq!(s.parse(|p: &mut Parser| p.read_element::<bool>()), Ok(true));
}

#[test]
fn explicit_tags() {
    assert_eq!(<Explicit<bool, 2> as SimpleAsn1Element>::TAG, 0xa2);
    assert_eq!(read::<Explicit<bool, 2>>(b"\xa2\x03\x01\x01\xff"), Ok(true));
    assert_eq!(
        read::<Explicit<bool, 2>>(b"\xa2\x04\x01\x01\xff\x00"),
        Err(ParseError::ExtraData)
    );
    assert_eq!(
        read::<Explicit<bool, 2>>(b"\xa2\x03\x02\x01\xff"),
        Err(ParseError::UnexpectedTag { actual: 0x02 })
    );
    assert_eq!(read::<Explicit<bool, 2>>(b"\xa2\x00"), Err(ParseError::ShortData));
    assert_eq!(write::<Explicit<bool, 2>>(true), b"\xa2\x03\x01\x01\xff");
    assert_eq!(
        write::<Explicit<Explicit<i64, 1>, 0>>(128),
        b"\xa0\x06\xa1\x04\x02\x02\x00\x80"
    );
    assert_eq!(
        read::<Explicit<Explicit<i64, 1>, 0>>(b"\xa0\x06\xa1\x04\x02\x02\x00\x80"),
        Ok(128)
    );
    let name = PrintableString::new("ab").unwrap();
    assert_eq!(write::<Explicit<PrintableString, 3>>(name), b"\xa3\x04\x13\x02ab");
}

#[test]
fn choice_of_tagged_elements() {
    assert!(matches!(
        read::<Choice2<Explicit<bool, 0>, Implicit<i64, 1>>>(b"\xa0\x03\x01\x01\xff"),
        Ok(Choice2::ChoiceA(true))
    ));
    assert!(matches!(
        read::<Choice2<Explicit<bool, 0>, Implicit<i64, 1>>>(b"\x81\x01\x07"),
        Ok(Choice2::ChoiceB(7))
    ));
}
