use asn1::{
    parse, Choice2, DateTime, Explicit, Implicit, ParseError, ParseResult, Parser,
    SimpleAsn1Element, UtcTime, Writer,
};

fn time(year: i32, month: u8, day: u8, hour: u8, minute: u8, second: u8) -> DateTime {
    DateTime::new(year, month, day, hour, minute, second).unwrap()
}

fn read(text: &str) -> ParseResult<DateTime> {
    UtcTime::parse_data(text.as_bytes())
}

#[test]
fn times_in_utc() {
    assert_eq!(read("910506234540Z"), Ok(time(1991, 5, 6, 23, 45, 40)));
    assert_eq!(read("9105062345Z"), Ok(time(1991, 5, 6, 23, 45, 0)));
    assert_eq!(read("000229000000Z"), Ok(time(2000, 2, 29, 0, 0, 0)));
}

#[test]
fn times_with_an_offset() {
    assert_eq!(read("910506164540-0700"), Ok(time(1991, 5, 6, 23, 45, 40)));
    assert_eq!(read("910506164540+0730"), Ok(time(1991, 5, 6, 9, 15, 40)));
    assert_eq!(read("9105061645-0700"), Ok(time(1991, 5, 6, 23, 45, 0)));
    assert_eq!(read("9105061645+0730"), Ok(time(1991, 5, 6, 9, 15, 0)));
    assert_eq!(read("000101003000+0100"), Ok(time(1999, 12, 31, 23, 30, 0)));
    assert_eq!(read("700101000000+2359"), Ok(time(1969, 12, 31, 0, 1, 0)));
}

#[test]
fn century_of_a_time() {
    assert_eq!(read("500101000000Z"), Ok(time(1950, 1, 1, 0, 0, 0)));
    assert_eq!(read("5105062345Z"), Ok(time(1951, 5, 6, 23, 45, 0)));
    assert_eq!(read("520229010203Z"), Ok(time(1952, 2, 29, 1, 2, 3)));
    assert_eq!(read("691231235959Z"), Ok(time(1969, 12, 31, 23, 59, 59)));
    assert_eq!(read("700101000000Z"), Ok(time(1970, 1, 1, 0, 0, 0)));
    assert_eq!(read("491231235959Z"), Ok(time(2049, 12, 31, 23, 59, 59)));
    // A time with an offset is assigned its century by the year that it has in UTC.
    assert_eq!(read("491231233000-0100"), Ok(time(1950, 1, 1, 0, 30, 0)));
    assert_eq!(read("500101003000+0100"), Ok(time(2049, 12, 31, 23, 30, 0)));
    assert_eq!(read("691231233000-0100"), Ok(time(1970, 1, 1, 0, 30, 0)));
}

#[test]
fn leap_seconds_are_refused() {
    assert_eq!(read("991231235960Z"), Err(ParseError::InvalidValue));
    assert_eq!(read("910506164560-0700"), Err(ParseError::InvalidValue));
}

#[test]
fn what_is_no_time_is_refused() {
    for text in [
        "",
        "Z",
        "910506Z",
        "910506234540",
        "a10506234540Z",
        "91a506234540Z",
        "9105a6234540Z",
        "910506a34540Z",
        "910506334a40Z",
        "91050633444aZ",
        "910506334461Z",
        "910506334400Za",
        "000100000000Z",
        "101302030405Z",
        "100002030405Z",
        "100100030405Z",
        "100132030405Z",
        "100231030405Z",
        "010229000000Z",
        "100102240405Z",
        "100102036005Z",
        "-100102030410Z",
        "10-0102030410Z",
        "910506164540-07",
        "910506164540+0760",
        "910506164540+2400",
        "910506164540+0730Z",
    ]
    .iter()
    {
        assert_eq!(read(text), Err(ParseError::InvalidValue), "{:?}", text);
    }
}

#[test]
fn what_is_not_utf8_is_no_time() {
    assert_eq!(UtcTime::parse_data(b"910506234540\xff"), Err(ParseError::InvalidValue));
    assert_eq!(UtcTime::parse_data(b"\x80"), Err(ParseError::InvalidValue));
}

#[test]
fn times_are_written() {
    let cases: [(DateTime, &[u8]); 5] = [
        (time(1991, 5, 6, 23, 45, 40), b"\x17\x0d910506234540Z"),
        (time(1950, 1, 1, 0, 0, 0), b"\x17\x0d500101000000Z"),
        (time(1999, 12, 31, 23, 59, 59), b"\x17\x0d991231235959Z"),
        (time(2000, 2, 29, 10, 9, 8), b"\x17\x0d000229100908Z"),
        (time(2049, 12, 31, 23, 59, 59), b"\x17\x0d491231235959Z"),
    ];
    for (t, data) in cases.iter() {
        let mut w = Writer::new_with_storage(Vec::new());
        w.write_element_with_type::<UtcTime>(*t);
        assert_eq!(&w.into_storage(), data);
        assert_eq!(parse(data, |p: &mut Parser| p.read_element::<UtcTime>()), Ok(*t));
    }
}

#[test]
fn every_year_is_read_back() {
    for year in 1950..2050 {
        for month in 1..=12 {
            let t = time(year, month, 28, 12, 34, 56);
            let mut data = Vec::new();
            UtcTime::write_data(&mut data, t);
            assert_eq!(UtcTime::parse_data(&data), Ok(t));
        }
    }
}

#[test]
fn settling_a_time() {
    let a = time(1991, 5, 6, 23, 45, 40);
    let b = time(2051, 5, 6, 23, 45, 40);
    assert_eq!(UtcTime::settle(Some(a), None), Ok(a));
    assert_eq!(UtcTime::settle(Some(a), Some(b)), Ok(time(1951, 5, 6, 23, 45, 40)));
    assert_eq!(UtcTime::settle(None, None), Err(ParseError::InvalidValue));
}

#[test]
fn leap_seconds_and_fractions() {
    let leap = DateTime::new_nano(1998, 12, 31, 23, 59, 59, 1_000_000_000).unwrap();
    assert_eq!(leap.nanosecond(), 1_000_000_000);
    assert_eq!(UtcTime::settle(Some(leap), None), Err(ParseError::InvalidValue));
    assert_eq!(UtcTime::settle(None, Some(leap)), Err(ParseError::InvalidValue));
    let t = DateTime::new_nano(2060, 1, 2, 3, 4, 5, 999_999).unwrap();
    assert_eq!(UtcTime::settle(Some(t), None), Ok(time(1960, 1, 2, 3, 4, 5)));
    let t = DateTime::new_nano(2020, 1, 2, 3, 4, 5, 999_999).unwrap();
    assert_eq!(UtcTime::settle(Some(t), None), Ok(t));
    let t = DateTime::new_nano(2020, 1, 2, 3, 4, 5, 1_000_000).unwrap();
    assert_eq!(UtcTime::settle(Some(t), None), Err(ParseError::InvalidValue));
    // What is written of a time has no fractions.
    let mut data = Vec::new();
    UtcTime::write_data(&mut data, t);
    assert_eq!(data, b"200102030405Z");
    assert!(DateTime::new_nano(2020, 1, 2, 3, 4, 5, 2_000_000_000).is_none());
}

#[test]
fn variants_of_a_time_agree() {
    for digits in [
        "9105062345", "5002291200", "5202291200", "9113062345", "9105322345", "9105062445",
        "9105062360", "0000000000", "9999999999", "4912312359", "5001010000",
    ]
    .iter()
    {
        let r = read(&format!("{}Z", digits));
        assert_eq!(read(&format!("{}+0000", digits)), r);
        assert_eq!(read(&format!("{}-0000", digits)), r);
        assert_eq!(read(&format!("{}00-0000", digits)), r);
        assert_eq!(read(&format!("{}00Z", digits)), r);
        assert_eq!(read(&format!("{}00+0000", digits)), r);
        for second in ["59", "60", "61", "99"].iter() {
            let r = read(&format!("{}{}Z", digits, second));
            assert_eq!(read(&format!("{}{}+0000", digits, second)), r);
            assert_eq!(r.is_ok(), read(&format!("{}Z", digits)).is_ok() && *second == "59");
        }
    }
}

#[test]
fn offsets_that_there_are() {
    assert_eq!(read("910506164540+2359"), Ok(time(1991, 5, 5, 16, 46, 40)));
    assert_eq!(read("9105061645-2359"), Ok(time(1991, 5, 7, 16, 44, 0)));
    for offset in ["0060", "0099", "2360", "2400", "2459", "9900", "9999"].iter() {
        for digits in ["9105061645", "910506164540"].iter() {
            for sign in ["+", "-"].iter() {
                let text = format!("{}{}{}", digits, sign, offset);
                assert_eq!(read(&text), Err(ParseError::InvalidValue), "{}", text);
            }
        }
    }
}

#[test]
fn times_inside_other_elements() {
    let t = time(1952, 2, 29, 1, 2, 3);
    let mut w = Writer::new_with_storage(Vec::new());
    w.write_element_with_type::<Explicit<UtcTime, 1>>(t);
    w.write_element_with_type::<Implicit<UtcTime, 2>>(t);
    w.write_element_with_type::<UtcTime>(t);
    let data = w.into_storage();
    let r = parse(&data, |p: &mut Parser| {
        assert_eq!(p.read_element::<Explicit<UtcTime, 1>>(), Ok(t));
        assert_eq!(p.read_element::<Option<Implicit<UtcTime, 2>>>(), Ok(Some(t)));
        match p.read_element::<Choice2<bool, UtcTime>>() {
            Ok(Choice2::ChoiceB(read)) => Ok(read),
            Ok(Choice2::ChoiceA(_)) => Err(ParseError::InvalidValue),
            Err(e) => Err(e),
        }
    });
    assert_eq!(r, Ok(t));
}

#[test]
fn dates_that_there_are() {
    assert!(DateTime::new(2000, 2, 29, 0, 0, 0).is_some());
    assert!(DateTime::new(1900, 2, 29, 0, 0, 0).is_none());
    assert!(DateTime::new(2004, 2, 30, 0, 0, 0).is_none());
    assert!(DateTime::new(2001, 4, 31, 0, 0, 0).is_none());
    assert!(DateTime::new(2001, 13, 1, 0, 0, 0).is_none());
    assert!(DateTime::new(2001, 0, 1, 0, 0, 0).is_none());
    assert!(DateTime::new(2001, 1, 0, 0, 0, 0).is_none());
    assert!(DateTime::new(2001, 1, 1, 24, 0, 0).is_none());
    assert!(DateTime::new(2001, 1, 1, 0, 60, 0).is_none());
    assert!(DateTime::new(2001, 1, 1, 0, 0, 60).is_none());
    let t = time(2001, 2, 3, 4, 5, 6);
    assert_eq!((t.year(), t.month(), t.day()), (2001, 2, 3));
    assert_eq!((t.hour(), t.minute(), t.second()), (4, 5, 6));
    assert_eq!(t.nanosecond(), 0);
}
