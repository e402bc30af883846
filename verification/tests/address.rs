use memscan::process::address::{Address, ParseError, Range};

#[test]
fn negitive() {
    match Address::new_from_str("-1234567890abcdef") {
        Some(_) => panic!(),
        None => 0,
    };
}

#[test]
fn positive() {
    match Address::new_from_str("1234567890abcdef") {
        Some(a) => assert_eq!(a.addr, 0x1234567890abcdef),
        None => panic!(),
    };
}

#[test]
fn non_hex() {
    match Address::new_from_str("1234567890abcdefg") {
        Some(_) => panic!(),
        None => 0,
    };
}

#[test]
fn too_big() {
    let max_plus_one = format!("{:0x}1", u64::max_value());

    match Address::new_from_str(&max_plus_one) {
        Some(_) => panic!(),
        None => 0,
    };
}

#[test]
fn empty_text_is_no_address() {
    assert_eq!(Address::new_from_str(""), None);
    assert_eq!(Address::parse(""), Err(ParseError::NotHex));
}

#[test]
fn sign_is_no_digit() {
    assert_eq!(Address::parse("-1"), Err(ParseError::NotHex));
    assert_eq!(Address::parse("+1"), Err(ParseError::NotHex));
    assert_eq!(Address::parse("-"), Err(ParseError::NotHex));
    assert_eq!(Address::parse("0x10"), Err(ParseError::NotHex));
    assert_eq!(Address::parse(" 10"), Err(ParseError::NotHex));
    assert_eq!(Address::parse("1\u{e9}"), Err(ParseError::NotHex));
}

#[test]
fn largest_address_fits() {
    assert_eq!(
        Address::parse("ffffffffffffffff"),
        Ok(Address { addr: u64::MAX })
    );
    assert_eq!(
        Address::parse("0000ffffffffffffffff"),
        Ok(Address { addr: u64::MAX })
    );
}

#[test]
fn one_above_largest_overflows() {
    assert_eq!(
        Address::parse("10000000000000000"),
        Err(ParseError::Overflow)
    );
    assert_eq!(
        Address::parse("fffffffffffffffff"),
        Err(ParseError::Overflow)
    );
}

#[test]
fn other_character_outweighs_overflow() {
    assert_eq!(
        Address::parse("fffffffffffffffffg"),
        Err(ParseError::NotHex)
    );
    assert_eq!(
        Address::parse("gfffffffffffffffff"),
        Err(ParseError::NotHex)
    );
}

#[test]
fn digits_in_both_cases() {
    assert_eq!(Address::parse("AbCdEf"), Ok(Address { addr: 0xabcdef }));
    assert_eq!(Address::parse("abcdef"), Address::parse("ABCDEF"));
    assert_eq!(Address::parse("0"), Ok(Address { addr: 0 }));
    assert_eq!(Address::parse("0123456789"), Ok(Address { addr: 0x123456789 }));
    assert_eq!(Address::parse("10"), Ok(Address { addr: 16 }));
}

#[test]
fn address_text_has_sixteen_digits() {
    assert_eq!(Address { addr: 0 }.to_string(), "0000000000000000");
    assert_eq!(Address { addr: 1 }.to_string(), "0000000000000001");
    assert_eq!(Address { addr: 0x1f }.to_string(), "000000000000001f");
    assert_eq!(Address { addr: 0xdeadbeef }.to_string(), "00000000deadbeef");
    assert_eq!(Address { addr: 0x1_0000_0000 }.to_string(), "0000000100000000");
    assert_eq!(Address { addr: 0x7ffc_1234_5000 }.to_string(), "00007ffc12345000");
    assert_eq!(Address { addr: 0xABCD_EF01_2345_6789 }.to_string(), "abcdef0123456789");
    assert_eq!(Address { addr: u64::MAX }.to_string(), "ffffffffffffffff");
}

#[test]
fn address_text_has_one_width_and_lowercase_digits() {
    for shift in 0..64 {
        for addr in [1u64 << shift, (1u64 << shift) - 1, u64::MAX >> shift] {
            let text = Address { addr }.to_string();
            assert_eq!(text.len(), 16);
            assert!(text.chars().all(|c| matches!(c, '0'..='9' | 'a'..='f')));
            assert_eq!(u64::from_str_radix(&text, 16), Ok(addr));
        }
    }
}

#[test]
fn address_text_is_what_std_writes() {
    for addr in [0u64, 1, 9, 10, 15, 16, 255, 256, 0xfff_ffff, 0x1000_0000, 0xffff_ffff, 0x1_0000_0000, u64::MAX - 1] {
        assert_eq!(Address { addr }.to_string(), format!("{:016x}", addr));
    }
}

#[test]
fn address_read_from_its_own_text() {
    for addr in [0u64, 7, 0x10, 0xabcdef, 0x1234_5678_9abc_def0, u64::MAX] {
        let a = Address { addr };
        assert_eq!(Address::parse(&a.to_string()), Ok(a));
    }
}

#[test]
fn text_of_parsed_address_reads_the_same() {
    for text in ["1234567890abcdef", "ABC", "000a", "0", "00000000000000000001"] {
        let first = Address::parse(text).unwrap();
        let again = Address::parse(&first.to_string()).unwrap();
        assert_eq!(first, again);
    }
}

#[test]
fn range_with_start_above_end_fails() {
    assert_eq!(Range::parse("a-5"), None);
}

#[test]
fn range_with_start_below_end() {
    let r = Range::parse("5-a").unwrap();
    assert_eq!(r.start.addr, 0x5);
    assert_eq!(r.end.addr, 0xa);
    let r = Range::new_from_str("5-a");
    assert_eq!(r.start, Address { addr: 5 });
    assert_eq!(r.end, Address { addr: 10 });
}

#[test]
fn range_of_one_address() {
    assert_eq!(
        Range::parse("7-7"),
        Some(Range { start: Address { addr: 7 }, end: Address { addr: 7 } })
    );
}

#[test]
fn range_needs_one_separator() {
    assert_eq!(Range::parse(""), None);
    assert_eq!(Range::parse("5"), None);
    assert_eq!(Range::parse("5a"), None);
    assert_eq!(Range::parse("1-2-3"), None);
    assert_eq!(Range::parse("1--2"), None);
    assert_eq!(Range::parse("-"), None);
    assert_eq!(Range::parse("1-"), None);
    assert_eq!(Range::parse("-2"), None);
}

#[test]
fn range_needs_two_addresses() {
    assert_eq!(Range::parse("g-1"), None);
    assert_eq!(Range::parse("1-g"), None);
    assert_eq!(Range::parse("1-10000000000000000"), None);
    assert_eq!(Range::parse("1 -2"), None);
}

#[test]
fn range_of_a_mapping_line() {
    let r = Range::parse("00400000-00452000").unwrap();
    assert_eq!(r.start.addr, 0x400000);
    assert_eq!(r.end.addr, 0x452000);
    let r = Range::parse("0-ffffffffffffffff").unwrap();
    assert_eq!(r.start.addr, 0);
    assert_eq!(r.end.addr, u64::MAX);
}

#[test]
fn range_text_has_no_padding() {
    let r = Range { start: Address { addr: 0x400000 }, end: Address { addr: 0x452000 } };
    assert_eq!(r.to_string(), "400000-452000");
    let r = Range { start: Address { addr: 0 }, end: Address { addr: u64::MAX } };
    assert_eq!(r.to_string(), "0-ffffffffffffffff");
    assert_eq!(r.to_string(), format!("{:0x}-{:0x}", 0u64, u64::MAX));
}

#[test]
fn range_read_from_its_own_text() {
    for (start, end) in [(0u64, 0u64), (1, 100), (0x1000, 0x2000), (0, u64::MAX), (u64::MAX, u64::MAX)] {
        let r = Range { start: Address { addr: start }, end: Address { addr: end } };
        assert_eq!(Range::parse(&r.to_string()), Some(r));
    }
}
