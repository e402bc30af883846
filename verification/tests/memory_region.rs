use memscan::process::address::{Address, Range};
use memscan::process::memory_region::{read_4_bytes, MemoryRegion, Perms, RegionError};

fn setup() -> MemoryRegion {
    MemoryRegion {
        addr_range: Range {
            start: Address { addr: 1 },
            end: Address { addr: 100 },
        },
        perms: Perms {
            read: true,
            write: false,
            execute: false,
            shared: false,
            private: false,
        },
        offset: Address { addr: 123 },
        pathname: "/proc/0".to_string(),
    }
}

#[test]
fn start_inclusive() {
    let region = setup();
    let addr = Address { addr: 1 };
    assert!(region.in_region(&addr));
}

#[test]
fn end_inclusive() {
    let region = setup();
    let addr = Address { addr: 100 };
    assert!(region.in_region(&addr));
}

#[test]
fn inside() {
    let region = setup();
    let addr = Address { addr: 50 };
    assert!(region.in_region(&addr));
}

#[test]
fn out_above_range() {
    let region = setup();
    let addr = Address { addr: 101 };
    assert!(!region.in_region(&addr));
}

#[test]
fn outside_below_range() {
    let region = setup();
    let addr = Address { addr: 0 };
    assert!(!region.in_region(&addr));
}

fn perms(read: bool, write: bool, execute: bool, shared: bool, private: bool) -> Perms {
    Perms { read, write, execute, shared, private }
}

fn region(start: u64, end: u64, read: bool) -> MemoryRegion {
    MemoryRegion {
        addr_range: Range { start: Address { addr: start }, end: Address { addr: end } },
        perms: perms(read, false, false, false, true),
        offset: Address { addr: 0 },
        pathname: String::new(),
    }
}

fn addresses(list: &[u64]) -> Vec<Address> {
    list.iter().map(|&addr| Address { addr }).collect()
}

#[test]
fn all_permissions_private() {
    assert_eq!(Perms::parse("rwxp"), Some(perms(true, true, true, false, true)));
    assert_eq!(Perms::new_from_str("rwxp"), perms(true, true, true, false, true));
}

#[test]
fn readable_and_shared_only() {
    assert_eq!(Perms::parse("r--s"), Some(perms(true, false, false, true, false)));
    assert_eq!(Perms::new_from_str("r--s"), perms(true, false, false, true, false));
}

#[test]
fn token_of_other_length_fails() {
    assert_eq!(Perms::parse(""), None);
    assert_eq!(Perms::parse("rwx"), None);
    assert_eq!(Perms::parse("rwxp-"), None);
    assert_eq!(Perms::parse("r"), None);
}

#[test]
fn token_length_counts_characters() {
    assert_eq!(Perms::parse("r-\u{e9}"), None);
    assert_eq!(Perms::parse("r-\u{e9}p"), Some(perms(true, false, false, false, true)));
}

#[test]
fn unknown_characters_set_nothing() {
    assert_eq!(Perms::parse("----"), Some(perms(false, false, false, false, false)));
    assert_eq!(Perms::parse("abcd"), Some(perms(false, false, false, false, false)));
    assert_eq!(Perms::parse("RWXP"), Some(perms(false, false, false, false, false)));
}

#[test]
fn letters_count_in_every_place() {
    assert_eq!(Perms::parse("pxwr"), Some(perms(true, true, true, false, true)));
    assert_eq!(Perms::parse("spsp"), Some(perms(false, false, false, true, true)));
    assert_eq!(Perms::parse("rrrr"), Some(perms(true, false, false, false, false)));
}

#[test]
fn permissions_text() {
    assert_eq!(perms(true, true, true, false, true).to_string(), "rwxp");
    assert_eq!(perms(true, false, false, true, false).to_string(), "r--s");
    assert_eq!(perms(false, false, false, false, false).to_string(), "----");
    assert_eq!(perms(false, true, false, false, false).to_string(), "-w--");
    assert_eq!(perms(false, false, true, false, false).to_string(), "--x-");
}

#[test]
fn private_takes_the_place_of_shared() {
    let both = perms(true, false, false, true, true);
    assert_eq!(both.to_string(), "r--p");
    assert_eq!(Perms::parse(&both.to_string()), Some(perms(true, false, false, false, true)));
}

#[test]
fn permissions_read_from_their_own_text() {
    for bits in 0..16u32 {
        let p = perms(bits & 1 != 0, bits & 2 != 0, bits & 4 != 0, bits & 8 != 0, false);
        assert_eq!(Perms::parse(&p.to_string()), Some(p));
        let p = perms(bits & 1 != 0, bits & 2 != 0, bits & 4 != 0, false, bits & 8 != 0);
        assert_eq!(Perms::parse(&p.to_string()), Some(p));
    }
}

#[test]
fn line_with_pathname() {
    let line = "00400000-00452000 r-xp 00001000 08:02 173521      /usr/bin/dbus-daemon";
    let r = MemoryRegion::new_from_str(line).unwrap();
    assert_eq!(r.addr_range, Range { start: Address { addr: 0x400000 }, end: Address { addr: 0x452000 } });
    assert_eq!(r.perms, perms(true, false, true, false, true));
    assert_eq!(r.offset, Address { addr: 0x1000 });
    assert_eq!(r.pathname, "/usr/bin/dbus-daemon");
    assert_eq!(r.to_string(), "400000-452000 r-xp 0000000000001000 /usr/bin/dbus-daemon");
}

#[test]
fn text_of_region_reads_as_the_same_region() {
    let line = "7f0000000000-7f0000021000 rw-s 0000a000 00:00 0 [heap]";
    let first = MemoryRegion::new_from_str(line).unwrap();
    let text = first.to_string();
    assert_eq!(text, "7f0000000000-7f0000021000 rw-s 000000000000a000 [heap]");
    let again = MemoryRegion::new_from_str(&text).unwrap();
    assert_eq!(again.addr_range, first.addr_range);
    assert_eq!(again.perms, first.perms);
    assert_eq!(again.offset, first.offset);
    assert_eq!(again.pathname, "");
}

#[test]
fn empty_line_is_no_region() {
    assert!(MemoryRegion::new_from_str("").is_none());
    assert!(MemoryRegion::new_from_str("   \t ").is_none());
}

#[test]
fn line_without_pathname() {
    let r = MemoryRegion::new_from_str("7f00-7f10 rw-p 00000000 00:00 0").unwrap();
    assert_eq!(r.pathname, "");
    assert_eq!(r.to_string(), "7f00-7f10 rw-p 0000000000000000 ");
    let r = MemoryRegion::new_from_str("7f00-7f10 rw-p 0").unwrap();
    assert_eq!(r.pathname, "");
    assert_eq!(r.offset.addr, 0);
    let r = MemoryRegion::new_from_str("7f00-7f10 rw-p 0 a b").unwrap();
    assert_eq!(r.pathname, "");
}

#[test]
fn pathname_is_the_sixth_word() {
    let r = MemoryRegion::new_from_str("\t1-2  r--p\u{a0}3 dev inode /a/b (deleted)\n").unwrap();
    assert_eq!(r.pathname, "/a/b");
    assert_eq!(r.offset.addr, 3);
}

#[test]
fn line_with_missing_fields_is_no_region() {
    assert!(MemoryRegion::new_from_str("7f00-7f10").is_none());
    assert!(MemoryRegion::new_from_str("7f00-7f10 rw-p").is_none());
}

#[test]
fn line_with_malformed_fields_is_no_region() {
    assert!(MemoryRegion::new_from_str("7f10-7f00 rw-p 0 00:00 0").is_none());
    assert!(MemoryRegion::new_from_str("7f00 rw-p 0 00:00 0").is_none());
    assert!(MemoryRegion::new_from_str("7f00-zz rw-p 0 00:00 0").is_none());
    assert!(MemoryRegion::new_from_str("7f00-7f10 rw- 0 00:00 0").is_none());
    assert!(MemoryRegion::new_from_str("7f00-7f10 rw-pp 0 00:00 0").is_none());
    assert!(MemoryRegion::new_from_str("7f00-7f10 rw-p -1 00:00 0").is_none());
    assert!(MemoryRegion::new_from_str("7f00-7f10 rw-p 10000000000000000 00:00 0").is_none());
}

#[test]
fn setup_region_text() {
    assert_eq!(setup().to_string(), "1-64 r--- 000000000000007b /proc/0");
}

#[test]
fn words_in_both_byte_orders() {
    let bytes = [0x12u8, 0x34, 0x56, 0x78];
    assert_eq!(MemoryRegion::as_u32_be(&bytes), 0x12345678);
    assert_eq!(MemoryRegion::as_u32_le(&bytes), 0x78563412);
    assert_eq!(MemoryRegion::as_u32(&bytes), 0x78563412);
    assert_eq!(MemoryRegion::as_u32_be(&bytes), u32::from_be_bytes(bytes));
    assert_eq!(MemoryRegion::as_u32_le(&bytes), u32::from_le_bytes(bytes));
}

#[test]
fn words_at_the_limits() {
    assert_eq!(MemoryRegion::as_u32_be(&[0, 0, 0, 0]), 0);
    assert_eq!(MemoryRegion::as_u32_le(&[0, 0, 0, 0]), 0);
    assert_eq!(MemoryRegion::as_u32_be(&[0xff; 4]), u32::MAX);
    assert_eq!(MemoryRegion::as_u32_le(&[0xff; 4]), u32::MAX);
    assert_eq!(MemoryRegion::as_u32_be(&[0, 0, 0, 1]), 1);
    assert_eq!(MemoryRegion::as_u32_le(&[1, 0, 0, 0]), 1);
    assert_eq!(MemoryRegion::as_u32_be(&[0x80, 0, 0, 0]), 0x8000_0000);
    assert_eq!(MemoryRegion::as_u32_le(&[0, 0, 0, 0x80]), 0x8000_0000);
    assert_eq!(MemoryRegion::as_u32(&42u32.to_le_bytes()), 42);
}

#[test]
fn four_bytes_from_an_offset() {
    let image = [1u8, 2, 3, 4, 5, 6];
    assert_eq!(read_4_bytes(&image, 0), [1, 2, 3, 4]);
    assert_eq!(read_4_bytes(&image, 2), [3, 4, 5, 6]);
}

fn image_of(words: &[u32]) -> Vec<u8> {
    let mut bytes = Vec::new();
    for w in words {
        bytes.extend_from_slice(&w.to_le_bytes());
    }
    bytes
}

#[test]
fn word_at_an_address() {
    let r = region(0x1000, 0x1010, true);
    let image = image_of(&[42, 7, 0xdeadbeef, 9]);
    assert_eq!(r.read_addr(&image, &Address { addr: 0x1000 }), Some(42));
    assert_eq!(r.read_addr(&image, &Address { addr: 0x1004 }), Some(7));
    assert_eq!(r.read_addr(&image, &Address { addr: 0x1008 }), Some(0xdeadbeef));
    assert_eq!(r.read_addr(&image, &Address { addr: 0x100c }), Some(9));
    assert_eq!(r.read_addr(&image, &Address { addr: 0x1001 }), Some(0x0700_0000));
}

#[test]
fn no_word_outside_the_region() {
    let r = region(0x1000, 0x1010, true);
    let image = image_of(&[42, 7, 0xdeadbeef, 9, 42]);
    assert_eq!(r.read_addr(&image, &Address { addr: 0xfff }), None);
    assert_eq!(r.read_addr(&image, &Address { addr: 0x100d }), None);
    assert_eq!(r.read_addr(&image, &Address { addr: 0x1010 }), None);
    assert_eq!(r.read_addr(&image, &Address { addr: 0 }), None);
    assert_eq!(r.read_addr(&image, &Address { addr: u64::MAX }), None);
}

#[test]
fn word_missing_from_the_image_is_cut_short() {
    let r = region(0x1000, 0x2000, true);
    let image = image_of(&[42, 7]);
    assert!(!r.is_truncated_at(&image, &Address { addr: 0x1000 }));
    assert!(!r.is_truncated_at(&image, &Address { addr: 0x1004 }));
    assert_eq!(r.read_addr(&image, &Address { addr: 0x1004 }), Some(7));
    assert!(r.is_truncated_at(&image, &Address { addr: 0x1005 }));
    assert!(r.is_truncated_at(&image, &Address { addr: 0x1008 }));
    assert!(r.is_truncated_at(&image, &Address { addr: 0x1ffc }));
    assert!(r.is_truncated_at(&[], &Address { addr: 0x1000 }));
    assert!(r.is_truncated_at(&[1, 2, 3], &Address { addr: 0x1000 }));
}

#[test]
fn no_read_is_cut_short_where_no_word_is_given() {
    let r = region(0x1000, 0x2000, true);
    let image = image_of(&[42, 7]);
    assert!(!r.is_truncated_at(&image, &Address { addr: 0xfff }));
    assert!(!r.is_truncated_at(&image, &Address { addr: 0x1ffd }));
    assert!(!r.is_truncated_at(&image, &Address { addr: 0x2000 }));
    assert!(!r.is_truncated_at(&image, &Address { addr: u64::MAX }));
    assert_eq!(r.read_addr(&image, &Address { addr: 0x1ffd }), None);
    assert_eq!(r.read_addr(&image, &Address { addr: 0x2000 }), None);
    let closed = region(0x1000, 0x2000, false);
    assert!(!closed.is_truncated_at(&[], &Address { addr: 0x1000 }));
    assert!(closed.is_complete(&[]));
    assert_eq!(closed.read_addr(&[], &Address { addr: 0x1000 }), None);
}

#[test]
fn no_word_where_reading_is_forbidden() {
    let r = region(0x1000, 0x1010, false);
    let image = image_of(&[42, 42, 42, 42]);
    assert_eq!(r.read_addr(&image, &Address { addr: 0x1000 }), None);
    assert_eq!(r.read_mem(&image, 42), None);
    assert_eq!(r.read_mem_from_addr_list(&image, &addresses(&[0x1000]), 42), None);
}

#[test]
fn every_fourth_address_is_tried() {
    let r = region(0x1000, 0x1010, true);
    let image = image_of(&[42, 7, 42, 42]);
    assert_eq!(r.read_mem(&image, 42), Some(addresses(&[0x1000, 0x1008, 0x100c])));
    assert_eq!(r.read_mem(&image, 7), Some(addresses(&[0x1004])));
    assert_eq!(r.read_mem(&image, 8), Some(vec![]));
}

#[test]
fn words_across_the_grid_are_not_found() {
    let r = region(0x1000, 0x1008, true);
    let image = [0u8, 42, 0, 0, 0, 0, 0, 0];
    assert_eq!(r.read_mem(&image, 42), Some(vec![]));
    assert_eq!(r.read_mem(&image, 42 << 8), Some(addresses(&[0x1000])));
}

#[test]
fn scan_stops_before_the_end_of_the_region() {
    let r = region(0x1000, 0x1008, true);
    let image = image_of(&[42, 42, 42, 42]);
    assert_eq!(r.read_mem(&image, 42), Some(addresses(&[0x1000, 0x1004])));
    let r = region(0x1000, 0x1007, true);
    assert_eq!(r.read_mem(&image, 42), Some(addresses(&[0x1000])));
    let r = region(0x1000, 0x1003, true);
    assert_eq!(r.read_mem(&image, 42), Some(vec![]));
    let r = region(0x1000, 0x1000, true);
    assert_eq!(r.read_mem(&image, 42), Some(vec![]));
    let r = region(0x1000, 0x800, true);
    assert_eq!(r.read_mem(&image, 42), Some(vec![]));
}

#[test]
fn image_must_hold_every_word_of_the_scan() {
    let r = region(0x1000, 0x1010, true);
    assert!(r.is_complete(&image_of(&[1, 2, 3, 4])));
    assert!(r.is_complete(&image_of(&[1, 2, 3, 4, 5])));
    assert!(!r.is_complete(&image_of(&[1, 2, 3])));
    assert!(!r.is_complete(&[0u8; 15]));
    assert!(!r.is_complete(&[]));
    let r = region(0x1000, 0x1007, true);
    assert!(r.is_complete(&[0u8; 4]));
    assert!(!r.is_complete(&[0u8; 3]));
    let r = region(0x1000, 0x1003, true);
    assert!(r.is_complete(&[]));
    let r = region(0x1000, 0x800, true);
    assert!(r.is_complete(&[]));
    let r = region(0, u64::MAX, true);
    assert!(!r.is_complete(&[0u8; 64]));
}

#[test]
fn scan_at_the_top_of_memory() {
    let r = region(u64::MAX - 8, u64::MAX, true);
    let image = image_of(&[42, 42, 42]);
    assert_eq!(r.read_mem(&image, 42), Some(addresses(&[u64::MAX - 8, u64::MAX - 4])));
    assert_eq!(r.read_addr(&image, &Address { addr: u64::MAX - 4 }), Some(42));
    assert_eq!(r.read_addr(&image, &Address { addr: u64::MAX - 3 }), None);
}

#[test]
fn list_is_narrowed_to_the_words_that_match() {
    let r = region(0x1000, 0x1010, true);
    let image = image_of(&[42, 7, 42, 42]);
    let list = addresses(&[0x100c, 0x1004, 0x1000, 0x2000, 0x1010, 0xfff]);
    assert_eq!(
        r.read_mem_from_addr_list(&image, &list, 42),
        Some(addresses(&[0x100c, 0x1000]))
    );
    assert_eq!(r.read_mem_from_addr_list(&image, &list, 7), Some(addresses(&[0x1004])));
    assert_eq!(r.read_mem_from_addr_list(&image, &vec![], 7), Some(vec![]));
}

fn error_of(line: &str) -> RegionError {
    MemoryRegion::parse(line).unwrap_err()
}

#[test]
fn line_with_too_few_words() {
    assert_eq!(error_of(""), RegionError::MissingField);
    assert_eq!(error_of(" \n"), RegionError::MissingField);
    assert_eq!(error_of("1000-2000"), RegionError::MissingField);
    assert_eq!(error_of("1000-2000 rw-p"), RegionError::MissingField);
    assert_eq!(error_of("zz rw"), RegionError::MissingField);
}

#[test]
fn line_with_bad_range() {
    assert_eq!(error_of("2000-1000 rw-p 0"), RegionError::BadRange);
    assert_eq!(error_of("1000 rw-p 0"), RegionError::BadRange);
    assert_eq!(error_of("1000-2000-3000 rw-p 0"), RegionError::BadRange);
    assert_eq!(error_of("1000-zz rw zz"), RegionError::BadRange);
}

#[test]
fn line_with_bad_permission_token() {
    assert_eq!(error_of("1000-2000 rw- 0"), RegionError::BadPermissionToken);
    assert_eq!(error_of("1000-2000 rw-pp 0"), RegionError::BadPermissionToken);
    assert_eq!(error_of("1000-2000 rw zz"), RegionError::BadPermissionToken);
}

#[test]
fn line_with_bad_offset() {
    assert_eq!(error_of("1000-2000 rw-p zz"), RegionError::BadOffset);
    assert_eq!(error_of("1000-2000 rw-p -1"), RegionError::BadOffset);
    assert_eq!(error_of("1000-2000 rw-p 10000000000000000"), RegionError::BadOffset);
}

#[test]
fn line_read_with_reasons() {
    let r = MemoryRegion::parse("1000-2000 rw-p 10 08:02 5 /bin/true").unwrap();
    assert_eq!(r.to_string(), "1000-2000 rw-p 0000000000000010 /bin/true");
}
