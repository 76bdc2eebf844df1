use crc_search::hex::parse_hex_u32;
use crc_search::target::TargetSet;

#[test]
fn parse_plain_hex() {
    assert_eq!(parse_hex_u32("cbf43926"), Some(0xCBF43926));
    assert_eq!(parse_hex_u32("CBF43926"), Some(0xCBF43926));
    assert_eq!(parse_hex_u32("0"), Some(0));
    assert_eq!(parse_hex_u32("ffffffff"), Some(0xFFFFFFFF));
}

#[test]
fn parse_trims_whitespace() {
    assert_eq!(parse_hex_u32("  1a2B3c  "), Some(0x1A2B3C));
    assert_eq!(parse_hex_u32("\tdeadbeef\r"), Some(0xDEADBEEF));
    assert_eq!(parse_hex_u32("42\n"), Some(0x42));
}

#[test]
fn parse_rejects_bad_records() {
    assert_eq!(parse_hex_u32(""), None);
    assert_eq!(parse_hex_u32("   "), None);
    assert_eq!(parse_hex_u32("xyz"), None);
    assert_eq!(parse_hex_u32("12 34"), None);
    assert_eq!(parse_hex_u32("-1"), None);
    assert_eq!(parse_hex_u32("0x12"), None);
}

#[test]
fn parse_rejects_overflow() {
    assert_eq!(parse_hex_u32("100000000"), None);
    assert_eq!(parse_hex_u32("ffffffff0"), None);
    assert_eq!(parse_hex_u32("00000000001"), Some(1));
}

#[test]
fn round_trip_membership() {
    let lines: Vec<String> = vec![
        "cbf43926".to_string(),
        " 1a2b3c ".to_string(),
        "0".to_string(),
        "ffffffff".to_string(),
    ];
    let ts = TargetSet::from_lines(&lines).expect("all records are valid");
    assert!(ts.contains(0xCBF43926));
    assert!(ts.contains(0x1A2B3C));
    assert!(ts.contains(0));
    assert!(ts.contains(0xFFFFFFFF));
}

#[test]
fn absent_values_are_never_found() {
    let lines: Vec<String> = vec!["cbf43926".to_string(), "1a2b3c".to_string()];
    let ts = TargetSet::from_lines(&lines).expect("all records are valid");
    assert!(!ts.contains(0xCBF43927));
    assert!(!ts.contains(1));
    assert!(!ts.contains(0xFFFFFFFF));
}

#[test]
fn empty_target_set_finds_nothing() {
    let lines: Vec<String> = Vec::new();
    let ts = TargetSet::from_lines(&lines).expect("no records at all");
    assert_eq!(ts.len(), 0);
    assert!(!ts.contains(0));
}

#[test]
fn duplicates_are_harmless() {
    let lines: Vec<String> = vec!["7".to_string(), "7".to_string(), "7".to_string()];
    let ts = TargetSet::from_lines(&lines).expect("all records are valid");
    assert!(ts.contains(7));
    assert!(!ts.contains(8));
}

#[test]
fn first_invalid_record_is_reported() {
    let lines: Vec<String> = vec![
        "abc".to_string(),
        "not-hex".to_string(),
        "also bad".to_string(),
    ];
    match TargetSet::from_lines(&lines) {
        Err(i) => assert_eq!(i, 1),
        Ok(_) => panic!("a malformed record must be fatal"),
    }
}
