use crc_search::checksum::CrcTable;
use crc_search::checksum::{crc32, crc32_chars};

// Canonical CRC-32 (reflected, polynomial 0xEDB88320) reference table
// entries, from the published table.
#[test]
fn table_matches_canonical_reference() {
    let table = CrcTable::new();
    let expected_head: [u32; 10] = [
        0x00000000, 0x77073096, 0xEE0E612C, 0x990951BA, 0x076DC419, 0x706AF48F, 0xE963A535,
        0x9E6495A3, 0x0EDB8832, 0x79DCB8A4,
    ];
    for (i, want) in expected_head.iter().enumerate() {
        assert_eq!(table.entry(i), *want, "table entry {i}");
    }
    assert_eq!(table.entry(255), 0x2D02EF8D);
}

#[test]
fn empty_string_checksum_is_zero() {
    let table = CrcTable::new();
    assert_eq!(crc32("", &table), 0x00000000);
}

#[test]
fn known_check_value() {
    let table = CrcTable::new();
    assert_eq!(crc32("123456789", &table), 0xCBF43926);
}

#[test]
fn deterministic_across_calls() {
    let table = CrcTable::new();
    let first = crc32("collision-target", &table);
    let second = crc32("collision-target", &table);
    assert_eq!(first, second);
    let other_table = CrcTable::new();
    assert_eq!(crc32("collision-target", &other_table), first);
}

#[test]
fn char_vector_agrees_with_str() {
    let table = CrcTable::new();
    let chars: Vec<char> = "123456789".chars().collect();
    assert_eq!(crc32_chars(&chars, &table), crc32("123456789", &table));
    assert_eq!(crc32_chars(&chars, &table), 0xCBF43926);
}

#[test]
fn single_characters() {
    let table = CrcTable::new();
    assert_eq!(crc32("a", &table), 0xE8B7BE43);
    assert_eq!(crc32("abc", &table), 0x352441C2);
}

#[test]
fn non_ascii_symbols_are_accepted() {
    let table = CrcTable::new();
    let a = crc32("é", &table);
    let b = crc32("é", &table);
    assert_eq!(a, b);
    assert_ne!(crc32("é", &table), crc32("e", &table));
}
