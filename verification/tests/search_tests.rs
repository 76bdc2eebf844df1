use crc_search::checksum::{crc32, CrcTable};
use crc_search::search::{build_string, checked_num_strings, search_all, search_unit};
use crc_search::target::TargetSet;

fn alphabet(s: &str) -> Vec<char> {
    s.chars().collect()
}

#[test]
fn counting_the_space() {
    assert_eq!(checked_num_strings(2, 0), Some(1));
    assert_eq!(checked_num_strings(2, 3), Some(8));
    assert_eq!(checked_num_strings(3, 4), Some(81));
    assert_eq!(checked_num_strings(0, 2), Some(0));
    assert_eq!(checked_num_strings(usize::MAX, 3), None);
}

#[test]
fn enumeration_is_exhaustive_and_duplicate_free() {
    let alpha = alphabet("ab");
    let total = checked_num_strings(2, 3).unwrap();
    assert_eq!(total, 8);
    let mut seen: Vec<String> = Vec::new();
    for n in 0..total {
        let s: String = build_string(&alpha, 3, n).into_iter().collect();
        assert!(!seen.contains(&s), "duplicate candidate {s}");
        seen.push(s);
    }
    for want in [
        "aaa", "aab", "aba", "abb", "baa", "bab", "bba", "bbb",
    ] {
        assert!(seen.contains(&want.to_string()), "missing candidate {want}");
    }
}

#[test]
fn enumeration_order_counts_last_position_fastest() {
    let alpha = alphabet("xyz");
    let first: String = build_string(&alpha, 2, 0).into_iter().collect();
    let second: String = build_string(&alpha, 2, 1).into_iter().collect();
    let fourth: String = build_string(&alpha, 2, 3).into_iter().collect();
    let last: String = build_string(&alpha, 2, 8).into_iter().collect();
    assert_eq!(first, "xx");
    assert_eq!(second, "xy");
    assert_eq!(fourth, "yx");
    assert_eq!(last, "zz");
}

#[test]
fn work_units_tile_the_space() {
    // Prefix length 1 over {a,b,c}, suffix length 2: three units of nine
    // candidates each must cover all 27 strings exactly once.
    let alpha = alphabet("abc");
    let mut all: Vec<String> = Vec::new();
    for u in 0..3 {
        let prefix = build_string(&alpha, 1, u);
        for n in 0..9 {
            let mut cand = prefix.clone();
            cand.extend(build_string(&alpha, 2, n));
            all.push(cand.into_iter().collect());
        }
    }
    assert_eq!(all.len(), 27);
    let mut dedup = all.clone();
    dedup.sort();
    dedup.dedup();
    assert_eq!(dedup.len(), 27, "the units overlap");
}

#[test]
fn end_to_end_scenario() {
    // Alphabet {a,b}, length 2, target set { checksum("ab") }: exactly one
    // match, for "ab"; "aa", "ba" and "bb" produce none.
    let alpha = alphabet("ab");
    let table = CrcTable::new();
    let wanted = crc32("ab", &table);
    let lines: Vec<String> = vec![format!("{wanted:x}")];
    let targets = TargetSet::from_lines(&lines).expect("record is valid hex");
    let matches = search_all(&alpha, 2, 1, &table, &targets);
    assert_eq!(matches.len(), 1);
    let text: String = matches[0].text.iter().collect();
    assert_eq!(text, "ab");
    assert_eq!(matches[0].crc, wanted);
}

#[test]
fn zero_matches_is_a_normal_run() {
    let alpha = alphabet("ab");
    let table = CrcTable::new();
    let lines: Vec<String> = vec!["00000001".to_string()];
    let targets = TargetSet::from_lines(&lines).expect("record is valid hex");
    let matches = search_all(&alpha, 2, 1, &table, &targets);
    assert_eq!(matches.len(), 0);
}

#[test]
fn unit_search_only_sees_its_own_prefix() {
    let alpha = alphabet("ab");
    let table = CrcTable::new();
    let wanted = crc32("ab", &table);
    let lines: Vec<String> = vec![format!("{wanted:x}")];
    let targets = TargetSet::from_lines(&lines).expect("record is valid hex");

    let prefix_a: Vec<char> = "a".chars().collect();
    let hits_a = search_unit(&alpha, &prefix_a, 1, &table, &targets);
    assert_eq!(hits_a.len(), 1);
    let text: String = hits_a[0].text.iter().collect();
    assert_eq!(text, "ab");

    let prefix_b: Vec<char> = "b".chars().collect();
    let hits_b = search_unit(&alpha, &prefix_b, 1, &table, &targets);
    assert_eq!(hits_b.len(), 0);
}

#[test]
fn prefix_split_does_not_change_the_matches() {
    // The same search run as one unit, two-way split, or three-way split
    // finds the same candidates.
    let alpha = alphabet("abc");
    let table = CrcTable::new();
    let w1 = crc32("aba", &table);
    let w2 = crc32("cab", &table);
    let lines: Vec<String> = vec![format!("{w1:x}"), format!("{w2:x}")];
    let targets = TargetSet::from_lines(&lines).expect("records are valid hex");
    let mut found: Vec<Vec<String>> = Vec::new();
    for prefix_len in 0..=3 {
        let matches = search_all(&alpha, 3, prefix_len, &table, &targets);
        let mut texts: Vec<String> = matches
            .iter()
            .map(|m| m.text.iter().collect())
            .collect();
        texts.sort();
        found.push(texts);
    }
    for texts in &found {
        assert_eq!(texts, &vec!["aba".to_string(), "cab".to_string()]);
    }
}
