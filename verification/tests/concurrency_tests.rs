use std::sync::mpsc;
use std::sync::Arc;
use threadpool::ThreadPool;

use crc_search::checksum::{crc32, CrcTable};
use crc_search::search::{build_string, checked_num_strings, search_unit};
use crc_search::target::TargetSet;

/// Run the whole search over `alpha` with the given pool size, one work
/// unit per prefix of length 1, and return the sorted matching strings.
fn run_pooled(workers: usize, alpha: &[char], length: usize, targets: &Arc<TargetSet>) -> Vec<String> {
    let pool = ThreadPool::new(workers);
    let (tx, rx) = mpsc::channel();
    let alpha: Arc<Vec<char>> = Arc::new(alpha.to_vec());
    let table = Arc::new(CrcTable::new());
    let units = checked_num_strings(alpha.len(), 1).expect("unit count fits");
    for u in 0..units {
        let tx = tx.clone();
        let alpha = Arc::clone(&alpha);
        let table = Arc::clone(&table);
        let targets = Arc::clone(targets);
        pool.execute(move || {
            let prefix = build_string(&alpha, 1, u);
            let hits = search_unit(&alpha, &prefix, length - 1, &table, &targets);
            for m in hits {
                let text: String = m.text.iter().collect();
                tx.send((text, m.crc)).expect("the receiver outlives the pool");
            }
        });
    }
    drop(tx);
    pool.join();
    let mut found: Vec<String> = rx.iter().map(|(text, _)| text).collect();
    found.sort();
    found
}

#[test]
fn pool_size_does_not_change_the_matches() {
    let alpha: Vec<char> = "abcd".chars().collect();
    let table = CrcTable::new();
    let w1 = crc32("abc", &table);
    let w2 = crc32("dda", &table);
    let w3 = crc32("cab", &table);
    let lines: Vec<String> = vec![format!("{w1:x}"), format!("{w2:x}"), format!("{w3:x}")];
    let targets = Arc::new(TargetSet::from_lines(&lines).expect("records are valid hex"));

    let sequential = run_pooled(1, &alpha, 3, &targets);
    let parallel = run_pooled(4, &alpha, 3, &targets);
    assert_eq!(sequential, parallel);
    assert_eq!(
        sequential,
        vec!["abc".to_string(), "cab".to_string(), "dda".to_string()]
    );
}

#[test]
fn concurrent_checksums_are_pure() {
    // Checksums computed concurrently from several workers agree with the
    // sequential values whatever the interleaving.
    let pool = ThreadPool::new(4);
    let (tx, rx) = mpsc::channel();
    let table = Arc::new(CrcTable::new());
    let inputs = ["123456789", "a", "abc", "", "dda"];
    let sequential: Vec<u32> = inputs.iter().map(|s| crc32(s, &table)).collect();
    for (i, s) in inputs.iter().enumerate() {
        let tx = tx.clone();
        let table = Arc::clone(&table);
        let s = s.to_string();
        pool.execute(move || {
            tx.send((i, crc32(&s, &table))).expect("the receiver outlives the pool");
        });
    }
    drop(tx);
    pool.join();
    for (i, crc) in rx.iter() {
        assert_eq!(crc, sequential[i]);
    }
}
