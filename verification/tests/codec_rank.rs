//! The dump codec on concrete blocks, the number encoding of its
//! counts line, the decoder's leniency and its abort on malformed
//! streams, the restore replay, and the rank aggregator's counting and
//! ordering.

use xat::{
    count_items, decode, dump_path, encode_block, fmt_usize, parse_usize, restore, rev_pairs,
    sort_pairs, split_str, StoreError,
};

fn pairs(v: &[(&str, &str)]) -> Vec<(String, String)> {
    v.iter().map(|(k, val)| (k.to_string(), val.to_string())).collect()
}

#[test]
fn encode_one_block() {
    let p = pairs(&[("k1", "v1"), ("k2", "multi\nline")]);
    let block = encode_block("somefile", &p, 3);
    assert_eq!(block, "somefile\n1 1 1 2 3\nk1\nv1\nk2\nmulti\nline\n");
}

#[test]
fn encode_counts_lines_not_characters() {
    let p = pairs(&[("key", "a\nb\nc")]);
    let block = encode_block("f", &p, 0);
    assert_eq!(block, "f\n1 3 0\nkey\na\nb\nc\n");
}

#[test]
fn decode_restores_one_block() {
    let p = pairs(&[("k1", "v1"), ("k2", "multi\nline")]);
    let block = encode_block("somefile", &p, 0);
    let recs = decode(&block).unwrap();
    assert_eq!(recs.len(), 1);
    assert_eq!(recs[0].path, "somefile");
    assert_eq!(recs[0].pairs, p);
}

#[test]
fn decode_restores_concatenated_blocks() {
    let p1 = pairs(&[("a", "1")]);
    let p2 = pairs(&[("b", "x\ny"), ("c", "")]);
    let mut text = encode_block("one", &p1, 0);
    text.push_str(&encode_block("two", &p2, 0));
    let recs = decode(&text).unwrap();
    assert_eq!(recs.len(), 2);
    assert_eq!(recs[0].path, "one");
    assert_eq!(recs[0].pairs, p1);
    assert_eq!(recs[1].path, "two");
    assert_eq!(recs[1].pairs, p2);
}

#[test]
fn decode_empty_input_is_no_records() {
    let recs = decode("").unwrap();
    assert_eq!(recs.len(), 0);
}

#[test]
fn decode_skips_tokens_that_are_not_numbers() {
    let recs = decode("f\n1 1 x 0\nk\nv\n").unwrap();
    assert_eq!(recs.len(), 1);
    assert_eq!(recs[0].pairs, pairs(&[("k", "v")]));
}

#[test]
fn decode_aborts_on_missing_budgets() {
    assert!(decode("f\n0\nstray line\n").is_none());
    assert!(decode("f\nnothing numeric\nline\n").is_none());
}

#[test]
fn decode_aborts_on_zero_budget() {
    assert!(decode("f\n0 1 0\nk\nv\n").is_none());
}

#[test]
fn decode_tolerates_trailing_partial_block() {
    let recs = decode("f\n1 1 0\nk\nv\ng\n1 1 0\nonly-key").unwrap();
    assert_eq!(recs.len(), 1);
    assert_eq!(recs[0].path, "f");
}

#[test]
fn number_round_trip() {
    assert_eq!(fmt_usize(0), "0");
    assert_eq!(fmt_usize(12345), "12345");
    assert_eq!(parse_usize("12345"), Some(12345));
    assert_eq!(parse_usize("+7"), Some(7));
    assert_eq!(parse_usize(""), None);
    assert_eq!(parse_usize("+"), None);
    assert_eq!(parse_usize("12a"), None);
    assert_eq!(parse_usize("999999999999999999999999999999"), None);
    let max = fmt_usize(usize::MAX);
    assert_eq!(parse_usize(&max), Some(usize::MAX));
}

#[test]
fn split_keeps_empty_pieces() {
    let parts = split_str("a,,b", ',');
    assert_eq!(parts, vec!["a".to_string(), String::new(), "b".to_string()]);
    assert_eq!(split_str("", ','), vec![String::new()]);
}

#[test]
fn restore_aborts_before_writing_on_malformed_input() {
    assert!(restore("f\n0\nstray\n", &Vec::new(), false).is_none());
}

#[test]
fn restore_replays_blocks_and_reports_backend_failures() {
    let p = pairs(&[("k", "v")]);
    let block = encode_block("/nonexistent/surely/not/here", &p, 0);
    let entries = restore(&block, &Vec::new(), false).unwrap();
    assert_eq!(entries.len(), 1);
    assert_eq!(entries[0].path, "/nonexistent/surely/not/here");
    assert!(entries[0].applied);
    assert_eq!(entries[0].results.len(), 1);
    assert_eq!(entries[0].results[0].0, "k");
    assert_eq!(entries[0].results[0].1, Err(StoreError::BackendFailure));
}

#[test]
fn restore_filter_skips_other_paths_but_stays_in_step() {
    let mut text = encode_block("skipme", &pairs(&[("k", "v")]), 0);
    text.push_str(&encode_block("/nonexistent/surely/not/here", &pairs(&[("k2", "v2")]), 0));
    let filter = vec!["/nonexistent/surely/not/here".to_string()];
    let entries = restore(&text, &filter, true).unwrap();
    assert_eq!(entries.len(), 2);
    assert!(!entries[0].applied);
    assert_eq!(entries[0].results.len(), 0);
    assert!(entries[1].applied);
    assert_eq!(entries[1].results.len(), 1);
}

#[test]
fn dump_of_missing_path_is_an_error() {
    assert_eq!(dump_path("/nonexistent/surely/not/here"), Err(()));
}

#[test]
fn rank_counts_duplicate_items_across_files() {
    let values = vec!["a,b".to_string(), "a".to_string()];
    let counts = count_items(&values);
    assert_eq!(counts.len(), 2);
    let mut a = 0;
    let mut b = 0;
    for (item, n) in &counts {
        if item == "a" {
            a = *n;
        }
        if item == "b" {
            b = *n;
        }
    }
    assert_eq!(a, 2);
    assert_eq!(b, 1);
}

#[test]
fn rank_counts_duplicates_within_one_file() {
    let values = vec!["a,a,b".to_string()];
    let counts = count_items(&values);
    assert_eq!(counts.iter().find(|(k, _)| k == "a").unwrap().1, 2);
    assert_eq!(counts.iter().find(|(k, _)| k == "b").unwrap().1, 1);
}

#[test]
fn sort_orders_by_frequency_then_name() {
    let v = vec![
        ("b".to_string(), 2usize),
        ("a".to_string(), 2usize),
        ("c".to_string(), 1usize),
    ];
    let sorted = sort_pairs(v, false);
    assert_eq!(
        sorted,
        vec![
            ("c".to_string(), 1usize),
            ("a".to_string(), 2usize),
            ("b".to_string(), 2usize),
        ]
    );
}

#[test]
fn sort_flipped_orders_by_name() {
    let v = vec![
        ("b".to_string(), 2usize),
        ("a".to_string(), 5usize),
        ("c".to_string(), 1usize),
    ];
    let sorted = sort_pairs(v, true);
    assert_eq!(
        sorted,
        vec![
            ("a".to_string(), 5usize),
            ("b".to_string(), 2usize),
            ("c".to_string(), 1usize),
        ]
    );
}

#[test]
fn reversing_flips_the_order() {
    let v = vec![("a".to_string(), 1usize), ("b".to_string(), 2usize)];
    let r = rev_pairs(v);
    assert_eq!(r, vec![("b".to_string(), 2usize), ("a".to_string(), 1usize)]);
}

#[test]
fn rank_on_missing_paths_counts_totals_only() {
    let paths = vec![
        "/nonexistent/surely/not/here1".to_string(),
        "/nonexistent/surely/not/here2".to_string(),
    ];
    let (hist, present, total) = xat::rank("tags", &paths, false, false);
    assert_eq!(total, 2);
    assert_eq!(present, 0);
    assert_eq!(hist.len(), 0);
}
