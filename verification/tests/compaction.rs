use binlog::stores::compaction::{
    compact_run, deserialize, explode, is_ascending, merge, remove_from_block, serialize,
    CompactedBlock, CompactionPolicy, Sample,
};
use binlog::SqliteRange;
use std::ops::Bound;
use binlog::{Entry, Error};
use std::collections::VecDeque;

fn sample(timestamp: i64, value: &[u8]) -> Sample {
    Sample { timestamp, value: value.to_vec() }
}

fn policy() -> CompactionPolicy {
    CompactionPolicy { retention: 100, max_run_size: 10, max_run_span: 50 }
}

fn entries(timestamps: &[i64], tag: u8) -> VecDeque<Entry> {
    timestamps.iter().map(|ts| Entry::new_with_timestamp(*ts, "t", vec![tag])).collect()
}

fn stamps(entries: &[Entry]) -> Vec<(i64, u8)> {
    entries.iter().map(|entry| (entry.timestamp, entry.value[0])).collect()
}

#[test]
fn a_bundle_of_nothing_is_empty() {
    assert_eq!(serialize(&[]), Vec::<u8>::new());
    assert_eq!(deserialize(&[]).unwrap(), vec![]);
}

#[test]
fn a_bundle_holds_timestamp_length_and_payload() {
    let bytes = serialize(&[sample(1, &[7, 8]), sample(-1, &[])]);
    assert_eq!(
        bytes,
        vec![
            1, 0, 0, 0, 0, 0, 0, 0, 2, 0, 0, 0, 0, 0, 0, 0, 7, 8, 255, 255, 255, 255, 255, 255,
            255, 255, 0, 0, 0, 0, 0, 0, 0, 0
        ]
    );
}

#[test]
fn a_bundle_is_read_back() {
    let samples = vec![
        sample(i64::MIN, &[1]),
        sample(0, &[]),
        sample(5, &[0; 300]),
        sample(i64::MAX, &[255, 0, 255]),
    ];
    assert_eq!(deserialize(&serialize(&samples)).unwrap(), samples);
}

#[test]
fn a_bundle_that_ends_within_a_sample_is_refused() {
    let bytes = serialize(&[sample(1, &[7, 8])]);
    for cut in 1..bytes.len() {
        assert!(matches!(deserialize(&bytes[..cut]), Err(Error::DataFormat)));
    }
    let mut long = bytes.clone();
    long.push(0);
    assert!(matches!(deserialize(&long), Err(Error::DataFormat)));
}

#[test]
fn a_length_beyond_the_bundle_is_refused() {
    let mut bytes = vec![0u8; 8];
    bytes.extend_from_slice(&u64::MAX.to_le_bytes());
    bytes.extend_from_slice(&[1, 2, 3]);
    assert!(matches!(deserialize(&bytes), Err(Error::DataFormat)));
}

#[test]
fn entries_age_behind_the_retention_window() {
    let policy = policy();
    assert!(policy.is_aged(0, 101));
    assert!(!policy.is_aged(0, 100));
    assert!(!policy.is_aged(1, 101));
    assert!(policy.is_aged(i64::MIN, i64::MAX));
    assert!(!policy.is_aged(i64::MAX, i64::MIN));
    assert!(!policy.is_aged(i64::MAX, i64::MAX));
}

#[test]
fn the_aged_prefix_ends_at_the_first_fresh_entry() {
    let policy = policy();
    let samples = vec![sample(1, &[]), sample(2, &[]), sample(900, &[]), sample(3, &[])];
    assert_eq!(policy.aged_prefix(&samples, 500), 2);
    assert_eq!(policy.aged_prefix(&samples, 2000), 4);
    assert_eq!(policy.aged_prefix(&samples, 0), 0);
    assert_eq!(policy.aged_prefix(&[], 500), 0);
}

#[test]
fn no_samples_fold_into_no_run() {
    assert_eq!(policy().fold_runs(&[]), Vec::<usize>::new());
}

#[test]
fn a_run_closes_at_the_size_threshold() {
    let samples: Vec<Sample> = (0..7).map(|i| sample(i, &[0; 4])).collect();
    assert_eq!(policy().fold_runs(&samples), vec![2, 4, 6, 7]);
    let exact: Vec<Sample> = (0..4).map(|i| sample(i, &[0; 5])).collect();
    assert_eq!(policy().fold_runs(&exact), vec![2, 4]);
}

#[test]
fn a_run_closes_at_the_span_threshold() {
    let samples =
        vec![sample(0, &[]), sample(50, &[]), sample(51, &[]), sample(101, &[]), sample(102, &[])];
    assert_eq!(policy().fold_runs(&samples), vec![2, 4, 5]);
}

#[test]
fn a_sample_beyond_the_size_threshold_is_a_run_of_its_own() {
    let samples = vec![sample(0, &[0; 3]), sample(1, &[0; 40]), sample(2, &[0; 3])];
    assert_eq!(policy().fold_runs(&samples), vec![1, 2, 3]);
}

#[test]
fn a_block_describes_its_run() {
    let samples = vec![sample(3, &[1, 2]), sample(4, &[3]), sample(9, &[])];
    let block = compact_run("name", &samples, 1).unwrap();
    assert_eq!(block.name, "name");
    assert_eq!(block.start_ts, 3);
    assert_eq!(block.end_ts, 9);
    assert_eq!(block.count, 3);
    assert_eq!(block.size, 3 * 16 + 3);
    assert_eq!(block.blob, zstd::bulk::compress(&serialize(&samples), 1).unwrap());
    assert_ne!(block.blob, serialize(&samples));
}

#[test]
fn a_block_gives_its_entries_back() {
    let samples = vec![sample(3, &[1, 2]), sample(4, &[3]), sample(9, &[])];
    let block = compact_run("name", &samples, 3).unwrap();
    assert_eq!(
        explode(&block).unwrap(),
        vec![
            Entry::new_with_timestamp(3, "name", vec![1, 2]),
            Entry::new_with_timestamp(4, "name", vec![3]),
            Entry::new_with_timestamp(9, "name", vec![]),
        ]
    );
}

#[test]
fn a_damaged_block_is_a_data_format_error() {
    let samples = vec![sample(3, &[1, 2]), sample(4, &[3])];
    let block = compact_run("name", &samples, 1).unwrap();
    let miscounted = CompactedBlock {
        name: "name".to_string(),
        start_ts: 3,
        end_ts: 4,
        count: 3,
        size: block.size,
        blob: block.blob.clone(),
    };
    assert!(matches!(explode(&miscounted), Err(Error::DataFormat)));
    let undersized = CompactedBlock {
        name: "name".to_string(),
        start_ts: 3,
        end_ts: 4,
        count: 2,
        size: block.size - 1,
        blob: block.blob.clone(),
    };
    assert!(matches!(explode(&undersized), Err(Error::DataFormat)));
    let garbled = CompactedBlock {
        name: "name".to_string(),
        start_ts: 3,
        end_ts: 4,
        count: 2,
        size: block.size,
        blob: vec![1, 2, 3, 4],
    };
    assert!(matches!(explode(&garbled), Err(Error::DataFormat)));
    let truncated = CompactedBlock {
        name: "name".to_string(),
        start_ts: 3,
        end_ts: 4,
        count: 2,
        size: 20,
        blob: zstd::bulk::compress(&serialize(&samples)[..20], 1).unwrap(),
    };
    assert!(matches!(explode(&truncated), Err(Error::DataFormat)));
}

#[test]
fn compaction_takes_the_aged_entries_only() {
    let samples: Vec<Sample> = (0..10).map(|i| sample(i * 10, &[i as u8; 4])).collect();
    let blocks = policy().compact("t", &samples, 165, 1).unwrap();
    let counts: Vec<usize> = blocks.iter().map(|block| block.count).collect();
    assert_eq!(counts, vec![2, 2, 2, 1]);
    let ranges: Vec<(i64, i64)> =
        blocks.iter().map(|block| (block.start_ts, block.end_ts)).collect();
    assert_eq!(ranges, vec![(0, 10), (20, 30), (40, 50), (60, 60)]);
    assert!(policy().compact("t", &samples, 0, 1).unwrap().is_empty());
    assert!(policy().compact("t", &[], 1000, 1).unwrap().is_empty());
}

#[test]
fn compaction_does_not_change_what_is_read() {
    let samples: Vec<Sample> = (0..25).map(|i| sample(i * 7, &[i as u8; 3])).collect();
    let before: Vec<Entry> = samples
        .iter()
        .map(|sample| Entry::new_with_timestamp(sample.timestamp, "t", sample.value.clone()))
        .collect();
    let policy = policy();
    let now = 200;
    let aged = policy.aged_prefix(&samples, now);
    assert_eq!(aged, 15);
    let blocks = policy.compact("t", &samples, now, 1).unwrap();
    let mut compacted = VecDeque::new();
    for block in &blocks {
        compacted.extend(explode(block).unwrap());
    }
    let live: VecDeque<Entry> = before[aged..].iter().cloned().collect();
    assert_eq!(merge(compacted, live), before);
}

#[test]
fn merging_keeps_the_order_of_the_timestamps() {
    let merged = merge(entries(&[1, 4, 4, 9], 0), entries(&[0, 4, 5, 10, 11], 1));
    assert_eq!(
        stamps(&merged),
        vec![(0, 1), (1, 0), (4, 0), (4, 0), (4, 1), (5, 1), (9, 0), (10, 1), (11, 1)]
    );
}

#[test]
fn merging_with_nothing_changes_nothing() {
    assert_eq!(stamps(&merge(entries(&[1, 2], 0), entries(&[], 1))), vec![(1, 0), (2, 0)]);
    assert_eq!(stamps(&merge(entries(&[], 0), entries(&[1, 2], 1))), vec![(1, 1), (2, 1)]);
    assert!(merge(VecDeque::new(), VecDeque::new()).is_empty());
}

#[test]
fn compaction_of_nothing_aged_succeeds_with_no_block() {
    let samples = vec![sample(500, &[1; 64]), sample(1, &[2; 64])];
    assert_eq!(policy().aged_prefix(&samples, 100), 0);
    assert_eq!(policy().compact("t", &samples, 100, 1).unwrap(), vec![]);
    assert_eq!(policy().compact("t", &[], i64::MAX, 1).unwrap(), vec![]);
}

#[test]
fn timestamps_that_do_not_fall_are_ascending() {
    assert!(is_ascending(&[]));
    assert!(is_ascending(&[sample(5, &[])]));
    assert!(is_ascending(&[sample(-5, &[]), sample(-5, &[]), sample(0, &[]), sample(9, &[])]));
    assert!(!is_ascending(&[sample(5, &[]), sample(1, &[])]));
    assert!(!is_ascending(&[sample(1, &[]), sample(2, &[]), sample(1, &[]), sample(3, &[])]));
}

#[test]
fn a_block_with_a_size_that_no_vector_holds_is_a_data_format_error() {
    let block = compact_run("name", &[sample(3, &[1, 2])], 1).unwrap();
    let oversized = CompactedBlock {
        name: "name".to_string(),
        start_ts: 3,
        end_ts: 3,
        count: 1,
        size: usize::MAX,
        blob: block.blob.clone(),
    };
    assert!(matches!(explode(&oversized), Err(Error::DataFormat)));
}

#[test]
fn a_block_whose_range_does_not_fit_its_entries_is_a_data_format_error() {
    let samples = vec![sample(3, &[1, 2]), sample(4, &[3]), sample(9, &[])];
    let block = compact_run("name", &samples, 1).unwrap();
    let shifted = |start_ts: i64, end_ts: i64| CompactedBlock {
        name: "name".to_string(),
        start_ts,
        end_ts,
        count: block.count,
        size: block.size,
        blob: block.blob.clone(),
    };
    assert!(explode(&shifted(3, 9)).is_ok());
    assert!(matches!(explode(&shifted(2, 9)), Err(Error::DataFormat)));
    assert!(matches!(explode(&shifted(3, 10)), Err(Error::DataFormat)));
    let falling = serialize(&[sample(5, &[]), sample(1, &[])]);
    let disordered = CompactedBlock {
        name: "name".to_string(),
        start_ts: 5,
        end_ts: 1,
        count: 2,
        size: falling.len(),
        blob: zstd::bulk::compress(&falling, 1).unwrap(),
    };
    assert!(matches!(explode(&disordered), Err(Error::DataFormat)));
}

#[test]
fn blocks_follow_each_other_in_time() {
    let samples: Vec<Sample> = (0..30).map(|i| sample(i / 2, &[i as u8; 4])).collect();
    let blocks = policy().compact("t", &samples, 1000, 1).unwrap();
    assert!(blocks.len() > 3);
    for pair in blocks.windows(2) {
        assert!(pair[0].end_ts <= pair[1].start_ts);
    }
    for block in &blocks {
        for entry in explode(block).unwrap() {
            assert!(block.start_ts <= entry.timestamp && entry.timestamp <= block.end_ts);
        }
    }
}

#[test]
fn a_removal_leaves_the_rest_of_a_block() {
    let samples = vec![sample(3, &[1]), sample(4, &[2]), sample(9, &[3])];
    let block = compact_run("name", &samples, 1).unwrap();
    let middle = SqliteRange::new(Bound::Included(4), Bound::Included(4), None).unwrap();
    let left = remove_from_block(&block, &middle, 1).unwrap().unwrap();
    assert_eq!((left.start_ts, left.end_ts, left.count), (3, 9, 2));
    assert_eq!(
        explode(&left).unwrap(),
        vec![
            Entry::new_with_timestamp(3, "name", vec![1]),
            Entry::new_with_timestamp(9, "name", vec![3]),
        ]
    );
    let head = SqliteRange::new(Bound::Unbounded, Bound::Excluded(9), Some("name")).unwrap();
    let left = remove_from_block(&block, &head, 1).unwrap().unwrap();
    assert_eq!((left.start_ts, left.end_ts, left.count), (9, 9, 1));
    let other = SqliteRange::new(Bound::Unbounded, Bound::Unbounded, Some("other")).unwrap();
    assert_eq!(remove_from_block(&block, &other, 1).unwrap(), Some(block));
}

#[test]
fn a_removal_of_all_entries_leaves_no_block() {
    let block = compact_run("name", &[sample(3, &[1]), sample(4, &[2])], 1).unwrap();
    let all = SqliteRange::new(Bound::Unbounded, Bound::Unbounded, None).unwrap();
    assert_eq!(remove_from_block(&block, &all, 1).unwrap(), None);
}

#[test]
fn a_removal_from_a_damaged_block_is_a_data_format_error() {
    let damaged = CompactedBlock {
        name: "name".to_string(),
        start_ts: 3,
        end_ts: 4,
        count: 2,
        size: 40,
        blob: vec![1, 2, 3],
    };
    let all = SqliteRange::new(Bound::Unbounded, Bound::Unbounded, None).unwrap();
    assert!(matches!(remove_from_block(&damaged, &all, 1), Err(Error::DataFormat)));
}
