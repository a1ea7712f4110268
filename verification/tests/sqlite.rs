use binlog::stores::compaction::{explode, merge, CompactedBlock, CompactionPolicy, Sample};
use binlog::stores::sqlite::{
    compression_level, entry_from_row, newest_of, store_compressed, stored_value, Query, Row,
    Step, StoredValue, DEFAULT_COMPRESSION_LEVEL, DELETE_ROW, INSERT_BLOCK, INSERT_ENTRY,
    LATEST_BLOCK, LATEST_ENTRY, MIN_SIZE_TO_COMPRESS, NAMES, PAGINATION_LIMIT, ROWS_OF_NAME,
    SCHEMA,
};
use std::collections::VecDeque;
use binlog::{Entry, Error, SqliteRange, SqliteRangeIterator};
use rusqlite::{params_from_iter, Connection};
use std::io::{Error as IoError, ErrorKind};
use std::ops::Bound;

fn open() -> Connection {
    let conn = Connection::open_in_memory().unwrap();
    conn.execute_batch(SCHEMA).unwrap();
    conn
}

fn push(conn: &Connection, entry: &Entry) {
    let stored = stored_value(&entry.value, DEFAULT_COMPRESSION_LEVEL).unwrap();
    conn.execute(INSERT_ENTRY, (entry.timestamp, &entry.name, stored.size as i64, &stored.blob))
        .unwrap();
}

fn count(conn: &Connection, range: &SqliteRange) -> u64 {
    let query = range.count();
    let counted: i64 = conn
        .query_row(&query.statement, params_from_iter(query.params.iter()), |row| row.get(0))
        .unwrap();
    counted as u64
}

fn remove(conn: &Connection, range: SqliteRange) {
    let query = range.remove();
    conn.execute(&query.statement, params_from_iter(query.params.iter())).unwrap();
}

fn fetch(conn: &Connection, query: &Query) -> Vec<Row> {
    let mut statement = conn.prepare(&query.statement).unwrap();
    let mut rows = statement.query(params_from_iter(query.params.iter())).unwrap();
    let mut fetched = Vec::new();
    while let Some(row) = rows.next().unwrap() {
        let size: i64 = row.get(2).unwrap();
        fetched.push(Row {
            timestamp: row.get(0).unwrap(),
            name: row.get(1).unwrap(),
            size: size as usize,
            blob: row.get(3).unwrap(),
        });
    }
    fetched
}

fn drain(conn: &Connection, mut cursor: SqliteRangeIterator) -> (Vec<Entry>, usize) {
    let mut entries = Vec::new();
    let mut fetches = 0;
    loop {
        match cursor.next() {
            Step::Entry(entry) => entries.push(entry),
            Step::Fetch(query) => {
                fetches += 1;
                cursor.fill_entries(fetch(conn, &query)).unwrap();
            }
            Step::Finished => return (entries, fetches),
        }
    }
}

fn all() -> SqliteRange {
    SqliteRange::new(Bound::Unbounded, Bound::Unbounded, None).unwrap()
}

fn insert_sample_data(conn: &Connection, name: &str) {
    for i in 1..11u8 {
        push(conn, &Entry::new_with_timestamp(i.into(), name, vec![i]));
    }
}

#[test]
fn the_limits_are_as_documented() {
    assert_eq!(MIN_SIZE_TO_COMPRESS, 32);
    assert_eq!(DEFAULT_COMPRESSION_LEVEL, 1);
    assert_eq!(PAGINATION_LIMIT, 1000);
}

#[test]
fn the_level_defaults() {
    assert_eq!(compression_level(None), 1);
    assert_eq!(compression_level(Some(19)), 19);
}

#[test]
fn short_payloads_are_stored_as_they_are() {
    let value = vec![7u8; 31];
    assert_eq!(stored_value(&value, 1).unwrap(), StoredValue { size: 0, blob: value });
    assert_eq!(stored_value(&vec![], 1).unwrap(), StoredValue { size: 0, blob: vec![] });
}

#[test]
fn long_payloads_are_stored_compressed() {
    let value = vec![7u8; 32];
    let stored = stored_value(&value, 1).unwrap();
    assert_eq!(stored.size, 32);
    assert_ne!(stored.blob, value);
    assert_eq!(stored.blob, zstd::bulk::compress(&value, 1).unwrap());
    let long = vec![0u8; 100_000];
    let stored = stored_value(&long, 3).unwrap();
    assert_eq!(stored.size, 100_000);
    assert!(stored.blob.len() < 1000);
}

#[test]
fn a_stored_payload_comes_back() {
    for length in [0usize, 1, 31, 32, 33, 1000] {
        let value: Vec<u8> = (0..length).map(|i| (i % 251) as u8).collect();
        let stored = stored_value(&value, 1).unwrap();
        let entry = entry_from_row(5, "t", stored.size, stored.blob).unwrap();
        assert_eq!(entry, Entry::new_with_timestamp(5, "t", value));
    }
}

#[test]
fn a_row_without_a_size_is_its_blob() {
    let entry = entry_from_row(1, "raw", 0, vec![1, 2, 3]).unwrap();
    assert_eq!(entry, Entry::new_with_timestamp(1, "raw", vec![1, 2, 3]));
}

#[test]
fn a_corrupt_blob_is_a_data_format_error() {
    assert!(matches!(entry_from_row(1, "t", 40, vec![1, 2, 3]), Err(Error::DataFormat)));
}

#[test]
fn a_blob_longer_than_its_size_is_a_data_format_error() {
    let value = vec![9u8; 64];
    let stored = stored_value(&value, 1).unwrap();
    assert!(matches!(entry_from_row(1, "t", 63, stored.blob), Err(Error::DataFormat)));
}

#[test]
fn store_compressed_decides_by_length() {
    let short = vec![1u8; 10];
    assert_eq!(
        store_compressed(&short, Ok(vec![5, 5])).unwrap(),
        StoredValue { size: 0, blob: short.clone() }
    );
    let long = vec![1u8; 40];
    assert_eq!(
        store_compressed(&long, Ok(vec![5, 5])).unwrap(),
        StoredValue { size: 40, blob: vec![5, 5] }
    );
    assert_eq!(
        store_compressed(&long, Ok(vec![])).unwrap(),
        StoredValue { size: 40, blob: vec![] }
    );
}

#[test]
fn a_failed_compression_is_an_io_error() {
    let failed = store_compressed(&vec![1u8; 40], Err(IoError::new(ErrorKind::Other, "no")));
    assert!(matches!(failed, Err(Error::Io(_))));
}

#[test]
fn a_durable_range_refuses_bad_bounds() {
    assert!(matches!(
        SqliteRange::new(Bound::Included(2), Bound::Included(1), None),
        Err(Error::BadRange)
    ));
    assert!(matches!(
        SqliteRange::new(Bound::Excluded(1), Bound::Included(1), Some("t")),
        Err(Error::BadRange)
    ));
    assert!(SqliteRange::new(Bound::Included(1), Bound::Included(1), None).is_ok());
}

#[test]
fn the_statements_of_a_range() {
    let range = SqliteRange::new(Bound::Included(2), Bound::Unbounded, Some("t")).unwrap();
    let counting = range.count();
    assert_eq!(counting.statement, "select count(id) from log where ts >= 2 and name = ? ");
    assert_eq!(counting.params, vec!["t".to_string()]);
    let mut cursor =
        SqliteRange::new(Bound::Included(2), Bound::Unbounded, Some("t")).unwrap().iter();
    match cursor.next() {
        Step::Fetch(query) => {
            assert_eq!(
                query.statement,
                "select ts, name, size, value from log where ts >= 2 and name = ? \
                 order by ts limit 1000 offset 0"
            );
            assert_eq!(query.params, vec!["t".to_string()]);
        }
        _ => panic!("a cursor that holds nothing asks for a page"),
    }
    let deleting = range.remove();
    assert_eq!(deleting.statement, "delete from log where ts >= 2 and name = ? ");
    assert_eq!(all().remove().statement, "delete from log");
}

#[test]
fn remove_in_the_database() {
    let conn = open();
    insert_sample_data(&conn, "test_remove");
    assert_eq!(count(&conn, &all()), 10);
    remove(&conn, SqliteRange::new(Bound::Included(2), Bound::Unbounded, None).unwrap());
    assert_eq!(count(&conn, &all()), 1);
    remove(
        &conn,
        SqliteRange::new(Bound::Unbounded, Bound::Unbounded, Some("test_remove")).unwrap(),
    );
    assert_eq!(count(&conn, &all()), 0);
}

#[test]
fn iter_in_the_database() {
    let conn = open();
    insert_sample_data(&conn, "test_iter");
    let (results, fetches) = drain(&conn, all().iter());
    assert_eq!(fetches, 1);
    assert_eq!(results.len(), 10);
    for i in 1..11u8 {
        assert_eq!(
            results[(i - 1) as usize],
            Entry::new_with_timestamp(i.into(), "test_iter", vec![i])
        );
    }
}

#[test]
fn the_database_selects_what_the_memory_engine_selects() {
    let conn = open();
    let mut memory = binlog::MemoryStore::new();
    for (timestamp, name) in
        [(1, "a"), (2, "b"), (2, "a"), (3, "a"), (5, "b"), (5, "a"), (8, "c"), (-4, "a")]
    {
        let entry = Entry::new_with_timestamp(timestamp, name, vec![timestamp as u8; 40]);
        push(&conn, &entry);
        memory.push(&entry).unwrap();
    }
    let bounds = [
        Bound::Unbounded,
        Bound::Included(2),
        Bound::Excluded(2),
        Bound::Included(5),
        Bound::Excluded(5),
        Bound::Included(-4),
    ];
    for start in bounds {
        for end in bounds {
            for name in [None, Some("a"), Some("b"), Some("z")] {
                let durable = SqliteRange::new(start, end, name);
                let reference = memory.range(start, end, name);
                match (durable, reference) {
                    (Ok(durable), Ok(reference)) => {
                        assert_eq!(count(&conn, &durable), reference.count(&memory).unwrap());
                        let (mut left, _) = drain(&conn, durable.iter());
                        let mut right = reference.iter(&memory).unwrap();
                        left.sort_by(|a, b| (a.timestamp, &a.name).cmp(&(b.timestamp, &b.name)));
                        right.sort_by(|a, b| (a.timestamp, &a.name).cmp(&(b.timestamp, &b.name)));
                        assert_eq!(left, right);
                    }
                    (Err(Error::BadRange), Err(Error::BadRange)) => {}
                    _ => panic!("the engines disagree on the bounds"),
                }
            }
        }
    }
}

fn paged(rows: usize) -> (usize, usize) {
    let conn = open();
    for i in 0..rows {
        push(&conn, &Entry::new_with_timestamp(i as i64, "page", vec![(i % 256) as u8]));
    }
    let (entries, fetches) = drain(&conn, all().iter());
    for (i, entry) in entries.iter().enumerate() {
        assert_eq!(entry.timestamp, i as i64);
    }
    (entries.len(), fetches)
}

#[test]
fn no_row_is_one_page() {
    assert_eq!(paged(0), (0, 1));
}

#[test]
fn a_full_page_is_followed_by_an_empty_one() {
    assert_eq!(paged(1000), (1000, 2));
}

#[test]
fn a_row_more_than_a_page_is_two_pages() {
    assert_eq!(paged(1001), (1001, 2));
}

#[test]
fn a_row_less_than_a_page_is_one_page() {
    assert_eq!(paged(999), (999, 1));
}

#[test]
fn the_cursor_moves_on_by_a_page() {
    let mut cursor = all().iter();
    let rows: Vec<Row> = (0..1000)
        .map(|i| Row { timestamp: i, name: "t".to_string(), size: 0, blob: vec![1] })
        .collect();
    assert!(matches!(cursor.next(), Step::Fetch(_)));
    cursor.fill_entries(rows).unwrap();
    for i in 0..1000 {
        assert_eq!(cursor.next(), Step::Entry(Entry::new_with_timestamp(i, "t", vec![1])));
    }
    match cursor.next() {
        Step::Fetch(query) => assert_eq!(
            query.statement,
            "select ts, name, size, value from log  order by ts limit 1000 offset 1000"
        ),
        _ => panic!("a full page is not the last"),
    }
    cursor.fill_entries(vec![]).unwrap();
    assert_eq!(cursor.next(), Step::Finished);
    assert_eq!(cursor.next(), Step::Finished);
}

#[test]
fn the_cursor_stops_at_a_row_that_cannot_be_decoded() {
    let mut cursor = all().iter();
    let rows = vec![
        Row { timestamp: 1, name: "t".to_string(), size: 0, blob: vec![1] },
        Row { timestamp: 2, name: "t".to_string(), size: 50, blob: vec![1, 2, 3] },
        Row { timestamp: 3, name: "t".to_string(), size: 0, blob: vec![3] },
    ];
    assert!(matches!(cursor.next(), Step::Fetch(_)));
    assert!(matches!(cursor.fill_entries(rows), Err(Error::DataFormat)));
    assert_eq!(cursor.next(), Step::Entry(Entry::new_with_timestamp(1, "t", vec![1])));
    assert_eq!(cursor.next(), Step::Finished);
    assert_eq!(cursor.next(), Step::Finished);
}

#[test]
fn a_row_that_cannot_be_decoded_ends_the_reading_in_the_database() {
    let conn = open();
    push(&conn, &Entry::new_with_timestamp(1, "t", vec![1]));
    conn.execute(INSERT_ENTRY, (2i64, "t", 50i64, vec![1u8, 2, 3])).unwrap();
    push(&conn, &Entry::new_with_timestamp(3, "t", vec![3]));
    let mut cursor = all().iter();
    let mut entries = Vec::new();
    let mut errors = 0;
    let mut steps = 0;
    loop {
        steps += 1;
        assert!(steps < 10);
        match cursor.next() {
            Step::Entry(entry) => entries.push(entry),
            Step::Fetch(query) => {
                if let Err(error) = cursor.fill_entries(fetch(&conn, &query)) {
                    assert!(matches!(error, Error::DataFormat));
                    errors += 1;
                }
            }
            Step::Finished => break,
        }
    }
    assert_eq!(errors, 1);
    assert_eq!(entries, vec![Entry::new_with_timestamp(1, "t", vec![1])]);
}

#[test]
fn the_cursor_merges_compacted_entries_with_the_rows() {
    let compacted: VecDeque<Entry> = [1, 4, 4, 9]
        .iter()
        .map(|timestamp| Entry::new_with_timestamp(*timestamp, "c", vec![0]))
        .collect();
    let mut cursor = all().iter_with(compacted);
    assert!(matches!(cursor.next(), Step::Fetch(_)));
    let rows: Vec<Row> = [0i64, 4, 5]
        .iter()
        .map(|timestamp| Row { timestamp: *timestamp, name: "l".to_string(), size: 0, blob: vec![1] })
        .collect();
    cursor.fill_entries(rows).unwrap();
    let mut handed = Vec::new();
    loop {
        match cursor.next() {
            Step::Entry(entry) => handed.push((entry.timestamp, entry.name)),
            Step::Fetch(_) => panic!("a page that is not full is the last"),
            Step::Finished => break,
        }
    }
    let expected: Vec<(i64, String)> =
        [(0, "l"), (1, "c"), (4, "c"), (4, "c"), (4, "l"), (5, "l"), (9, "c")]
            .iter()
            .map(|(timestamp, name)| (*timestamp, name.to_string()))
            .collect();
    assert_eq!(handed, expected);
}

#[test]
fn the_cursor_reads_a_page_before_it_hands_out_a_compacted_entry() {
    let compacted: VecDeque<Entry> =
        vec![Entry::new_with_timestamp(7, "c", vec![0])].into_iter().collect();
    let mut cursor = all().iter_with(compacted);
    assert!(matches!(cursor.next(), Step::Fetch(_)));
    cursor.fill_entries(vec![]).unwrap();
    assert_eq!(cursor.next(), Step::Entry(Entry::new_with_timestamp(7, "c", vec![0])));
    assert_eq!(cursor.next(), Step::Finished);
}

fn fetch_blocks(conn: &Connection, query: &Query) -> Vec<CompactedBlock> {
    let mut statement = conn.prepare(&query.statement).unwrap();
    let mut rows = statement.query(params_from_iter(query.params.iter())).unwrap();
    let mut fetched = Vec::new();
    while let Some(row) = rows.next().unwrap() {
        let size: i64 = row.get(3).unwrap();
        let count: i64 = row.get(4).unwrap();
        fetched.push(CompactedBlock {
            start_ts: row.get(0).unwrap(),
            end_ts: row.get(1).unwrap(),
            name: row.get(2).unwrap(),
            size: size as usize,
            count: count as usize,
            blob: row.get(5).unwrap(),
        });
    }
    fetched
}

fn compact(conn: &Connection, policy: &CompactionPolicy, now: i64) {
    let names: Vec<String> = {
        let mut statement = conn.prepare(NAMES).unwrap();
        let rows = statement.query_map((), |row| row.get(0)).unwrap();
        rows.map(|name| name.unwrap()).collect()
    };
    for name in names {
        let mut ids: Vec<i64> = Vec::new();
        let mut samples: Vec<Sample> = Vec::new();
        {
            let mut statement = conn.prepare(ROWS_OF_NAME).unwrap();
            let mut rows = statement.query((&name,)).unwrap();
            while let Some(row) = rows.next().unwrap() {
                let size: i64 = row.get(2).unwrap();
                let entry =
                    entry_from_row(row.get(1).unwrap(), &name, size as usize, row.get(3).unwrap())
                        .unwrap();
                ids.push(row.get(0).unwrap());
                samples.push(Sample { timestamp: entry.timestamp, value: entry.value });
            }
        }
        let aged = policy.aged_prefix(&samples, now);
        for block in policy.compact(&name, &samples, now, 1).unwrap() {
            conn.execute(
                INSERT_BLOCK,
                (
                    block.start_ts,
                    block.end_ts,
                    &block.name,
                    block.size as i64,
                    block.count as i64,
                    &block.blob,
                ),
            )
            .unwrap();
        }
        for id in &ids[..aged] {
            conn.execute(DELETE_ROW, (id,)).unwrap();
        }
    }
}

fn read(conn: &Connection, range: &SqliteRange) -> Vec<Entry> {
    let mut compacted = Vec::new();
    for block in fetch_blocks(conn, &range.blocks()) {
        let selected = range.selected(explode(&block).unwrap());
        compacted = merge(VecDeque::from(compacted), VecDeque::from(selected));
    }
    let (entries, _) = drain(conn, range.clone().iter_with(VecDeque::from(compacted)));
    entries
}

#[test]
fn the_schema_is_accepted_twice() {
    let conn = open();
    conn.execute_batch(SCHEMA).unwrap();
}

#[test]
fn compaction_in_the_database_does_not_change_what_is_read() {
    let conn = open();
    for i in 0..40i64 {
        let name = if i % 3 == 0 { "a" } else { "b" };
        push(&conn, &Entry::new_with_timestamp(i * 5, name, vec![i as u8; (i % 7) as usize]));
    }
    let ranges = [
        all(),
        SqliteRange::new(Bound::Included(20), Bound::Excluded(120), None).unwrap(),
        SqliteRange::new(Bound::Unbounded, Bound::Included(95), Some("a")).unwrap(),
        SqliteRange::new(Bound::Excluded(100), Bound::Unbounded, Some("b")).unwrap(),
        SqliteRange::new(Bound::Included(45), Bound::Included(45), None).unwrap(),
    ];
    let before: Vec<Vec<Entry>> = ranges.iter().map(|range| read(&conn, range)).collect();
    assert_eq!(before[0].len(), 40);
    let policy = CompactionPolicy { retention: 50, max_run_size: 12, max_run_span: 30 };
    compact(&conn, &policy, 151);
    assert_eq!(count(&conn, &all()), 19);
    assert!(fetch_blocks(&conn, &all().blocks()).len() > 2);
    let after: Vec<Vec<Entry>> = ranges.iter().map(|range| read(&conn, range)).collect();
    assert_eq!(after, before);
    compact(&conn, &policy, 151);
    let again: Vec<Vec<Entry>> = ranges.iter().map(|range| read(&conn, range)).collect();
    assert_eq!(again, before);
}

#[test]
fn blocks_are_read_by_their_first_and_last_timestamp() {
    let range = SqliteRange::new(Bound::Included(4), Bound::Excluded(9), Some("n")).unwrap();
    assert_eq!(
        range.blocks().statement,
        "select start_ts, end_ts, name, size, count, value from compacted_log \
         where end_ts >= 4 and start_ts < 9 and name = ? order by start_ts"
    );
    assert_eq!(range.blocks().params, vec!["n".to_string()]);
    assert_eq!(
        range.remove_blocks().statement,
        "delete from compacted_log where end_ts >= 4 and start_ts < 9 and name = ? "
    );
    assert_eq!(all().remove_blocks().statement, "delete from compacted_log");
}

#[test]
fn a_range_sorts_entries_into_selected_and_others() {
    let range = SqliteRange::new(Bound::Excluded(1), Bound::Included(3), Some("n")).unwrap();
    let entries = || {
        vec![
            Entry::new_with_timestamp(1, "n", vec![1]),
            Entry::new_with_timestamp(2, "n", vec![2]),
            Entry::new_with_timestamp(2, "m", vec![3]),
            Entry::new_with_timestamp(3, "n", vec![4]),
            Entry::new_with_timestamp(4, "n", vec![5]),
        ]
    };
    assert_eq!(
        range.selected(entries()),
        vec![Entry::new_with_timestamp(2, "n", vec![2]), Entry::new_with_timestamp(3, "n", vec![4])]
    );
    assert_eq!(
        range.rejected(entries()),
        vec![
            Entry::new_with_timestamp(1, "n", vec![1]),
            Entry::new_with_timestamp(2, "m", vec![3]),
            Entry::new_with_timestamp(4, "n", vec![5]),
        ]
    );
}

#[test]
fn the_latest_row_is_read_first() {
    let conn = open();
    push(&conn, &Entry::new_with_timestamp(7, "a", vec![1]));
    push(&conn, &Entry::new_with_timestamp(9, "b", vec![2]));
    push(&conn, &Entry::new_with_timestamp(7, "a", vec![3]));
    push(&conn, &Entry::new_with_timestamp(2, "a", vec![4]));
    let (timestamp, size, blob): (i64, i64, Vec<u8>) = conn
        .query_row(LATEST_ENTRY, ("a",), |row| Ok((row.get(0)?, row.get(1)?, row.get(2)?)))
        .unwrap();
    assert_eq!(
        entry_from_row(timestamp, "a", size as usize, blob).unwrap(),
        Entry::new_with_timestamp(7, "a", vec![3])
    );
    compact(&conn, &CompactionPolicy { retention: 0, max_run_size: 100, max_run_span: 100 }, 8);
    let newest =
        fetch_blocks(&conn, &Query { statement: LATEST_BLOCK.to_string(), params: vec!["a".to_string()] });
    assert_eq!(newest.len(), 1);
    assert_eq!(
        explode(&newest[0]).unwrap().pop(),
        Some(Entry::new_with_timestamp(7, "a", vec![3]))
    );
}

#[test]
fn the_newest_of_two_is_the_later_one() {
    let live = Entry::new_with_timestamp(5, "n", vec![1]);
    let older = Entry::new_with_timestamp(4, "n", vec![2]);
    let equal = Entry::new_with_timestamp(5, "n", vec![3]);
    let newer = Entry::new_with_timestamp(6, "n", vec![4]);
    assert_eq!(newest_of(Some(live.clone()), Some(older)), Some(live.clone()));
    assert_eq!(newest_of(Some(live.clone()), Some(equal)), Some(live.clone()));
    assert_eq!(newest_of(Some(live.clone()), Some(newer.clone())), Some(newer.clone()));
    assert_eq!(newest_of(Some(live.clone()), None), Some(live));
    assert_eq!(newest_of(None, Some(newer.clone())), Some(newer));
    assert_eq!(newest_of(None, None), None);
}

#[test]
fn a_row_with_a_size_that_no_vector_holds_is_a_data_format_error() {
    assert!(matches!(entry_from_row(1, "t", usize::MAX, vec![1, 2, 3]), Err(Error::DataFormat)));
    assert!(matches!(
        entry_from_row(1, "t", isize::MAX as usize + 1, vec![]),
        Err(Error::DataFormat)
    ));
    let mut cursor = all().iter();
    assert!(matches!(cursor.next(), Step::Fetch(_)));
    let rows = vec![Row { timestamp: 1, name: "t".to_string(), size: usize::MAX, blob: vec![] }];
    assert!(matches!(cursor.fill_entries(rows), Err(Error::DataFormat)));
    assert_eq!(cursor.next(), Step::Finished);
}

#[test]
fn a_long_payload_is_always_stored_with_its_length() {
    for length in [32usize, 33, 64, 5000] {
        let value = vec![200u8; length];
        let stored = stored_value(&value, 1).unwrap();
        assert_eq!(stored.size, length);
        assert_eq!(stored.blob, zstd::bulk::compress(&value, 1).unwrap());
    }
}
