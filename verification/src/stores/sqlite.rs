//! The durable engine's own logic: how a payload is stored, how a stored
//! row becomes an entry again, which statements a range query runs, and how
//! its results are read page by page. Running the statements is left to
//! the caller.

use vstd::prelude::*;
use vstd::string::StringExecFns;
use std::collections::VecDeque;
use std::ops::Bound;
use crate::entry::{Entry, EntryView};
use crate::errors::Error;
use crate::laws::lemma_empty_remove_changes_nothing;
use crate::model::{
    entry_views, lemma_filter_nothing, lemma_filter_step, select, without, RangeView,
};
use crate::stores::compaction::merged;
use crate::stores::statement::{
    block_statement_text, clauses_of, digits, failing,
    lemma_statements_select_what_the_range_selects, meeting, push_digits, statement_text,
    StatementBuilder,
};
use crate::utils::{check_bounds, well_formed_bounds};

verus! {

/// Payloads shorter than this are stored as they are.
pub const MIN_SIZE_TO_COMPRESS: usize = 32;

/// The compression level of a store that was given none.
pub const DEFAULT_COMPRESSION_LEVEL: i32 = 1;

/// How many rows a range query reads at a time.
pub const PAGINATION_LIMIT: u64 = 1000;

/// The tables of the durable log: the log itself, one row for each entry,
/// and the compacted log, one row for each block.
pub const SCHEMA: &'static str = "create table if not exists log (
    id integer primary key,
    ts integer not null,
    name text not null,
    size integer not null,
    value blob not null
);

create index if not exists idx_log_ts on log(ts);

create table if not exists compacted_log (
    id integer primary key,
    start_ts integer not null,
    end_ts integer not null,
    name text not null,
    size integer not null,
    count integer not null,
    value blob not null
);

create index if not exists idx_compacted_log_ts on compacted_log(start_ts);
";

/// Inserts one entry: its timestamp, its name, and the two columns of its
/// stored value.
pub const INSERT_ENTRY: &'static str = "insert into log (ts, name, size, value) values (?, ?, ?, ?)";

/// Reads the rows under one name, the one with the highest timestamp first,
/// and of several with that timestamp the one inserted last.
pub const LATEST_ENTRY: &'static str =
    "select ts, size, value from log where name = ? order by ts desc, id desc";

/// Reads the names under which the log holds rows.
pub const NAMES: &'static str = "select distinct name from log";

/// Reads the rows under one name with their identifiers, in the order of
/// their timestamps, and of several with one timestamp as they were
/// inserted.
pub const ROWS_OF_NAME: &'static str =
    "select id, ts, size, value from log where name = ? order by ts, id";

/// Deletes the row with one identifier.
pub const DELETE_ROW: &'static str = "delete from log where id = ?";

/// Inserts one block: its first and last timestamp, its name, the length of
/// its bundle, the number of its entries, and its blob.
pub const INSERT_BLOCK: &'static str =
    "insert into compacted_log (start_ts, end_ts, name, size, count, value) values (?, ?, ?, ?, ?, ?)";

/// Reads the block under one name that ends last.
pub const LATEST_BLOCK: &'static str =
    "select start_ts, end_ts, name, size, count, value from compacted_log where name = ? order by end_ts desc limit 1";

/// What `latest` reports, given the newest entry still in the log and the
/// newest in the compacted blocks: the one with the higher timestamp, and
/// of two with one timestamp the one still in the log, which was pushed
/// later.
pub fn newest_of(live: Option<Entry>, compacted: Option<Entry>) -> (newest: Option<Entry>)
    ensures
        newest == match (live, compacted) {
            (Some(live), Some(compacted)) => if compacted.timestamp > live.timestamp {
                Some(compacted)
            } else {
                Some(live)
            },
            (Some(live), None) => Some(live),
            (None, compacted) => compacted,
        },
{
    match (live, compacted) {
        (Some(live), Some(compacted)) => if compacted.timestamp > live.timestamp {
            Some(compacted)
        } else {
            Some(live)
        },
        (Some(live), None) => Some(live),
        (None, compacted) => compacted,
    }
}

/// What `zstd::bulk::compress` returns for `data` at `level` where it
/// succeeds.
pub uninterp spec fn zstd_compressed(data: Seq<u8>, level: int) -> Seq<u8>;

/// What `zstd::bulk::decompress` makes of `blob` where the result may hold
/// up to `capacity` bytes: the data, or nothing where it fails.
pub uninterp spec fn zstd_decompressed(blob: Seq<u8>, capacity: nat) -> Option<Seq<u8>>;

/// `zstd::bulk::compress`: one zstd frame that holds `data`, compressed at
/// `level`. Where the call succeeds, its result is the named one, and for
/// data that is not empty, decompressing it into room for as many bytes as
/// `data` has gives `data` back: the format is lossless. Nothing is claimed
/// of when the call fails.
#[verifier::external_body]
pub(crate) fn compress(data: &[u8], level: i32) -> (packed: Result<Vec<u8>, std::io::Error>)
    ensures
        packed matches Ok(blob) ==> {
            &&& blob@ == zstd_compressed(data@, level as int)
            &&& data@.len() > 0 ==> zstd_decompressed(blob@, data@.len()) == Some(data@)
        },
{
    zstd::bulk::compress(data, level)
}

/// `zstd::bulk::decompress`: the content of the zstd frame in `blob`, read
/// into room for `capacity` bytes; an error where `blob` is no such frame or
/// its content is longer. It sets the room aside before it reads, and
/// panics where more is asked for than a vector can hold.
#[verifier::external_body]
pub(crate) fn decompress(blob: &[u8], capacity: usize) -> (unpacked: Result<Vec<u8>, std::io::Error>)
    requires
        capacity <= isize::MAX,
    ensures
        match unpacked {
            Ok(data) => zstd_decompressed(blob@, capacity as nat) == Some(data@),
            Err(_) => zstd_decompressed(blob@, capacity as nat) is None,
        },
{
    zstd::bulk::decompress(blob, capacity)
}

/// The two columns that hold a payload: the blob, and the payload's length
/// where the blob is compressed, 0 where it is the payload itself.
#[derive(Debug, PartialEq, Eq)]
pub struct StoredValue {
    pub size: usize,
    pub blob: Vec<u8>,
}

/// The payload that a stored value stands for: the content of the blob
/// where a size is recorded, the blob itself where none is. Nothing where a
/// size is recorded and the blob cannot be decompressed into that many
/// bytes, or no vector can hold that many.
pub open spec fn payload_of(size: nat, blob: Seq<u8>) -> Option<Seq<u8>> {
    if size == 0 {
        Some(blob)
    } else if size <= isize::MAX {
        zstd_decompressed(blob, size)
    } else {
        None
    }
}

/// How `value` is stored, given what compressing it gave: where it has the
/// minimum size or more, compressed, with its length recorded; as it is
/// where it is shorter.
pub open spec fn stored_form(value: Seq<u8>, compressed: Option<Seq<u8>>) -> (nat, Seq<u8>) {
    match compressed {
        Some(blob) if value.len() >= MIN_SIZE_TO_COMPRESS => (value.len(), blob),
        _ => (0, value),
    }
}

/// The stored form of `value`, from the outcome of compressing it. A failed
/// compression is reported as `Io`.
pub fn store_compressed(value: &Vec<u8>, compressed: Result<Vec<u8>, std::io::Error>) -> (stored:
    Result<StoredValue, Error>)
    ensures
        match compressed {
            Ok(blob) => stored matches Ok(stored) && (stored.size as nat, stored.blob@)
                == stored_form(value@, Some(blob@)),
            Err(err) => stored matches Err(error) && error == Error::Io(err),
        },
{
    match compressed {
        Ok(blob) => {
            if value.len() >= MIN_SIZE_TO_COMPRESS {
                Ok(StoredValue { size: value.len(), blob })
            } else {
                Ok(StoredValue { size: 0, blob: value.clone() })
            }
        },
        Err(err) => Err(Error::Io(err)),
    }
}

/// The stored form of `value` in a store that compresses at `level`.
///
/// A payload below the minimum size is stored as it is, and that never
/// fails. One of the minimum size or more is compressed, and its length
/// recorded; whether that succeeds is up to the compressor. What is stored
/// stands for `value`. A payload that is longer than any vector is refused
/// with `Database`.
pub fn stored_value(value: &Vec<u8>, level: i32) -> (stored: Result<StoredValue, Error>)
    ensures
        value@.len() < MIN_SIZE_TO_COMPRESS ==> stored is Ok,
        stored matches Ok(stored) ==> {
            &&& if value@.len() >= MIN_SIZE_TO_COMPRESS {
                &&& stored.size == value@.len()
                &&& stored.blob@ == zstd_compressed(value@, level as int)
            } else {
                &&& stored.size == 0
                &&& stored.blob@ == value@
            }
            &&& payload_of(stored.size as nat, stored.blob@) == Some(value@)
        },
        stored matches Err(error) ==> value@.len() >= MIN_SIZE_TO_COMPRESS && (error is Io || (
        error is Database && value@.len() > isize::MAX)),
{
    if value.len() >= MIN_SIZE_TO_COMPRESS {
        if value.len() > isize::MAX as usize {
            return Err(Error::Database(String::from_str("the payload is too long to be stored")));
        }
        let compressed = compress(value.as_slice(), level);
        store_compressed(value, compressed)
    } else {
        Ok(StoredValue { size: 0, blob: value.clone() })
    }
}

/// The compression level of a store: the one asked for, or the default.
pub fn compression_level(requested: Option<i32>) -> (level: i32)
    ensures
        level == match requested {
            Some(level) => level,
            None => DEFAULT_COMPRESSION_LEVEL,
        },
{
    match requested {
        Some(level) => level,
        None => DEFAULT_COMPRESSION_LEVEL,
    }
}

/// The entry that a row of the log stands for, or `DataFormat` where the
/// row's blob cannot be decompressed into the size that the row records, or
/// the row records a size that no vector can hold.
pub fn entry_from_row(timestamp: i64, name: &str, size: usize, blob: Vec<u8>) -> (decoded: Result<
    Entry,
    Error,
>)
    ensures
        match payload_of(size as nat, blob@) {
            Some(value) => decoded matches Ok(entry) && entry@ == (EntryView {
                timestamp: timestamp as int,
                name: name@,
                value,
            }),
            None => decoded matches Err(error) && error is DataFormat,
        },
{
    if size == 0 {
        Ok(Entry::new_with_timestamp(timestamp, name, blob))
    } else if size <= isize::MAX as usize {
        match decompress(blob.as_slice(), size) {
            Ok(blob_decompressed) => Ok(Entry::new_with_timestamp(timestamp, name, blob_decompressed)),
            Err(_) => Err(Error::DataFormat),
        }
    } else {
        Err(Error::DataFormat)
    }
}

/// A row of the log as the database hands it out.
#[derive(Debug, PartialEq, Eq)]
pub struct Row {
    pub timestamp: i64,
    pub name: String,
    pub size: usize,
    pub blob: Vec<u8>,
}

/// A row as a mathematical value.
pub struct RowView {
    pub timestamp: int,
    pub name: Seq<char>,
    pub size: nat,
    pub blob: Seq<u8>,
}

impl View for Row {
    type V = RowView;

    open spec fn view(&self) -> RowView {
        RowView {
            timestamp: self.timestamp as int,
            name: self.name@,
            size: self.size as nat,
            blob: self.blob@,
        }
    }
}

impl RowView {
    /// Whether the row stands for an entry.
    pub open spec fn decodable(self) -> bool {
        payload_of(self.size, self.blob) is Some
    }

    /// The entry that the row stands for.
    pub open spec fn entry(self) -> EntryView {
        EntryView {
            timestamp: self.timestamp,
            name: self.name,
            value: payload_of(self.size, self.blob)->0,
        }
    }
}

/// Whether the row at `bad` is the first that stands for no entry.
pub open spec fn first_undecodable(rows: Seq<RowView>, bad: int) -> bool {
    &&& 0 <= bad < rows.len()
    &&& !rows[bad].decodable()
    &&& forall|i: int| 0 <= i < bad ==> (#[trigger] rows[i]).decodable()
}

/// Rows as mathematical values.
pub open spec fn row_views(rows: Seq<Row>) -> Seq<RowView> {
    rows.map_values(|row: Row| row@)
}

/// The entries that rows stand for.
pub open spec fn row_entries(rows: Seq<RowView>) -> Seq<EntryView> {
    rows.map_values(|row: RowView| row.entry())
}

/// A statement and the values to bind to its placeholders, for the caller
/// to run.
#[derive(Debug, PartialEq, Eq)]
pub struct Query {
    pub statement: String,
    pub params: Vec<String>,
}

/// What a query text ends with to read one page of rows from `offset` on, in
/// the order of their timestamps.
pub open spec fn page_suffix(offset: nat) -> Seq<char> {
    "order by ts limit "@ + digits(PAGINATION_LIMIT as nat) + " offset "@ + digits(offset)
}

/// A range query on the durable log.
#[derive(Debug)]
pub struct SqliteRange {
    statement_builder: StatementBuilder,
}

impl View for SqliteRange {
    type V = RangeView;

    closed spec fn view(&self) -> RangeView {
        self.statement_builder@
    }
}

impl Clone for SqliteRange {
    fn clone(&self) -> (copy: SqliteRange)
        ensures
            copy@ == self@,
    {
        SqliteRange { statement_builder: self.statement_builder.clone() }
    }
}

/// Whether `query` is the statement of `range` between `prefix` and
/// `suffix`, with the range's name bound to it.
pub open spec fn is_query_of(query: Query, range: RangeView, prefix: Seq<char>, suffix: Seq<char>) -> bool {
    &&& query.statement@ == statement_text(clauses_of(range), prefix, suffix)
    &&& match range.name {
        Some(name) => query.params@.len() == 1 && query.params@[0]@ == name,
        None => query.params@.len() == 0,
    }
}

impl SqliteRange {
    /// A query for the rows within the two bounds and, where `name` is
    /// given, under that name; `BadRange` where the bounds are refused.
    pub fn new(start_bound: Bound<i64>, end_bound: Bound<i64>, name: Option<&str>) -> (made: Result<
        SqliteRange,
        Error,
    >)
        ensures
            made is Ok <==> well_formed_bounds(start_bound, end_bound),
            made matches Ok(range) ==> range@ == (RangeView {
                start_bound,
                end_bound,
                name: match name {
                    Some(name) => Some(name@),
                    None => None,
                },
            }),
            made matches Err(error) ==> error is BadRange,
    {
        let start_ref = match &start_bound {
            Bound::Included(ts) => Bound::Included(ts),
            Bound::Excluded(ts) => Bound::Excluded(ts),
            Bound::Unbounded => Bound::Unbounded,
        };
        let end_ref = match &end_bound {
            Bound::Included(ts) => Bound::Included(ts),
            Bound::Excluded(ts) => Bound::Excluded(ts),
            Bound::Unbounded => Bound::Unbounded,
        };
        match check_bounds(start_ref, end_ref) {
            Ok(()) => {
                let name = match name {
                    Some(name) => Some(String::from_str(name)),
                    None => None,
                };
                Ok(SqliteRange { statement_builder: StatementBuilder::new(start_bound, end_bound, name) })
            },
            Err(error) => Err(error),
        }
    }

    /// The statement that counts the rows of the query.
    pub fn count(&self) -> (query: Query)
        ensures
            is_query_of(query, self@, "select count(id) from log"@, ""@),
    {
        Query {
            statement: self.statement_builder.statement("select count(id) from log", ""),
            params: self.statement_builder.params(),
        }
    }

    /// The statement that deletes the rows of the query.
    pub fn remove(self) -> (query: Query)
        ensures
            is_query_of(query, self@, "delete from log"@, ""@),
    {
        Query {
            statement: self.statement_builder.statement("delete from log", ""),
            params: self.statement_builder.params(),
        }
    }

    /// The statement that reads, in the order of their first timestamps, the
    /// compacted blocks that may hold entries of the query.
    pub fn blocks(&self) -> (query: Query)
        ensures
            query.statement@ == block_statement_text(
                clauses_of(self@),
                "select start_ts, end_ts, name, size, count, value from compacted_log"@,
                "order by start_ts"@,
            ),
            match self@.name {
                Some(name) => query.params@.len() == 1 && query.params@[0]@ == name,
                None => query.params@.len() == 0,
            },
    {
        Query {
            statement: self.statement_builder.block_statement(
                "select start_ts, end_ts, name, size, count, value from compacted_log",
                "order by start_ts",
            ),
            params: self.statement_builder.params(),
        }
    }

    /// The statement that deletes the compacted blocks that may hold entries
    /// of the query.
    pub fn remove_blocks(&self) -> (query: Query)
        ensures
            query.statement@ == block_statement_text(
                clauses_of(self@),
                "delete from compacted_log"@,
                ""@,
            ),
            match self@.name {
                Some(name) => query.params@.len() == 1 && query.params@[0]@ == name,
                None => query.params@.len() == 0,
            },
    {
        Query {
            statement: self.statement_builder.block_statement("delete from compacted_log", ""),
            params: self.statement_builder.params(),
        }
    }

    /// Those of `entries` that the query selects, in their order.
    pub fn selected(&self, entries: Vec<Entry>) -> (kept: Vec<Entry>)
        ensures
            entry_views(kept@) == select(entry_views(entries@), self@),
    {
        let ghost all = entries@;
        let ghost views = entry_views(all);
        let ghost keep = self@.selector();
        let mut kept: Vec<Entry> = Vec::new();
        proof {
            lemma_filter_nothing(views, keep);
            assert(entry_views(kept@) =~= Seq::<EntryView>::empty());
        }
        for entry in it: entries.into_iter()
            invariant
                it.seq() == all,
                all == entries@,
                views == entry_views(all),
                keep == self@.selector(),
                entry_views(kept@) == views.take(it.index() as int).filter(keep),
        {
            proof {
                lemma_filter_step(views, keep, it.index() as int);
                assert(views[it.index() as int] == entry@);
            }
            if self.statement_builder.matches(&entry) {
                proof {
                    assert(entry_views(kept@.push(entry)) =~= entry_views(kept@).push(entry@));
                }
                kept.push(entry);
            }
        }
        proof {
            assert(views.take(views.len() as int) =~= views);
        }
        kept
    }

    /// Those of `entries` that the query does not select, in their order.
    pub fn rejected(&self, entries: Vec<Entry>) -> (kept: Vec<Entry>)
        ensures
            entry_views(kept@) == without(entry_views(entries@), self@),
    {
        let ghost all = entries@;
        let ghost views = entry_views(all);
        let ghost keep = self@.rejector();
        let mut kept: Vec<Entry> = Vec::new();
        proof {
            lemma_filter_nothing(views, keep);
            assert(entry_views(kept@) =~= Seq::<EntryView>::empty());
        }
        for entry in it: entries.into_iter()
            invariant
                it.seq() == all,
                all == entries@,
                views == entry_views(all),
                keep == self@.rejector(),
                entry_views(kept@) == views.take(it.index() as int).filter(keep),
        {
            proof {
                lemma_filter_step(views, keep, it.index() as int);
                assert(views[it.index() as int] == entry@);
            }
            if !self.statement_builder.matches(&entry) {
                proof {
                    assert(entry_views(kept@.push(entry)) =~= entry_views(kept@).push(entry@));
                }
                kept.push(entry);
            }
        }
        proof {
            assert(views.take(views.len() as int) =~= views);
        }
        kept
    }

    /// A cursor over the rows of the query, which has read nothing yet.
    pub fn iter(self) -> (cursor: SqliteRangeIterator)
        ensures
            cursor.range() == self@,
            cursor.buffered() == Seq::<EntryView>::empty(),
            cursor.compacted() == Seq::<EntryView>::empty(),
            cursor.offset() == 0,
            !cursor.done(),
    {
        let cursor = self.iter_with(VecDeque::new());
        assert(cursor.compacted() =~= Seq::<EntryView>::empty());
        cursor
    }

    /// A cursor over the rows of the query and over the entries of the query
    /// that compacted blocks hold, given in the order of their timestamps.
    /// It has read no row yet, and hands out rows and entries as one
    /// sequence in the order of their timestamps.
    pub fn iter_with(self, compacted: VecDeque<Entry>) -> (cursor: SqliteRangeIterator)
        ensures
            cursor.range() == self@,
            cursor.buffered() == Seq::<EntryView>::empty(),
            cursor.compacted() == entry_views(compacted@),
            cursor.offset() == 0,
            !cursor.done(),
    {
        let cursor = SqliteRangeIterator {
            statement_builder: self.statement_builder,
            entries: VecDeque::new(),
            compacted,
            offset: 0,
            done: false,
        };
        assert(cursor.buffered() =~= Seq::<EntryView>::empty());
        cursor
    }
}

/// A cursor over the rows of a range query. Of the log's rows it holds at
/// most the entries of the pages that it was given and has not handed out
/// yet.
pub struct SqliteRangeIterator {
    statement_builder: StatementBuilder,
    entries: VecDeque<Entry>,
    compacted: VecDeque<Entry>,
    offset: u64,
    done: bool,
}

/// What a cursor does next.
#[derive(Debug, PartialEq, Eq)]
pub enum Step {
    /// The next entry of the query.
    Entry(Entry),
    /// The cursor has no row at hand: the caller runs the statement and
    /// hands its rows to `fill_entries`.
    Fetch(Query),
    /// The query has no further entry.
    Finished,
}

/// Whether the next entry comes from the compacted blocks rather than from
/// the rows at hand: there is one, and no row at hand has a lower timestamp.
pub open spec fn compacted_is_next(compacted: Seq<EntryView>, buffered: Seq<EntryView>) -> bool {
    compacted.len() > 0 && (buffered.len() == 0 || compacted[0].timestamp
        <= buffered[0].timestamp)
}

/// The offset behind the page at `offset`, or `offset` itself where no
/// further page can be counted.
pub open spec fn next_offset(offset: u64) -> u64 {
    if offset + PAGINATION_LIMIT <= u64::MAX {
        (offset + PAGINATION_LIMIT) as u64
    } else {
        offset
    }
}

/// A cursor as a mathematical value: the entries of the log's rows that it
/// holds, next first; the entries from compacted blocks that it has yet to
/// hand out, next first; how many rows of the query lie before the page
/// that is read next; and whether no further page is read.
pub struct CursorView {
    pub buffered: Seq<EntryView>,
    pub compacted: Seq<EntryView>,
    pub offset: u64,
    pub done: bool,
}

impl CursorView {
    /// Whether the cursor asks for a page next: it holds no row, and may
    /// read a further page.
    pub open spec fn asks(self) -> bool {
        self.buffered.len() == 0 && !self.done
    }

    /// Whether the cursor has nothing more to hand out.
    pub open spec fn finished(self) -> bool {
        self.buffered.len() == 0 && self.compacted.len() == 0 && self.done
    }

    /// The entry that the cursor hands out next: of the first row that it
    /// holds and the first entry from the compacted blocks the one with the
    /// lower timestamp, and of two with one timestamp the compacted one.
    pub open spec fn next_entry(self) -> EntryView {
        if compacted_is_next(self.compacted, self.buffered) {
            self.compacted[0]
        } else {
            self.buffered[0]
        }
    }

    /// The cursor after it handed out its next entry.
    pub open spec fn after_entry(self) -> CursorView {
        if compacted_is_next(self.compacted, self.buffered) {
            CursorView { compacted: self.compacted.skip(1), ..self }
        } else {
            CursorView { buffered: self.buffered.skip(1), ..self }
        }
    }

    /// The cursor after it took a page of `rows` rows that stand for
    /// `entries`: the entries join those that it holds, it moves on by one
    /// page, and a page that is not full is the last.
    pub open spec fn after_page(self, entries: Seq<EntryView>, rows: nat) -> CursorView {
        CursorView {
            buffered: self.buffered + entries,
            compacted: self.compacted,
            offset: next_offset(self.offset),
            done: self.done || rows < PAGINATION_LIMIT || self.offset + PAGINATION_LIMIT
                > u64::MAX,
        }
    }

    /// The cursor after it took a page with a row that stands for no entry,
    /// where `entries` are those of the rows before that row: they join
    /// those that it holds, and no further page is read.
    pub open spec fn after_bad_page(self, entries: Seq<EntryView>) -> CursorView {
        CursorView {
            buffered: self.buffered + entries,
            compacted: self.compacted,
            offset: next_offset(self.offset),
            done: true,
        }
    }
}

impl View for SqliteRangeIterator {
    type V = CursorView;

    open spec fn view(&self) -> CursorView {
        CursorView {
            buffered: self.buffered(),
            compacted: self.compacted(),
            offset: self.offset(),
            done: self.done(),
        }
    }
}

impl SqliteRangeIterator {
    /// The query that the cursor reads.
    pub closed spec fn range(&self) -> RangeView {
        self.statement_builder@
    }

    /// The entries of the log's rows that the cursor holds, next first.
    pub closed spec fn buffered(&self) -> Seq<EntryView> {
        entry_views(self.entries@)
    }

    /// The entries from compacted blocks that the cursor has yet to hand
    /// out, next first.
    pub closed spec fn compacted(&self) -> Seq<EntryView> {
        entry_views(self.compacted@)
    }

    /// How many rows of the query lie before the page that is read next.
    pub closed spec fn offset(&self) -> u64 {
        self.offset
    }

    /// Whether no further page is read: the last page has been read, or a
    /// page held a row that could not be decoded.
    pub closed spec fn done(&self) -> bool {
        self.done
    }

    /// What the cursor does next.
    ///
    /// While it holds no row and may read a further page, it asks for that
    /// page. Else it hands out its next entry. Where none is left, it is
    /// finished, and stays so.
    pub fn next(&mut self) -> (step: Step)
        ensures
            final(self).range() == old(self).range(),
            match step {
                Step::Fetch(query) => {
                    &&& old(self)@.asks()
                    &&& final(self)@ == old(self)@
                    &&& is_query_of(
                        query,
                        old(self).range(),
                        "select ts, name, size, value from log"@,
                        page_suffix(old(self)@.offset as nat),
                    )
                },
                Step::Entry(entry) => {
                    &&& !old(self)@.asks()
                    &&& !old(self)@.finished()
                    &&& entry@ == old(self)@.next_entry()
                    &&& final(self)@ == old(self)@.after_entry()
                },
                Step::Finished => {
                    &&& old(self)@.finished()
                    &&& final(self)@ == old(self)@
                },
            },
    {
        let ghost waiting = self.entries@;
        let ghost packed = self.compacted@;
        if self.entries.len() == 0 && !self.done {
            let mut suffix = String::from_str("order by ts limit ");
            push_digits(&mut suffix, PAGINATION_LIMIT);
            suffix.append(" offset ");
            push_digits(&mut suffix, self.offset);
            assert(suffix@ =~= page_suffix(self.offset as nat));
            return Step::Fetch(
                Query {
                    statement: self.statement_builder.statement(
                        "select ts, name, size, value from log",
                        suffix.as_str(),
                    ),
                    params: self.statement_builder.params(),
                },
            );
        }
        let from_compacted = if self.compacted.len() == 0 {
            false
        } else if self.entries.len() == 0 {
            true
        } else {
            self.compacted[0].timestamp <= self.entries[0].timestamp
        };
        let next = if from_compacted {
            self.compacted.pop_front()
        } else {
            self.entries.pop_front()
        };
        proof {
            if from_compacted {
                assert(entry_views(packed.skip(1)) =~= entry_views(packed).skip(1));
            } else if waiting.len() > 0 {
                assert(entry_views(waiting.skip(1)) =~= entry_views(waiting).skip(1));
            }
        }
        match next {
            Some(entry) => Step::Entry(entry),
            None => Step::Finished,
        }
    }

    /// Takes the rows of the page that `next` asked for.
    ///
    /// The entries of the rows join those that the cursor holds, up to the
    /// first row that stands for no entry, and the cursor moves on by one
    /// page. Where every row stands for an entry, a page that is not full is
    /// the last. Where one does not, `DataFormat` is returned and no further
    /// page is read: the cursor ends behind the entries that it holds.
    pub fn fill_entries(&mut self, rows: Vec<Row>) -> (filled: Result<(), Error>)
        ensures
            final(self).range() == old(self).range(),
            (forall|i: int| 0 <= i < rows@.len() ==> (#[trigger] rows@[i])@.decodable())
                <==> filled is Ok,
            match filled {
                Ok(()) => final(self)@ == old(self)@.after_page(
                    row_entries(row_views(rows@)),
                    rows@.len(),
                ),
                Err(error) => {
                    &&& error is DataFormat
                    &&& exists|bad: int|
                        {
                            &&& #[trigger] first_undecodable(row_views(rows@), bad)
                            &&& final(self)@ == old(self)@.after_bad_page(
                                row_entries(row_views(rows@).take(bad)),
                            )
                        }
                },
            },
    {
        let ghost before = entry_views(self.entries@);
        let ghost all = rows@;
        let added: usize = rows.len();
        let last_page = (added as u64) < PAGINATION_LIMIT || self.offset > u64::MAX
            - PAGINATION_LIMIT;
        if self.offset <= u64::MAX - PAGINATION_LIMIT {
            self.offset += PAGINATION_LIMIT;
        }
        proof {
            assert(before + row_entries(row_views(all).take(0)) =~= before);
        }
        for row in it: rows.into_iter()
            invariant
                it.seq() == all,
                all == rows@,
                before == old(self).buffered(),
                self.statement_builder == old(self).statement_builder,
                self.compacted == old(self).compacted,
                self.offset == next_offset(old(self).offset),
                self.done == old(self).done,
                forall|i: int| 0 <= i < it.index() ==> (#[trigger] all[i])@.decodable(),
                entry_views(self.entries@) == before + row_entries(
                    row_views(all).take(it.index() as int),
                ),
        {
            let ghost at = it.index() as int;
            assert(row == all[at]);
            match entry_from_row(row.timestamp, row.name.as_str(), row.size, row.blob) {
                Ok(entry) => {
                    proof {
                        assert(entry@ == all[at]@.entry());
                        assert(entry_views(self.entries@.push(entry)) =~= entry_views(
                            self.entries@,
                        ).push(entry@));
                        assert(before + row_entries(row_views(all).take(at + 1)) =~= (before
                            + row_entries(row_views(all).take(at))).push(entry@));
                    }
                    self.entries.push_back(entry);
                },
                Err(error) => {
                    proof {
                        assert(!all[at]@.decodable());
                        assert forall|i: int| 0 <= i < at implies (#[trigger] row_views(
                            all,
                        )[i]).decodable() by {
                            assert(all[i]@.decodable());
                        }
                        assert(first_undecodable(row_views(all), at));
                    }
                    self.done = true;
                    return Err(error);
                },
            }
        }
        proof {
            assert(row_views(all).take(all.len() as int) =~= row_views(all));
        }
        if last_page {
            self.done = true;
        }
        Ok(())
    }
}

/// What the cursor hands out next is the first of the merge of what it
/// holds, and what it keeps is the rest of that merge: the entries from the
/// compacted blocks and the rows of the log leave the cursor as one
/// sequence in the order of their timestamps, each once.
pub proof fn lemma_next_is_first_of_the_merge(compacted: Seq<EntryView>, buffered: Seq<EntryView>)
    requires
        compacted.len() + buffered.len() > 0,
    ensures
        merged(compacted, buffered).len() > 0,
        merged(compacted, buffered)[0] == if compacted_is_next(compacted, buffered) {
            compacted[0]
        } else {
            buffered[0]
        },
        merged(compacted, buffered).skip(1) == if compacted_is_next(compacted, buffered) {
            merged(compacted.skip(1), buffered)
        } else {
            merged(compacted, buffered.skip(1))
        },
{
    if compacted.len() == 0 {
        assert(merged(compacted, buffered.skip(1)) == buffered.skip(1));
    } else if buffered.len() == 0 {
        assert(merged(compacted.skip(1), buffered) =~= compacted.skip(1));
    } else if compacted[0].timestamp <= buffered[0].timestamp {
        assert((seq![compacted[0]] + merged(compacted.skip(1), buffered)).skip(1) =~= merged(
            compacted.skip(1),
            buffered,
        ));
    } else {
        assert((seq![buffered[0]] + merged(compacted, buffered.skip(1))).skip(1) =~= merged(
            compacted,
            buffered.skip(1),
        ));
    }
}

/// The rows of one page: those of `all` from `offset` on, up to `limit` of
/// them.
pub open spec fn page_at<A>(all: Seq<A>, offset: nat, limit: nat) -> Seq<A> {
    let from = if offset <= all.len() {
        offset
    } else {
        all.len()
    };
    let to = if offset + limit <= all.len() {
        offset + limit
    } else {
        all.len()
    };
    all.subrange(from as int, to as int)
}

/// What reading page after page from `offset` on gives, where the first
/// page that is not full is the last one read.
pub open spec fn read_in_pages<A>(all: Seq<A>, offset: nat, limit: nat) -> Seq<A>
    decreases all.len() - offset,
{
    let page = page_at(all, offset, limit);
    if limit == 0 || page.len() < limit {
        page
    } else {
        page + read_in_pages(all, offset + limit, limit)
    }
}

/// How many pages are read from `offset` on until one is not full.
pub open spec fn pages_read(length: nat, offset: nat, limit: nat) -> nat
    decreases length - offset,
{
    if limit == 0 || offset + limit > length {
        1
    } else {
        1 + pages_read(length, offset + limit, limit)
    }
}

/// Reading page after page ends, and gives every row once, in order:
/// whether the rows fill no page, exactly one, or one and a row more.
pub proof fn lemma_pages_give_every_row<A>(all: Seq<A>, offset: nat, limit: nat)
    requires
        limit > 0,
        offset <= all.len(),
    ensures
        read_in_pages(all, offset, limit) == all.skip(offset as int),
        pages_read(all.len(), offset, limit) == (all.len() - offset) / (limit as int) + 1,
    decreases all.len() - offset,
{
    let page = page_at(all, offset, limit);
    if page.len() < limit {
        assert(page =~= all.skip(offset as int));
        assert((all.len() - offset) / (limit as int) == 0) by (nonlinear_arith)
            requires
                0 <= all.len() - offset < limit,
        ;
    } else {
        lemma_pages_give_every_row(all, offset + limit, limit);
        assert(page + all.skip((offset + limit) as int) =~= all.skip(offset as int));
        assert((all.len() - offset) / (limit as int) == (all.len() - (offset + limit)) / (
        limit as int) + 1) by (nonlinear_arith)
            requires
                limit > 0,
                all.len() - offset >= limit,
        ;
    }
}

/// A database that answers each page of a range's statement with the rows
/// that meet its conditions, in their order, hands the cursor what the
/// in-memory engine selects of these rows: every such entry once, in that
/// order, whatever their number.
pub proof fn lemma_paged_rows_are_the_selected(
    rows: Seq<EntryView>,
    range: RangeView,
    bound_name: Seq<char>,
)
    requires
        range.name matches Some(name) ==> name == bound_name,
    ensures
        read_in_pages(rows.filter(meeting(range, bound_name)), 0, PAGINATION_LIMIT as nat)
            == select(rows, range),
{
    lemma_statements_select_what_the_range_selects(rows, range, bound_name);
    let answered = rows.filter(meeting(range, bound_name));
    lemma_pages_give_every_row(answered, 0, PAGINATION_LIMIT as nat);
    assert(answered.skip(0) =~= answered);
}

/// A removal whose range selects nothing deletes no row: every row fails a
/// condition of the statement, and stays.
pub proof fn lemma_removing_nothing_deletes_no_row(
    rows: Seq<EntryView>,
    range: RangeView,
    bound_name: Seq<char>,
)
    requires
        range.name matches Some(name) ==> name == bound_name,
        select(rows, range).len() == 0,
    ensures
        rows.filter(meeting(range, bound_name)).len() == 0,
        rows.filter(failing(range, bound_name)) == rows,
{
    lemma_statements_select_what_the_range_selects(rows, range, bound_name);
    lemma_empty_remove_changes_nothing(rows, range);
}

/// The rows of a table that lie behind the pages that a cursor has read.
pub open spec fn unread(cursor: CursorView, table: Seq<EntryView>) -> Seq<EntryView> {
    if cursor.offset <= table.len() {
        table.skip(cursor.offset as int)
    } else {
        Seq::empty()
    }
}

/// A bound on the pages that a cursor still asks for.
pub open spec fn pages_left(cursor: CursorView, table: Seq<EntryView>) -> nat {
    if cursor.done {
        0
    } else if cursor.offset <= table.len() {
        (table.len() - cursor.offset + 2) as nat
    } else {
        1
    }
}

/// The entries that a cursor hands out from now on, step by step as `next`
/// and `fill_entries` take them, where each page that it asks for is
/// answered with the rows of `table` at its offset: `table` stands for the
/// rows that the cursor's statement selects, in the order in which the
/// database gives them, each standing for an entry.
pub open spec fn handed_out(cursor: CursorView, table: Seq<EntryView>) -> Seq<EntryView>
    decreases pages_left(cursor, table), cursor.buffered.len() + cursor.compacted.len(),
{
    if cursor.asks() {
        let page = page_at(table, cursor.offset as nat, PAGINATION_LIMIT as nat);
        handed_out(cursor.after_page(page, page.len()), table)
    } else if cursor.finished() {
        Seq::empty()
    } else {
        seq![cursor.next_entry()] + handed_out(cursor.after_entry(), table)
    }
}

/// A cursor that has read nothing yet, over the given entries from
/// compacted blocks.
pub open spec fn fresh_cursor(compacted: Seq<EntryView>) -> CursorView {
    CursorView { buffered: Seq::empty(), compacted, offset: 0, done: false }
}

/// Step by step a cursor hands out every entry once, and ends: what it
/// hands out in all is the merge of the entries from compacted blocks with
/// the rows that it holds and those of the table that it has yet to read.
pub proof fn lemma_cursor_hands_out_the_merge(cursor: CursorView, table: Seq<EntryView>)
    requires
        table.len() + PAGINATION_LIMIT <= u64::MAX,
        cursor.done ==> cursor.offset >= table.len(),
        !cursor.done ==> cursor.offset <= table.len(),
    ensures
        handed_out(cursor, table) == merged(
            cursor.compacted,
            cursor.buffered + unread(cursor, table),
        ),
    decreases pages_left(cursor, table), cursor.buffered.len() + cursor.compacted.len(),
{
    let rest = cursor.buffered + unread(cursor, table);
    if cursor.asks() {
        let page = page_at(table, cursor.offset as nat, PAGINATION_LIMIT as nat);
        let filled = cursor.after_page(page, page.len());
        assert(filled.buffered + unread(filled, table) =~= rest);
        lemma_cursor_hands_out_the_merge(filled, table);
    } else if cursor.finished() {
        assert(rest =~= Seq::<EntryView>::empty());
    } else {
        if cursor.buffered.len() == 0 {
            assert(rest =~= cursor.buffered);
        } else {
            assert(rest[0] == cursor.buffered[0]);
        }
        lemma_next_is_first_of_the_merge(cursor.compacted, rest);
        let taken = cursor.after_entry();
        if compacted_is_next(cursor.compacted, cursor.buffered) {
            assert(taken.buffered + unread(taken, table) =~= rest);
        } else {
            assert(taken.buffered + unread(taken, table) =~= rest.skip(1));
        }
        lemma_cursor_hands_out_the_merge(taken, table);
        let all = merged(cursor.compacted, rest);
        assert(all =~= seq![all[0]] + all.skip(1));
    }
}

/// The cursor reads what the in-memory engine selects: where the database
/// answers each page of the range's statement with the rows that meet its
/// conditions, a cursor that has read nothing hands out, step by step,
/// exactly the entries that the range selects of these rows, in their
/// order, and then ends; with entries from compacted blocks, it hands out
/// the merge of the two.
pub proof fn lemma_cursor_reads_what_the_range_selects(
    rows: Seq<EntryView>,
    range: RangeView,
    bound_name: Seq<char>,
    compacted: Seq<EntryView>,
)
    requires
        range.name matches Some(name) ==> name == bound_name,
        rows.len() + PAGINATION_LIMIT <= u64::MAX,
    ensures
        handed_out(fresh_cursor(compacted), rows.filter(meeting(range, bound_name))) == merged(
            compacted,
            select(rows, range),
        ),
        handed_out(fresh_cursor(Seq::empty()), rows.filter(meeting(range, bound_name))) == select(
            rows,
            range,
        ),
{
    lemma_statements_select_what_the_range_selects(rows, range, bound_name);
    let table = rows.filter(meeting(range, bound_name));
    rows.lemma_filter_len(meeting(range, bound_name));
    lemma_cursor_hands_out_the_merge(fresh_cursor(compacted), table);
    lemma_cursor_hands_out_the_merge(fresh_cursor(Seq::empty()), table);
    assert(table.skip(0) =~= table);
    assert(Seq::<EntryView>::empty() + table =~= table);
}

} // verus!
