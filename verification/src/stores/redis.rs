//! The stream engine's own logic: how streams are named, how an entry
//! travels as the fields of a stream record, which connections are kept for
//! reuse, and what a listener on a stream does with each reply. Talking to
//! the server is left to the caller.

use vstd::prelude::*;
use vstd::string::StringExecFns;
use crate::entry::{Entry, EntryView};
use crate::errors::Error;
use crate::laws::{
    lemma_listener_receives_in_push_order, lemma_new_listener_waits_for_nothing, notified_all,
};
use crate::model::{distinct_ids, index_of, named, pending_of, registered, SubscriberView};
use crate::wire::{
    lemma_timestamp_round_trip, read_timestamp, timestamp_bytes, timestamp_from, write_timestamp,
};

verus! {

/// How long one blocking read of a listener lasts at most, in milliseconds:
/// short enough for the listener to notice in time that it is to stop.
pub const STREAM_READ_BLOCK_MS: usize = 1000;

/// How many idle connections a store keeps for reuse.
pub const CONN_POOL_MAX_COUNT: usize = 4;

/// What every stream name starts with.
pub open spec fn channel_prefix() -> Seq<char> {
    "binlog:stream:v0:"@
}

/// The stream that holds the entries under `name`.
pub fn redis_channel(name: &str) -> (channel: String)
    ensures
        channel@ == channel_prefix() + name@,
{
    let mut channel = String::from_str("binlog:stream:v0:");
    channel.append(name);
    channel
}

/// The error for a record that lacks a field or holds one that cannot be
/// read.
pub fn unexpected_data_format() -> (error: Error)
    ensures
        error is DataFormat,
{
    Error::DataFormat
}

/// What is appended to a stream for one entry.
#[derive(Debug, PartialEq, Eq)]
pub struct StreamAppend {
    /// The stream to append to.
    pub channel: String,
    /// The length to which the server may trim the stream, approximately.
    pub max_len: usize,
    /// The content of the field `timestamp`.
    pub timestamp: Vec<u8>,
    /// The content of the field `value`.
    pub value: Vec<u8>,
}

/// The append that pushes `entry` to its stream.
pub fn push_command(entry: &Entry, max_stream_len: usize) -> (command: StreamAppend)
    ensures
        command.channel@ == channel_prefix() + entry.name@,
        command.max_len == max_stream_len,
        command.timestamp@ == timestamp_bytes(entry.timestamp),
        command.value@ == entry.value@,
{
    StreamAppend {
        channel: redis_channel(entry.name.as_str()),
        max_len: max_stream_len,
        timestamp: write_timestamp(entry.timestamp),
        value: entry.value.clone(),
    }
}

/// One record of a stream as the server hands it out: its identifier, and
/// the content of each of the two fields where the record has the field and
/// the field holds binary data.
#[derive(Debug, PartialEq, Eq)]
pub struct StreamRecord {
    pub id: String,
    pub timestamp: Option<Vec<u8>>,
    pub value: Option<Vec<u8>>,
}

impl StreamRecord {
    /// Whether the record carries an entry: it has both fields, and its
    /// timestamp has the eight bytes of one.
    pub open spec fn decodable(&self) -> bool {
        &&& self.timestamp matches Some(timestamp_bytes)
        &&& timestamp_bytes@.len() >= 8
        &&& self.value is Some
    }

    /// The entry that the record carries under `name`.
    pub open spec fn entry(&self, name: Seq<char>) -> EntryView {
        EntryView {
            timestamp: timestamp_from(self.timestamp->0@) as int,
            name,
            value: self.value->0@,
        }
    }
}

/// A record whose fields are those of the append that pushed an entry
/// carries that entry: its timestamp and payload come back as they were.
pub proof fn lemma_appended_entry_is_read_back(
    record: StreamRecord,
    command: StreamAppend,
    entry: EntryView,
)
    requires
        i64::MIN <= entry.timestamp <= i64::MAX,
        command.timestamp@ == timestamp_bytes(entry.timestamp as i64),
        command.value@ == entry.value,
        record.timestamp == Some(command.timestamp),
        record.value == Some(command.value),
    ensures
        record.decodable(),
        record.entry(entry.name) == entry,
{
    lemma_timestamp_round_trip(entry.timestamp as i64);
}

/// The entry that a record of the stream of `name` carries, or `DataFormat`
/// where it carries none.
pub fn entry_from_stream_id(stream_id: &StreamRecord, name: &str) -> (decoded: Result<Entry, Error>)
    ensures
        stream_id.decodable() <==> decoded is Ok,
        decoded matches Ok(entry) ==> entry@ == stream_id.entry(name@),
        decoded matches Err(error) ==> error is DataFormat,
{
    match (&stream_id.timestamp, &stream_id.value) {
        (Some(timestamp_bytes), Some(value_bytes)) => {
            if timestamp_bytes.len() >= 8 {
                let timestamp = read_timestamp(timestamp_bytes.as_slice());
                Ok(Entry::new_with_timestamp(timestamp, name, value_bytes.clone()))
            } else {
                Err(unexpected_data_format())
            }
        },
        _ => Err(unexpected_data_format()),
    }
}

/// What `latest` makes of the reply to reading the last record of the
/// stream of `name`: nothing where the stream is empty, else the entry of
/// the first record handed out, or `DataFormat` where that carries none.
pub fn latest_from_reply(records: &Vec<StreamRecord>, name: &str) -> (found: Result<
    Option<Entry>,
    Error,
>)
    ensures
        match found {
            Ok(None) => records@.len() == 0,
            Ok(Some(entry)) => records@.len() > 0 && records@[0].decodable() && entry@
                == records@[0].entry(name@),
            Err(error) => records@.len() > 0 && !records@[0].decodable() && error is DataFormat,
        },
{
    if records.len() == 0 {
        Ok(None)
    } else {
        match entry_from_stream_id(&records[0], name) {
            Ok(entry) => Ok(Some(entry)),
            Err(err) => Err(err),
        }
    }
}

/// The idle connections of a store, kept for reuse: never more than
/// `CONN_POOL_MAX_COUNT`.
pub struct ConnectionPool<C> {
    idle: Vec<C>,
}

impl<C> ConnectionPool<C> {
    /// The idle connections, the one that is reused next last.
    pub closed spec fn idle(&self) -> Seq<C> {
        self.idle@
    }

    /// What holds of every pool: it keeps no more connections than allowed.
    pub closed spec fn well_formed(&self) -> bool {
        self.idle@.len() <= CONN_POOL_MAX_COUNT
    }

    /// What a well-formed pool is known by: it holds no more idle
    /// connections than `CONN_POOL_MAX_COUNT`.
    pub proof fn lemma_well_formed(&self)
        requires
            self.well_formed(),
        ensures
            self.idle().len() <= CONN_POOL_MAX_COUNT,
    {
    }

    /// A pool without connections.
    pub fn new() -> (pool: ConnectionPool<C>)
        ensures
            pool.well_formed(),
            pool.idle() == Seq::<C>::empty(),
    {
        ConnectionPool { idle: Vec::new() }
    }

    /// Takes an idle connection out of the pool, if it holds one; the caller
    /// opens a new one where it holds none.
    pub fn checkout(&mut self) -> (conn: Option<C>)
        requires
            old(self).well_formed(),
        ensures
            final(self).well_formed(),
            match conn {
                Some(conn) => old(self).idle().len() > 0 && conn == old(self).idle().last()
                    && final(self).idle() == old(self).idle().drop_last(),
                None => old(self).idle().len() == 0 && final(self).idle() == old(self).idle(),
            },
    {
        self.idle.pop()
    }

    /// Takes back a connection after use. It is kept where the operation on
    /// it succeeded and the pool has room; a connection on which an
    /// operation failed may be in a bad state and is never kept.
    pub fn checkin(&mut self, conn: C, succeeded: bool) -> (kept: bool)
        requires
            old(self).well_formed(),
        ensures
            final(self).well_formed(),
            kept == (succeeded && old(self).idle().len() < CONN_POOL_MAX_COUNT),
            final(self).idle() == if kept {
                old(self).idle().push(conn)
            } else {
                old(self).idle()
            },
    {
        if succeeded && self.idle.len() < CONN_POOL_MAX_COUNT {
            self.idle.push(conn);
            true
        } else {
            false
        }
    }
}

/// What a listener hands to the one who listens: an entry, or the error
/// that stands for a record that carries none.
pub type Delivery = Result<Entry, Error>;

/// How many records at the start of `records` carry an entry.
pub open spec fn leading_decodable(records: Seq<StreamRecord>) -> nat
    decreases records.len(),
{
    if records.len() == 0 {
        0
    } else if leading_decodable(records.drop_last()) < records.len() - 1 {
        leading_decodable(records.drop_last())
    } else if records.last().decodable() {
        records.len()
    } else {
        (records.len() - 1) as nat
    }
}

/// The state of a listener on one stream: the name it listens to, and the
/// identifier of the last record for which it has handed something out,
/// from which the next read goes on.
pub struct StreamListener {
    name: String,
    last_id: String,
}

/// A read of the records that follow `last_id` in `channel`, which blocks
/// for up to `block_ms` milliseconds while there is none.
#[derive(Debug, PartialEq, Eq)]
pub struct StreamRead {
    pub channel: String,
    pub last_id: String,
    pub block_ms: usize,
}

impl StreamListener {
    /// The name that the listener listens to.
    pub closed spec fn name(&self) -> Seq<char> {
        self.name@
    }

    /// The identifier behind which the next read starts.
    pub closed spec fn last_id(&self) -> Seq<char> {
        self.last_id@
    }

    /// A listener on `name` that is handed the entries pushed from now on:
    /// its first read starts behind the stream's newest record.
    pub fn new(name: &str) -> (listener: StreamListener)
        ensures
            listener.name() == name@,
            listener.last_id() == "$"@,
    {
        StreamListener { name: String::from_str(name), last_id: String::from_str("$") }
    }

    /// The next read of the listener.
    pub fn read(&self) -> (request: StreamRead)
        ensures
            request.channel@ == channel_prefix() + self.name(),
            request.last_id@ == self.last_id(),
            request.block_ms == STREAM_READ_BLOCK_MS,
    {
        StreamRead {
            channel: redis_channel(self.name.as_str()),
            last_id: self.last_id.clone(),
            block_ms: STREAM_READ_BLOCK_MS,
        }
    }

    /// What the listener hands out for the records of one reply, in order.
    ///
    /// Each record that carries an entry gives that entry, up to the first
    /// that carries none: that one gives `DataFormat`, and the records
    /// behind it are left for the next read. The next read starts behind the
    /// last record for which something was handed out, so that no record
    /// is read twice, and none that carries no entry again and again.
    pub fn deliveries(&mut self, records: Vec<StreamRecord>) -> (handed: Vec<Delivery>)
        ensures
            final(self).name() == old(self).name(),
            handed@.len() == if leading_decodable(records@) < records@.len() {
                leading_decodable(records@) + 1
            } else {
                records@.len()
            },
            forall|i: int|
                0 <= i < leading_decodable(records@) ==> (#[trigger] handed@[i] matches Ok(entry)
                    && entry@ == records@[i].entry(old(self).name())),
            leading_decodable(records@) < records@.len() ==> (handed@[leading_decodable(
                records@,
            ) as int] matches Err(error) && error is DataFormat),
            final(self).last_id() == if handed@.len() > 0 {
                records@[handed@.len() - 1].id@
            } else {
                old(self).last_id()
            },
    {
        let mut handed: Vec<Delivery> = Vec::new();
        let ghost all = records@;
        assert(all.take(0).len() == 0);
        for stream_id in it: records.into_iter()
            invariant
                it.seq() == all,
                all == records@,
                self.name == old(self).name,
                leading_decodable(all.take(it.index() as int)) == it.index(),
                handed@.len() == it.index(),
                forall|i: int|
                    0 <= i < it.index() ==> (#[trigger] handed@[i] matches Ok(entry) && entry@
                        == all[i].entry(old(self).name())),
                self.last_id@ == if it.index() > 0 {
                    all[it.index() - 1].id@
                } else {
                    old(self).last_id()
                },
        {
            let ghost at = it.index() as int;
            proof {
                assert(all.take(at + 1).drop_last() =~= all.take(at));
                assert(all.take(at + 1).last() == stream_id);
            }
            match entry_from_stream_id(&stream_id, self.name.as_str()) {
                Ok(entry) => {
                    handed.push(Ok(entry));
                    self.last_id = stream_id.id;
                },
                Err(error) => {
                    handed.push(Err(error));
                    self.last_id = stream_id.id;
                    proof {
                        lemma_leading_decodable_stops(all, at);
                    }
                    return handed;
                },
            }
        }
        proof {
            assert(all.take(all.len() as int) =~= all);
        }
        handed
    }

    /// Whether the listener goes on after a read that failed: it does where
    /// the error could be handed out and the listener was not told to stop.
    pub fn continues_after_failure(error_delivered: bool, shutdown: bool) -> (goes_on: bool)
        ensures
            goes_on == (error_delivered && !shutdown),
    {
        error_delivered && !shutdown
    }

    /// Whether the listener goes on after a reply: it stops where something
    /// could not be handed out, and where the reply held no record and the
    /// listener was told to stop.
    pub fn continues_after_reply(
        records_in_reply: usize,
        all_delivered: bool,
        shutdown: bool,
    ) -> (goes_on: bool)
        ensures
            goes_on == (all_delivered && !(records_in_reply == 0 && shutdown)),
    {
        all_delivered && !(records_in_reply == 0 && shutdown)
    }
}

/// The count of leading records that carry an entry does not change behind
/// the first record that carries none.
pub proof fn lemma_leading_decodable_stops(records: Seq<StreamRecord>, bad: int)
    requires
        0 <= bad < records.len(),
        leading_decodable(records.take(bad)) == bad,
        !records[bad].decodable(),
    ensures
        leading_decodable(records) == bad,
    decreases records.len() - bad,
{
    lemma_leading_decodable_stays(records, bad, records.len() as int);
    assert(records.take(records.len() as int) =~= records);
}

proof fn lemma_leading_decodable_stays(records: Seq<StreamRecord>, bad: int, to: int)
    requires
        0 <= bad < to <= records.len(),
        leading_decodable(records.take(bad)) == bad,
        !records[bad].decodable(),
    ensures
        leading_decodable(records.take(to)) == bad,
    decreases to - bad,
{
    let prefix = records.take(to);
    assert(prefix.drop_last() =~= records.take(to - 1));
    assert(prefix.last() == records[to - 1]);
    if to - 1 > bad {
        lemma_leading_decodable_stays(records, bad, to - 1);
    }
}

/// Whether `record` is what the stream holds for a push of `entry`: its two
/// fields are those of the append that pushes the entry.
pub open spec fn carries(record: StreamRecord, entry: EntryView) -> bool {
    &&& i64::MIN <= entry.timestamp <= i64::MAX
    &&& record.timestamp matches Some(timestamp)
    &&& timestamp@ == timestamp_bytes(entry.timestamp as i64)
    &&& record.value matches Some(value)
    &&& value@ == entry.value
}

/// A listener hands out what was pushed, as the in-memory engine does:
/// where the records of a reply are what the stream holds for entries
/// pushed under the listener's name, one record for each in the order of
/// the pushes, every record carries its entry as it was pushed, so that the
/// listener hands out these entries, all of them, in that order.
pub proof fn lemma_records_of_pushes_carry_them(
    records: Seq<StreamRecord>,
    entries: Seq<EntryView>,
    name: Seq<char>,
)
    requires
        records.len() == entries.len(),
        forall|i: int|
            0 <= i < records.len() ==> carries(#[trigger] records[i], entries[i]) && entries[i].name
                == name,
    ensures
        leading_decodable(records) == records.len(),
        forall|i: int| 0 <= i < records.len() ==> (#[trigger] records[i]).entry(name) == entries[i],
    decreases records.len(),
{
    if records.len() > 0 {
        let last = records.len() - 1;
        lemma_records_of_pushes_carry_them(records.drop_last(), entries.drop_last(), name);
        assert(carries(records[last], entries[last]));
        lemma_timestamp_round_trip(entries[last].timestamp as i64);
        assert forall|i: int| 0 <= i < records.len() implies (#[trigger] records[i]).entry(name)
            == entries[i] by {
            assert(carries(records[i], entries[i]));
            lemma_timestamp_round_trip(entries[i].timestamp as i64);
        }
    }
}

/// The stream listener hands out what the in-memory listener does: let a
/// listener subscribe to a name, and entries be pushed. Where the stream
/// then holds, for the entries under that name, one record each in the
/// order of the pushes, the listener on the stream finds an entry in every
/// record, and these are, one by one and in that order, the entries that
/// wait for the in-memory listener: those pushed under its name since it
/// subscribed, each once.
pub proof fn lemma_stream_listener_matches_memory_listener(
    subscribers: Seq<SubscriberView>,
    listener: SubscriberView,
    entries: Seq<EntryView>,
    records: Seq<StreamRecord>,
)
    requires
        distinct_ids(subscribers),
        !registered(subscribers, listener.id),
        listener.alive,
        listener.pending.len() == 0,
        records.len() == entries.filter(named(listener.name)).len(),
        forall|i: int|
            0 <= i < records.len() ==> carries(
                #[trigger] records[i],
                entries.filter(named(listener.name))[i],
            ),
    ensures
        leading_decodable(records) == records.len(),
        pending_of(notified_all(subscribers.push(listener), entries), listener.id).len()
            == records.len(),
        forall|i: int|
            0 <= i < records.len() ==> (#[trigger] records[i]).entry(listener.name) == pending_of(
                notified_all(subscribers.push(listener), entries),
                listener.id,
            )[i],
{
    let registry = subscribers.push(listener);
    let under = entries.filter(named(listener.name));
    lemma_new_listener_waits_for_nothing(subscribers, listener);
    let at = index_of(registry, listener.id);
    if at < subscribers.len() {
        assert(subscribers[at].id == listener.id);
    }
    assert(registry[at] == listener);
    lemma_listener_receives_in_push_order(registry, entries, listener.id);
    assert(pending_of(registry, listener.id) + under =~= under);
    assert forall|i: int| 0 <= i < records.len() implies carries(
        #[trigger] records[i],
        under[i],
    ) && under[i].name == listener.name by {
        entries.lemma_filter_pred(named(listener.name), i);
    }
    lemma_records_of_pushes_carry_them(records, under, listener.name);
}

} // verus!
