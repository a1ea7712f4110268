//! Compaction of the durable log: the aged entries of one name are folded
//! into runs, and each run is kept as one compressed block in place of its
//! rows. What a reader sees does not change by it.

use vstd::prelude::*;
use vstd::bytes::{
    lemma_auto_spec_u64_to_from_le_bytes, spec_u64_from_le_bytes, spec_u64_to_le_bytes,
    u64_from_le_bytes, u64_to_le_bytes,
};
use vstd::slice::{slice_subrange, slice_to_vec};
use vstd::string::StringExecFns;
use std::collections::VecDeque;
use crate::entry::{Entry, EntryView};
use crate::errors::Error;
use crate::model::{entry_views, select, RangeView};
use crate::model::without;
use crate::stores::sqlite::{
    compress, decompress, zstd_compressed, zstd_decompressed, SqliteRange,
};
use crate::wire::{
    lemma_timestamp_round_trip, read_timestamp, timestamp_bytes, timestamp_from, write_timestamp,
};

verus! {

/// One entry of a name that is being compacted: its timestamp and payload.
#[derive(Debug, PartialEq, Eq)]
pub struct Sample {
    pub timestamp: i64,
    pub value: Vec<u8>,
}

/// A sample as a mathematical value.
pub struct SampleView {
    pub timestamp: i64,
    pub value: Seq<u8>,
}

impl View for Sample {
    type V = SampleView;

    open spec fn view(&self) -> SampleView {
        SampleView { timestamp: self.timestamp, value: self.value@ }
    }
}

/// Samples as mathematical values.
pub open spec fn sample_views(samples: Seq<Sample>) -> Seq<SampleView> {
    samples.map_values(|sample: Sample| sample@)
}

/// The bytes of one sample in a bundle: its timestamp in eight bytes, the
/// length of its payload in eight bytes, both least significant byte first,
/// then the payload.
pub open spec fn encoded(sample: SampleView) -> Seq<u8> {
    timestamp_bytes(sample.timestamp) + spec_u64_to_le_bytes(sample.value.len() as u64)
        + sample.value
}

/// The bytes of a bundle: those of its samples, one after the other.
pub open spec fn serialized(samples: Seq<SampleView>) -> Seq<u8>
    decreases samples.len(),
{
    if samples.len() == 0 {
        Seq::empty()
    } else {
        serialized(samples.drop_last()) + encoded(samples.last())
    }
}

/// The samples that the bytes of a bundle hold, or nothing where the bytes
/// are no bundle: where they end within a sample.
pub open spec fn parsed(bytes: Seq<u8>) -> Option<Seq<SampleView>>
    decreases bytes.len(),
{
    if bytes.len() == 0 {
        Some(Seq::empty())
    } else if bytes.len() < 16 {
        None
    } else {
        let length = spec_u64_from_le_bytes(bytes.subrange(8, 16));
        if length > bytes.len() - 16 {
            None
        } else {
            let first = SampleView {
                timestamp: timestamp_from(bytes),
                value: bytes.subrange(16, 16 + length),
            };
            match parsed(bytes.skip(16 + length)) {
                Some(rest) => Some(seq![first] + rest),
                None => None,
            }
        }
    }
}

/// What is parsed in all, given what was parsed so far and what the rest
/// of the bytes gives.
pub open spec fn continued(front: Seq<SampleView>, rest: Option<Seq<SampleView>>) -> Option<
    Seq<SampleView>,
> {
    match rest {
        Some(rest) => Some(front + rest),
        None => None,
    }
}

/// The bytes of the bundle that holds `samples`.
pub fn serialize(samples: &[Sample]) -> (bytes: Vec<u8>)
    ensures
        bytes@ == serialized(sample_views(samples@)),
{
    let ghost views = sample_views(samples@);
    let mut bytes: Vec<u8> = Vec::new();
    let mut at: usize = 0;
    while at < samples.len()
        invariant
            at <= samples.len(),
            views == sample_views(samples@),
            bytes@ == serialized(views.take(at as int)),
        decreases samples.len() - at,
    {
        let ghost before = bytes@;
        let sample = &samples[at];
        let mut stamp = write_timestamp(sample.timestamp);
        let mut length = u64_to_le_bytes(sample.value.len() as u64);
        bytes.append(&mut stamp);
        bytes.append(&mut length);
        bytes.extend_from_slice(sample.value.as_slice());
        proof {
            assert(views.take(at + 1).drop_last() =~= views.take(at as int));
            assert(views.take(at + 1).last() == sample@);
            assert(bytes@ =~= before + encoded(sample@));
        }
        at += 1;
    }
    proof {
        assert(views.take(samples.len() as int) =~= views);
    }
    bytes
}

/// The samples that the bytes of a bundle hold, or `DataFormat` where the
/// bytes are no bundle.
pub fn deserialize(bytes: &[u8]) -> (samples: Result<Vec<Sample>, Error>)
    ensures
        match parsed(bytes@) {
            Some(held) => samples matches Ok(samples) && sample_views(samples@) == held,
            None => samples matches Err(error) && error is DataFormat,
        },
{
    let mut samples: Vec<Sample> = Vec::new();
    let mut at: usize = 0;
    proof {
        assert(bytes@.skip(0) =~= bytes@);
        assert(sample_views(samples@) =~= Seq::<SampleView>::empty());
        assert(Seq::<SampleView>::empty() + parsed(bytes@)->0 =~= parsed(bytes@)->0);
    }
    while at < bytes.len()
        invariant
            at <= bytes.len(),
            parsed(bytes@) == continued(sample_views(samples@), parsed(bytes@.skip(at as int))),
        decreases bytes.len() - at,
    {
        let ghost rest = bytes@.skip(at as int);
        let ghost front = sample_views(samples@);
        if bytes.len() - at < 16 {
            return Err(Error::DataFormat);
        }
        let timestamp = read_timestamp(slice_subrange(bytes, at, at + 8));
        let length = u64_from_le_bytes(slice_subrange(bytes, at + 8, at + 16));
        proof {
            assert(bytes@.subrange(at as int, at + 8).subrange(0, 8) =~= rest.subrange(0, 8));
            assert(bytes@.subrange(at + 8, at + 16) =~= rest.subrange(8, 16));
        }
        if length > (bytes.len() - at - 16) as u64 {
            return Err(Error::DataFormat);
        }
        let end: usize = at + 16 + length as usize;
        let value = slice_to_vec(slice_subrange(bytes, at + 16, end));
        let sample = Sample { timestamp, value };
        proof {
            assert(sample@.value =~= rest.subrange(16, 16 + length));
            assert(rest.skip(16 + length) =~= bytes@.skip(end as int));
            assert(sample_views(samples@.push(sample)) =~= front.push(sample@));
            let tail = parsed(bytes@.skip(end as int));
            if tail is Some {
                assert(front + (seq![sample@] + tail->0) =~= front.push(sample@) + tail->0);
            }
        }
        samples.push(sample);
        at = end;
    }
    proof {
        assert(bytes@.skip(at as int).len() == 0);
        assert(sample_views(samples@) + Seq::<SampleView>::empty() =~= sample_views(samples@));
    }
    Ok(samples)
}

/// A bundle starts with the bytes of its first sample.
pub proof fn lemma_serialized_front(samples: Seq<SampleView>)
    requires
        samples.len() > 0,
    ensures
        serialized(samples) == encoded(samples[0]) + serialized(samples.skip(1)),
    decreases samples.len(),
{
    if samples.len() == 1 {
        assert(samples.drop_last().len() == 0);
        assert(samples.skip(1).len() == 0);
        assert(serialized(samples.drop_last()) =~= Seq::<u8>::empty());
        assert(serialized(samples.skip(1)) =~= Seq::<u8>::empty());
        assert(samples.last() == samples[0]);
        assert(serialized(samples) =~= encoded(samples[0]));
        assert(encoded(samples[0]) + serialized(samples.skip(1)) =~= encoded(samples[0]));
    } else {
        let rest = samples.drop_last();
        lemma_serialized_front(rest);
        assert(rest.skip(1) =~= samples.skip(1).drop_last());
        assert(samples.skip(1).last() == samples.last());
        assert(rest[0] == samples[0]);
        assert(serialized(samples) =~= encoded(samples[0]) + (serialized(rest.skip(1)) + encoded(
            samples.last(),
        )));
    }
}

/// The bytes of a bundle hold the samples that were written to it: the
/// samples are read back as they were, in their order.
pub proof fn lemma_bundle_round_trip(samples: Seq<SampleView>)
    requires
        forall|i: int| 0 <= i < samples.len() ==> (#[trigger] samples[i]).value.len() <= u64::MAX,
    ensures
        parsed(serialized(samples)) == Some(samples),
    decreases samples.len(),
{
    if samples.len() > 0 {
        lemma_serialized_front(samples);
        let first = samples[0];
        let rest = samples.skip(1);
        let bytes = serialized(samples);
        let stamp = timestamp_bytes(first.timestamp);
        let length = spec_u64_to_le_bytes(first.value.len() as u64);
        lemma_timestamp_round_trip(first.timestamp);
        lemma_auto_spec_u64_to_from_le_bytes();
        assert(length.len() == 8);
        assert(bytes.subrange(0, 8) =~= stamp);
        assert(stamp.subrange(0, 8) =~= stamp);
        assert(bytes.subrange(8, 16) =~= length);
        assert(spec_u64_from_le_bytes(length) == first.value.len());
        assert(bytes.subrange(16, 16 + first.value.len() as int) =~= first.value);
        assert(bytes.skip(16 + first.value.len() as int) =~= serialized(rest));
        assert forall|i: int| 0 <= i < rest.len() implies (#[trigger] rest[i]).value.len()
            <= u64::MAX by {
            assert(rest[i] == samples[i + 1]);
        }
        lemma_bundle_round_trip(rest);
        assert(seq![first] + rest =~= samples);
    }
}

/// The entries that samples of one name stand for.
pub open spec fn sample_entries(samples: Seq<SampleView>, name: Seq<char>) -> Seq<EntryView> {
    samples.map_values(
        |sample: SampleView|
            EntryView { timestamp: sample.timestamp as int, name, value: sample.value },
    )
}

/// One row of the compacted log: a run of entries of one name as one
/// compressed bundle, with the timestamps of its first and last entry, the
/// number of its entries and the length of the bundle before compression.
#[derive(Debug, PartialEq, Eq)]
pub struct CompactedBlock {
    pub name: String,
    pub start_ts: i64,
    pub end_ts: i64,
    pub count: usize,
    pub size: usize,
    pub blob: Vec<u8>,
}

/// Whether timestamps do not fall along a sequence of samples.
pub open spec fn ascending_samples(samples: Seq<SampleView>) -> bool {
    forall|i: int, j: int|
        0 <= i <= j < samples.len() ==> (#[trigger] samples[i]).timestamp <= (
        #[trigger] samples[j]).timestamp
}

/// Whether samples are a run from `start_ts` to `end_ts`: their timestamps
/// do not fall, the first has `start_ts` and the last `end_ts`.
pub open spec fn spans(samples: Seq<SampleView>, start_ts: i64, end_ts: i64) -> bool {
    &&& ascending_samples(samples)
    &&& samples.len() > 0 ==> samples[0].timestamp == start_ts && samples[samples.len()
        - 1].timestamp == end_ts
}

impl CompactedBlock {
    /// The samples that the block holds: what its blob decompresses to,
    /// read as a bundle, where that gives as many samples as the block
    /// counts, in the order of their timestamps, from the block's first
    /// timestamp to its last. Nothing where the block is damaged.
    pub open spec fn content(&self) -> Option<Seq<SampleView>> {
        if self.size > isize::MAX {
            None
        } else {
            match zstd_decompressed(self.blob@, self.size as nat) {
                Some(bytes) => match parsed(bytes) {
                    Some(samples) if samples.len() == self.count && spans(
                        samples,
                        self.start_ts,
                        self.end_ts,
                    ) => Some(samples),
                    _ => None,
                },
                None => None,
            }
        }
    }

    /// The range of a block covers its entries: each of them has a
    /// timestamp from the block's first to its last.
    pub proof fn lemma_range_covers_content(&self)
        requires
            self.content() is Some,
        ensures
            forall|i: int|
                0 <= i < self.content()->0.len() ==> self.start_ts <= (
                #[trigger] self.content()->0[i]).timestamp <= self.end_ts,
    {
        let samples = self.content()->0;
        assert forall|i: int| 0 <= i < samples.len() implies self.start_ts <= (
        #[trigger] samples[i]).timestamp <= self.end_ts by {
            assert(samples[0].timestamp <= samples[i].timestamp);
            assert(samples[i].timestamp <= samples[samples.len() - 1].timestamp);
        }
    }
}

/// Whether the timestamps of `samples` do not fall.
pub fn is_ascending(samples: &[Sample]) -> (ascends: bool)
    ensures
        ascends == ascending_samples(sample_views(samples@)),
{
    let ghost views = sample_views(samples@);
    if samples.len() == 0 {
        return true;
    }
    let mut at: usize = 1;
    while at < samples.len()
        invariant
            1 <= at <= samples.len(),
            views == sample_views(samples@),
            ascending_samples(views.take(at as int)),
        decreases samples.len() - at,
    {
        if samples[at - 1].timestamp > samples[at].timestamp {
            proof {
                assert(views[at - 1] == samples@[at - 1]@ && views[at as int] == samples@[at as int]@);
            }
            return false;
        }
        proof {
            let longer = views.take(at + 1);
            assert forall|i: int, j: int| 0 <= i <= j < longer.len() implies (#[trigger] longer[i])
                .timestamp <= (#[trigger] longer[j]).timestamp by {
                let shorter = views.take(at as int);
                assert(views[at - 1] == samples@[at - 1]@ && views[at as int] == samples@[at as int]@);
                if j < at {
                    assert(shorter[i] == longer[i] && shorter[j] == longer[j]);
                } else if i < at {
                    assert(shorter[i] == longer[i] && shorter[at - 1] == views[at - 1]);
                    assert(shorter[i].timestamp <= shorter[at - 1].timestamp);
                }
            }
        }
        at += 1;
    }
    proof {
        assert(views.take(samples.len() as int) =~= views);
    }
    true
}

/// The samples of several blocks, one block after the other.
pub open spec fn block_samples(blocks: Seq<CompactedBlock>) -> Seq<SampleView>
    decreases blocks.len(),
{
    if blocks.len() == 0 {
        Seq::empty()
    } else {
        block_samples(blocks.drop_last()) + blocks.last().content()->0
    }
}

/// The block that holds a run of samples of `name`, compressed at `level`.
/// The samples are a run: at least one, in the order of their timestamps.
/// It fails with `Io` where the compressor fails, and with `Database` where
/// the bundle is longer than any vector.
pub fn compact_run(name: &str, samples: &[Sample], level: i32) -> (packed: Result<
    CompactedBlock,
    Error,
>)
    requires
        samples@.len() > 0,
        ascending_samples(sample_views(samples@)),
    ensures
        packed matches Ok(block) ==> {
            &&& block.name@ == name@
            &&& block.start_ts == samples@[0].timestamp
            &&& block.end_ts == samples@[samples@.len() - 1].timestamp
            &&& block.count == samples@.len()
            &&& block.size == serialized(sample_views(samples@)).len()
            &&& block.blob@ == zstd_compressed(serialized(sample_views(samples@)), level as int)
            &&& block.content() == Some(sample_views(samples@))
            &&& forall|i: int|
                0 <= i < samples@.len() ==> block.start_ts <= (#[trigger] samples@[i]).timestamp
                    <= block.end_ts
        },
        packed matches Err(error) ==> error is Io || (error is Database && serialized(
            sample_views(samples@),
        ).len() > isize::MAX),
{
    let bundle = serialize(samples);
    if bundle.len() > isize::MAX as usize {
        return Err(Error::Database(String::from_str("the run is too long to be stored")));
    }
    proof {
        let views = sample_views(samples@);
        assert(views[0] == samples@[0]@);
        assert(views[views.len() - 1] == samples@[samples@.len() - 1]@);
        assert forall|i: int| 0 <= i < samples@.len() implies samples@[0].timestamp <= (
        #[trigger] samples@[i]).timestamp <= samples@[samples@.len() - 1].timestamp by {
            assert(views[i] == samples@[i]@);
            assert(views[0].timestamp <= views[i].timestamp);
            assert(views[i].timestamp <= views[views.len() - 1].timestamp);
        }
    }
    proof {
        let views = sample_views(samples@);
        lemma_serialized_front(views);
        lemma_timestamp_round_trip(views[0].timestamp);
        assert(bundle@.len() >= 8);
        assert forall|i: int| 0 <= i < views.len() implies (#[trigger] views[i]).value.len()
            <= u64::MAX by {
            assert(views[i].value == samples@[i].value@);
            assert(samples@[i].value.len() <= usize::MAX);
        }
        lemma_bundle_round_trip(views);
    }
    match compress(bundle.as_slice(), level) {
        Ok(blob) => Ok(
            CompactedBlock {
                name: String::from_str(name),
                start_ts: samples[0].timestamp,
                end_ts: samples[samples.len() - 1].timestamp,
                count: samples.len(),
                size: bundle.len(),
                blob,
            },
        ),
        Err(err) => Err(Error::Io(err)),
    }
}

/// The entries that a block holds, in their order; `DataFormat` where the
/// block is damaged: where its blob is no bundle of the size that the block
/// records, or the bundle does not hold what the block says of it.
pub fn explode(block: &CompactedBlock) -> (exploded: Result<Vec<Entry>, Error>)
    ensures
        match block.content() {
            Some(samples) => exploded matches Ok(entries) && entry_views(entries@)
                == sample_entries(samples, block.name@),
            None => exploded matches Err(error) && error is DataFormat,
        },
{
    if block.size > isize::MAX as usize {
        return Err(Error::DataFormat);
    }
    let bundle = match decompress(block.blob.as_slice(), block.size) {
        Ok(bundle) => bundle,
        Err(_) => {
            return Err(Error::DataFormat);
        },
    };
    let samples = match deserialize(bundle.as_slice()) {
        Ok(samples) => samples,
        Err(error) => {
            return Err(error);
        },
    };
    if samples.len() != block.count || !is_ascending(samples.as_slice()) {
        return Err(Error::DataFormat);
    }
    if samples.len() > 0 && (samples[0].timestamp != block.start_ts || samples[samples.len()
        - 1].timestamp != block.end_ts) {
        proof {
            let views = sample_views(samples@);
            assert(views[0] == samples@[0]@);
            assert(views[views.len() - 1] == samples@[samples@.len() - 1]@);
        }
        return Err(Error::DataFormat);
    }
    proof {
        let views = sample_views(samples@);
        if views.len() > 0 {
            assert(views[0] == samples@[0]@);
            assert(views[views.len() - 1] == samples@[samples@.len() - 1]@);
        }
    }
    let ghost held = sample_views(samples@);
    let ghost all = samples@;
    let mut entries: Vec<Entry> = Vec::new();
    for sample in it: samples.into_iter()
        invariant
            it.seq() == all,
            held == sample_views(all),
            entry_views(entries@) == sample_entries(held.take(it.index() as int), block.name@),
    {
        let ghost at = it.index() as int;
        let entry = Entry {
            timestamp: sample.timestamp,
            name: block.name.clone(),
            value: sample.value,
        };
        proof {
            assert(held[at] == sample@);
            let so_far = sample_entries(held.take(at), block.name@);
            let with_next = sample_entries(held.take(at + 1), block.name@);
            assert(held.take(at + 1) =~= held.take(at).push(held[at]));
            assert(with_next =~= so_far.push(entry@));
            assert(entry_views(entries@.push(entry)) =~= entry_views(entries@).push(entry@));
        }
        entries.push(entry);
    }
    proof {
        assert(held.take(held.len() as int) =~= held);
    }
    Ok(entries)
}

/// The samples of entries: their timestamps and payloads.
fn samples_of(entries: Vec<Entry>) -> (samples: Vec<Sample>)
    ensures
        samples@.len() == entries@.len(),
        forall|i: int|
            0 <= i < samples@.len() ==> (#[trigger] samples@[i]).timestamp == entries@[i].timestamp
                && samples@[i].value@ == entries@[i].value@,
{
    let ghost all = entries@;
    let mut samples: Vec<Sample> = Vec::new();
    for entry in it: entries.into_iter()
        invariant
            it.seq() == all,
            all == entries@,
            samples@.len() == it.index(),
            forall|i: int|
                0 <= i < samples@.len() ==> (#[trigger] samples@[i]).timestamp == all[i].timestamp
                    && samples@[i].value@ == all[i].value@,
    {
        samples.push(Sample { timestamp: entry.timestamp, value: entry.value });
    }
    samples
}

/// What a removal leaves of a block: the block of the entries that the
/// range does not select, or none where it selects them all. A block that
/// is damaged gives `DataFormat`; making the new block fails where
/// `compact_run` does.
pub fn remove_from_block(block: &CompactedBlock, range: &SqliteRange, level: i32) -> (left: Result<
    Option<CompactedBlock>,
    Error,
>)
    ensures
        match block.content() {
            None => left matches Err(error) && error is DataFormat,
            Some(samples) => {
                let kept = without(sample_entries(samples, block.name@), range@);
                match left {
                    Ok(None) => kept.len() == 0,
                    Ok(Some(next)) => {
                        &&& kept.len() > 0
                        &&& next.name@ == block.name@
                        &&& next.content() matches Some(held)
                        &&& sample_entries(held, next.name@) == kept
                    },
                    Err(error) => kept.len() > 0 && (error is Io || error is Database),
                }
            },
        },
{
    let entries = match explode(block) {
        Ok(entries) => entries,
        Err(error) => {
            return Err(error);
        },
    };
    let ghost before = entry_views(entries@);
    let stay = range.rejected(entries);
    let ghost kept = entry_views(stay@);
    if stay.len() == 0 {
        return Ok(None);
    }
    let samples = samples_of(stay);
    proof {
        let held = block.content()->0;
        let views = sample_views(samples@);
        assert forall|i: int, j: int| 0 <= i <= j < before.len() implies (#[trigger] before[i])
            .timestamp <= (#[trigger] before[j]).timestamp by {
            assert(held[i].timestamp <= held[j].timestamp);
        }
        lemma_filter_keeps_ascending(before, range@.rejector());
        assert forall|i: int, j: int| 0 <= i <= j < views.len() implies (#[trigger] views[i])
            .timestamp <= (#[trigger] views[j]).timestamp by {
            assert(views[i] == samples@[i]@ && views[j] == samples@[j]@);
            assert(kept[i].timestamp <= kept[j].timestamp);
        }
        assert forall|i: int| 0 <= i < kept.len() implies (#[trigger] kept[i]).name
            == block.name@ by {
            assert(kept.contains(kept[i]));
            before.lemma_filter_contains_rev(range@.rejector(), kept[i]);
            let m = choose|m: int| 0 <= m < before.len() && before[m] == kept[i];
            assert(before[m].name == block.name@);
        }
        assert(sample_entries(views, block.name@) =~= kept) by {
            assert forall|i: int| 0 <= i < kept.len() implies sample_entries(
                views,
                block.name@,
            )[i] == kept[i] by {
                assert(views[i] == samples@[i]@);
                assert(kept[i].name == block.name@);
            }
        }
    }
    match compact_run(block.name.as_str(), samples.as_slice(), level) {
        Ok(next) => Ok(Some(next)),
        Err(error) => Err(error),
    }
}

/// The payload bytes of the samples from `start` up to `end`.
pub open spec fn run_size(samples: Seq<SampleView>, start: int, end: int) -> int
    decreases end - start,
{
    if end <= start {
        0
    } else {
        run_size(samples, start, end - 1) + samples[end - 1].value.len()
    }
}

/// How many samples at the start of `samples` are older than the retention
/// window at the time `now`.
pub open spec fn leading_aged(policy: CompactionPolicy, samples: Seq<SampleView>, now: i64) -> nat
    decreases samples.len(),
{
    if samples.len() == 0 {
        0
    } else if leading_aged(policy, samples.drop_last(), now) < samples.len() - 1 {
        leading_aged(policy, samples.drop_last(), now)
    } else if policy.aged(samples.last().timestamp, now) {
        samples.len()
    } else {
        (samples.len() - 1) as nat
    }
}

/// When entries are compacted, and how large a run may grow.
#[derive(Clone, Copy, Debug, PartialEq, Eq)]
pub struct CompactionPolicy {
    /// How many microseconds an entry is left alone after its timestamp.
    pub retention: u64,
    /// How many payload bytes a run of more than one entry holds at most.
    pub max_run_size: usize,
    /// How many microseconds lie at most between the first entry of a run
    /// and any other.
    pub max_run_span: u64,
}

impl CompactionPolicy {
    /// Whether an entry with this timestamp is older than the retention
    /// window at the time `now`.
    pub open spec fn aged(&self, timestamp: i64, now: i64) -> bool {
        timestamp + self.retention < now
    }

    /// Whether an entry with this timestamp is older than the retention
    /// window at the time `now`.
    pub fn is_aged(&self, timestamp: i64, now: i64) -> (aged: bool)
        ensures
            aged == self.aged(timestamp, now),
    {
        (timestamp as i128) + (self.retention as i128) < now as i128
    }

    /// Whether the run that starts at `start` and reaches up to `end` takes
    /// the sample at `end` as well: with it, the run stays within the size
    /// and the span that the policy allows.
    pub open spec fn takes(&self, samples: Seq<SampleView>, start: int, end: int) -> bool {
        &&& run_size(samples, start, end) + samples[end].value.len() <= self.max_run_size
        &&& samples[end].timestamp - samples[start].timestamp <= self.max_run_span
    }

    /// Where the runs end, from the run on that starts at `start` and
    /// reaches up to `end`: each run takes the samples that follow it as
    /// long as it may, and the next run starts where it stops.
    pub open spec fn cuts_from(&self, samples: Seq<SampleView>, start: int, end: int) -> Seq<int>
        decreases samples.len() - end,
    {
        if end >= samples.len() {
            seq![samples.len() as int]
        } else if self.takes(samples, start, end) {
            self.cuts_from(samples, start, end + 1)
        } else {
            seq![end] + self.cuts_from(samples, end, end + 1)
        }
    }

    /// Where the runs of `samples` end: none for no samples.
    pub open spec fn cuts(&self, samples: Seq<SampleView>) -> Seq<int> {
        if samples.len() == 0 {
            Seq::empty()
        } else {
            self.cuts_from(samples, 0, 1)
        }
    }

    /// How many samples at the start of `samples` are older than the
    /// retention window.
    pub fn aged_prefix(&self, samples: &[Sample], now: i64) -> (count: usize)
        ensures
            count == leading_aged(*self, sample_views(samples@), now),
            count <= samples@.len(),
    {
        let ghost views = sample_views(samples@);
        let mut count: usize = 0;
        assert(views.take(0).len() == 0);
        while count < samples.len()
            invariant
                count <= samples.len(),
                views == sample_views(samples@),
                leading_aged(*self, views.take(count as int), now) == count,
            decreases samples.len() - count,
        {
            proof {
                assert(views.take(count + 1).drop_last() =~= views.take(count as int));
                assert(views.take(count + 1).last() == samples@[count as int]@);
            }
            if !self.is_aged(samples[count].timestamp, now) {
                proof {
                    lemma_leading_aged_stops(*self, views, now, count as int);
                }
                return count;
            }
            count += 1;
        }
        proof {
            assert(views.take(samples.len() as int) =~= views);
        }
        count
    }

    /// Folds samples into runs, and gives the index behind each run.
    pub fn fold_runs(&self, samples: &[Sample]) -> (cuts: Vec<usize>)
        ensures
            cuts@.map_values(|cut: usize| cut as int) == self.cuts(sample_views(samples@)),
            cuts@.len() > 0 <==> samples@.len() > 0,
            forall|k: int| 0 <= k < cuts@.len() ==> 0 < #[trigger] cuts@[k] <= samples@.len(),
            forall|j: int, k: int| 0 <= j < k < cuts@.len() ==> cuts@[j] < cuts@[k],
            cuts@.len() > 0 ==> cuts@[cuts@.len() - 1] == samples@.len(),
    {
        let ghost views = sample_views(samples@);
        let ghost as_int = |cut: usize| cut as int;
        let mut cuts: Vec<usize> = Vec::new();
        if samples.len() == 0 {
            assert(cuts@.map_values(as_int) =~= self.cuts(views));
            return cuts;
        }
        let mut start: usize = 0;
        let mut end: usize = 1;
        let mut size: usize = samples[0].value.len();
        proof {
            assert(run_size(views, 0, 0) == 0);
            assert(cuts@.map_values(as_int) + self.cuts_from(views, 0, 1) =~= self.cuts(views));
        }
        while end < samples.len()
            invariant
                start < end <= samples.len(),
                views == sample_views(samples@),
                as_int == |cut: usize| cut as int,
                size == run_size(views, start as int, end as int),
                self.cuts(views) == cuts@.map_values(as_int) + self.cuts_from(
                    views,
                    start as int,
                    end as int,
                ),
                forall|k: int| 0 <= k < cuts@.len() ==> 0 < #[trigger] cuts@[k] <= start,
                forall|j: int, k: int| 0 <= j < k < cuts@.len() ==> cuts@[j] < cuts@[k],
            decreases samples.len() - end,
        {
            let next = samples[end].value.len();
            let fits = next <= self.max_run_size && size <= self.max_run_size - next;
            let span = (samples[end].timestamp as i128) - (samples[start].timestamp as i128);
            proof {
                assert(views[end as int] == samples@[end as int]@);
                assert(views[start as int] == samples@[start as int]@);
                assert(run_size(views, start as int, end + 1) == run_size(
                    views,
                    start as int,
                    end as int,
                ) + views[end as int].value.len());
            }
            if fits && span <= self.max_run_span as i128 {
                size = size + next;
            } else {
                proof {
                    let before = cuts@.map_values(as_int);
                    assert(cuts@.push(end).map_values(as_int) =~= before.push(end as int));
                    assert(before + (seq![end as int] + self.cuts_from(views, end as int, end + 1))
                        =~= before.push(end as int) + self.cuts_from(views, end as int, end + 1));
                    assert(run_size(views, end as int, end as int) == 0);
                }
                cuts.push(end);
                start = end;
                size = next;
            }
            end += 1;
        }
        proof {
            let before = cuts@.map_values(as_int);
            assert(cuts@.push(samples.len()).map_values(as_int) =~= before.push(
                samples.len() as int,
            ));
            assert(before + seq![samples.len() as int] =~= before.push(samples.len() as int));
        }
        cuts.push(samples.len());
        cuts
    }

    /// Compacts the aged entries of one name: those at the start of
    /// `samples` that are older than the retention window are folded into
    /// runs, and each run becomes one block. The blocks hold those entries,
    /// all of them, in their order, and each block ends no later than the
    /// next begins. The samples are in the order of their timestamps. Where
    /// no entry is aged there is nothing to compress, and no block is made;
    /// else it fails with `Io` where the compressor fails, and with
    /// `Database` where a run is longer than any vector.
    pub fn compact(&self, name: &str, samples: &[Sample], now: i64, level: i32) -> (compacted:
        Result<Vec<CompactedBlock>, Error>)
        requires
            ascending_samples(sample_views(samples@)),
        ensures
            leading_aged(*self, sample_views(samples@), now) == 0 ==> compacted is Ok,
            compacted matches Ok(blocks) ==> {
                let aged = sample_views(samples@).take(
                    leading_aged(*self, sample_views(samples@), now) as int,
                );
                &&& blocks@.len() == self.cuts(aged).len()
                &&& block_samples(blocks@) == aged
                &&& forall|k: int|
                    0 <= k < blocks@.len() ==> {
                        let from = if k == 0 {
                            0
                        } else {
                            self.cuts(aged)[k - 1]
                        };
                        &&& (#[trigger] blocks@[k]).name@ == name@
                        &&& blocks@[k].content() == Some(aged.subrange(from, self.cuts(aged)[k]))
                        &&& blocks@[k].start_ts == aged[from].timestamp
                        &&& blocks@[k].end_ts == aged[self.cuts(aged)[k] - 1].timestamp
                    }
            },
            compacted matches Ok(blocks) ==> forall|k: int|
                0 <= k < blocks@.len() - 1 ==> (#[trigger] blocks@[k]).end_ts <= blocks@[k
                    + 1].start_ts,
            compacted matches Err(error) ==> error is Io || error is Database,
    {
        let count = self.aged_prefix(samples, now);
        let old = slice_subrange(samples, 0, count);
        let ghost aged = sample_views(samples@).take(count as int);
        proof {
            assert(sample_views(old@) =~= aged);
            assert forall|i: int, j: int| 0 <= i <= j < aged.len() implies (#[trigger] aged[i])
                .timestamp <= (#[trigger] aged[j]).timestamp by {
                assert(aged[i] == sample_views(samples@)[i] && aged[j] == sample_views(
                    samples@,
                )[j]);
            }
        }
        let cuts = self.fold_runs(old);
        let ghost ends = self.cuts(aged);
        let mut blocks: Vec<CompactedBlock> = Vec::new();
        let mut start: usize = 0;
        let mut at: usize = 0;
        proof {
            assert(aged.take(0) =~= Seq::<SampleView>::empty());
        }
        while at < cuts.len()
            invariant
                at <= cuts.len(),
                aged == sample_views(old@),
                ascending_samples(aged),
                old@.len() == leading_aged(*self, sample_views(samples@), now),
                cuts@.len() > 0 <==> old@.len() > 0,
                ends == self.cuts(aged),
                ends == cuts@.map_values(|cut: usize| cut as int),
                forall|k: int| 0 <= k < cuts@.len() ==> 0 < #[trigger] cuts@[k] <= old@.len(),
                forall|j: int, k: int| 0 <= j < k < cuts@.len() ==> cuts@[j] < cuts@[k],
                start == if at == 0 {
                    0
                } else {
                    cuts@[at - 1]
                },
                start <= old@.len(),
                blocks@.len() == at,
                block_samples(blocks@) == aged.take(start as int),
                forall|k: int|
                    0 <= k < at ==> {
                        let from = if k == 0 {
                            0
                        } else {
                            ends[k - 1]
                        };
                        &&& (#[trigger] blocks@[k]).name@ == name@
                        &&& blocks@[k].content() == Some(aged.subrange(from, ends[k]))
                        &&& blocks@[k].start_ts == aged[from].timestamp
                        &&& blocks@[k].end_ts == aged[ends[k] - 1].timestamp
                    },
            decreases cuts.len() - at,
        {
            let end = cuts[at];
            proof {
                assert(ends[at as int] == end);
                if at > 0 {
                    assert(cuts@[at - 1] < cuts@[at as int]);
                    assert(ends[at - 1] == start);
                }
            }
            let run = slice_subrange(old, start, end);
            proof {
                let part = sample_views(run@);
                assert(part =~= aged.subrange(start as int, end as int));
                assert forall|i: int, j: int| 0 <= i <= j < part.len() implies (#[trigger] part[i])
                    .timestamp <= (#[trigger] part[j]).timestamp by {
                    assert(part[i] == aged[start + i] && part[j] == aged[start + j]);
                }
            }
            let block = match compact_run(name, run, level) {
                Ok(block) => block,
                Err(error) => {
                    return Err(error);
                },
            };
            proof {
                assert(sample_views(run@) =~= aged.subrange(start as int, end as int));
                assert(blocks@.push(block).drop_last() =~= blocks@);
                assert(aged.take(start as int) + aged.subrange(start as int, end as int)
                    =~= aged.take(end as int));
                assert(aged.subrange(start as int, end as int)[0] == aged[start as int]);
                assert(aged.subrange(start as int, end as int)[end - start - 1] == aged[end - 1]);
            }
            blocks.push(block);
            start = end;
            at += 1;
        }
        proof {
            if cuts.len() > 0 {
                assert(aged.take(start as int) =~= aged);
            } else {
                assert(aged.len() == 0);
                assert(aged.take(0) =~= aged);
            }
            assert forall|k: int| 0 <= k < blocks@.len() - 1 implies (#[trigger] blocks@[k]).end_ts
                <= blocks@[k + 1].start_ts by {
                assert(blocks@[k + 1].start_ts == aged[ends[k]].timestamp);
                assert(cuts@[k] < cuts@[k + 1]);
                assert(ends[k] == cuts@[k] && ends[k + 1] == cuts@[k + 1]);
                assert(aged[ends[k] - 1].timestamp <= aged[ends[k]].timestamp);
            }
        }
        Ok(blocks)
    }
}

/// The count of leading aged samples does not change behind the first
/// sample that is not aged.
pub proof fn lemma_leading_aged_stops(
    policy: CompactionPolicy,
    samples: Seq<SampleView>,
    now: i64,
    fresh: int,
)
    requires
        0 <= fresh < samples.len(),
        leading_aged(policy, samples.take(fresh), now) == fresh,
        !policy.aged(samples[fresh].timestamp, now),
    ensures
        leading_aged(policy, samples, now) == fresh,
{
    lemma_leading_aged_stays(policy, samples, now, fresh, samples.len() as int);
    assert(samples.take(samples.len() as int) =~= samples);
}

proof fn lemma_leading_aged_stays(
    policy: CompactionPolicy,
    samples: Seq<SampleView>,
    now: i64,
    fresh: int,
    to: int,
)
    requires
        0 <= fresh < to <= samples.len(),
        leading_aged(policy, samples.take(fresh), now) == fresh,
        !policy.aged(samples[fresh].timestamp, now),
    ensures
        leading_aged(policy, samples.take(to), now) == fresh,
    decreases to - fresh,
{
    let prefix = samples.take(to);
    assert(prefix.drop_last() =~= samples.take(to - 1));
    assert(prefix.last() == samples[to - 1]);
    if to - 1 > fresh {
        lemma_leading_aged_stays(policy, samples, now, fresh, to - 1);
    }
}

/// What a reader makes of the entries from the compacted blocks and those
/// still in the log, each in the order of their timestamps: one sequence in
/// that order, in which of two entries with one timestamp the compacted
/// one comes first.
pub open spec fn merged(compacted: Seq<EntryView>, live: Seq<EntryView>) -> Seq<EntryView>
    decreases compacted.len() + live.len(),
{
    if compacted.len() == 0 {
        live
    } else if live.len() == 0 {
        compacted
    } else if compacted[0].timestamp <= live[0].timestamp {
        seq![compacted[0]] + merged(compacted.skip(1), live)
    } else {
        seq![live[0]] + merged(compacted, live.skip(1))
    }
}

/// Merges the entries from the compacted blocks with those still in the
/// log.
pub fn merge(compacted: VecDeque<Entry>, live: VecDeque<Entry>) -> (all: Vec<Entry>)
    ensures
        entry_views(all@) == merged(entry_views(compacted@), entry_views(live@)),
{
    let mut compacted = compacted;
    let mut live = live;
    let ghost whole = merged(entry_views(compacted@), entry_views(live@));
    let mut all: Vec<Entry> = Vec::new();
    proof {
        assert(entry_views(all@) + whole =~= whole);
    }
    while compacted.len() > 0 || live.len() > 0
        invariant
            whole == entry_views(all@) + merged(entry_views(compacted@), entry_views(live@)),
        decreases compacted.len() + live.len(),
    {
        let ghost done = entry_views(all@);
        let ghost left = entry_views(compacted@);
        let ghost right = entry_views(live@);
        let from_compacted = if compacted.len() == 0 {
            false
        } else if live.len() == 0 {
            true
        } else {
            compacted[0].timestamp <= live[0].timestamp
        };
        let next = if from_compacted {
            compacted.pop_front()
        } else {
            live.pop_front()
        };
        match next {
            Some(entry) => {
                proof {
                    assert(entry_views(all@.push(entry)) =~= done.push(entry@));
                    if from_compacted {
                        assert(entry_views(compacted@) =~= left.skip(1));
                        if right.len() == 0 {
                            assert(merged(left.skip(1), right) =~= left.skip(1));
                            assert(seq![left[0]] + left.skip(1) =~= left);
                        }
                        assert(done + (seq![entry@] + merged(left.skip(1), right)) =~= done.push(
                            entry@,
                        ) + merged(left.skip(1), right));
                    } else {
                        assert(entry_views(live@) =~= right.skip(1));
                        if left.len() == 0 {
                            assert(seq![right[0]] + right.skip(1) =~= right);
                            assert(merged(left, right.skip(1)) == right.skip(1));
                        }
                        assert(done + (seq![entry@] + merged(left, right.skip(1))) =~= done.push(
                            entry@,
                        ) + merged(left, right.skip(1)));
                    }
                }
                all.push(entry);
            },
            None => {},
        }
    }
    proof {
        assert(entry_views(all@) + Seq::<EntryView>::empty() =~= entry_views(all@));
    }
    all
}

/// Whether timestamps do not fall along a sequence of entries.
pub open spec fn ascending(entries: Seq<EntryView>) -> bool {
    forall|i: int, j: int|
        0 <= i <= j < entries.len() ==> (#[trigger] entries[i]).timestamp <= (
        #[trigger] entries[j]).timestamp
}

/// Compaction does not change what a reader sees: where the entries of a
/// name, in the order of their timestamps, are split into those that went
/// into blocks and those still in the log, merging the two gives the
/// entries as they were.
pub proof fn lemma_compaction_is_transparent(entries: Seq<EntryView>, compacted: int)
    requires
        ascending(entries),
        0 <= compacted <= entries.len(),
    ensures
        merged(entries.take(compacted), entries.skip(compacted)) == entries,
    decreases compacted,
{
    let front = entries.take(compacted);
    let back = entries.skip(compacted);
    if compacted == 0 {
        assert(back =~= entries);
    } else if back.len() == 0 {
        assert(front =~= entries);
    } else {
        assert(front[0] == entries[0] && back[0] == entries[compacted]);
        let rest = entries.skip(1);
        assert(ascending(rest)) by {
            assert forall|i: int, j: int| 0 <= i <= j < rest.len() implies (#[trigger] rest[i])
                .timestamp <= (#[trigger] rest[j]).timestamp by {
                assert(rest[i] == entries[i + 1] && rest[j] == entries[j + 1]);
            }
        }
        lemma_compaction_is_transparent(rest, compacted - 1);
        assert(front.skip(1) =~= rest.take(compacted - 1));
        assert(back =~= rest.skip(compacted - 1));
        assert(seq![entries[0]] + rest =~= entries);
    }
}

/// What a filter keeps of entries with ascending timestamps has ascending
/// timestamps.
pub proof fn lemma_filter_keeps_ascending(
    entries: Seq<EntryView>,
    keep: spec_fn(EntryView) -> bool,
)
    requires
        ascending(entries),
    ensures
        ascending(entries.filter(keep)),
    decreases entries.len(),
{
    reveal(Seq::filter);
    if entries.len() > 0 {
        let rest = entries.drop_last();
        assert(ascending(rest)) by {
            assert forall|i: int, j: int| 0 <= i <= j < rest.len() implies (#[trigger] rest[i])
                .timestamp <= (#[trigger] rest[j]).timestamp by {
                assert(rest[i] == entries[i] && rest[j] == entries[j]);
            }
        }
        lemma_filter_keeps_ascending(rest, keep);
        let kept = rest.filter(keep);
        if keep(entries.last()) {
            let all = kept.push(entries.last());
            assert forall|i: int, j: int| 0 <= i <= j < all.len() implies (#[trigger] all[i])
                .timestamp <= (#[trigger] all[j]).timestamp by {
                if j == kept.len() {
                    if i < j {
                        assert(kept.contains(kept[i]));
                        rest.lemma_filter_contains_rev(keep, kept[i]);
                        let m = choose|m: int| 0 <= m < rest.len() && rest[m] == kept[i];
                        assert(entries[m] == kept[i]);
                        assert(entries[m].timestamp <= entries[entries.len() - 1].timestamp);
                    }
                } else {
                    assert(all[i] == kept[i] && all[j] == kept[j]);
                }
            }
        }
    }
}

/// Compaction does not change what a range reads or counts: where the
/// entries of a name, in the order of their timestamps, are split into those
/// that went into blocks and those still in the log, what a query selects of
/// the two parts, merged, is what it selected of the whole, entry for entry,
/// and so as many.
pub proof fn lemma_compaction_is_transparent_to_ranges(
    entries: Seq<EntryView>,
    compacted: int,
    range: RangeView,
)
    requires
        ascending(entries),
        0 <= compacted <= entries.len(),
    ensures
        merged(select(entries.take(compacted), range), select(entries.skip(compacted), range))
            == select(entries, range),
        select(entries.take(compacted), range).len() + select(
            entries.skip(compacted),
            range,
        ).len() == select(entries, range).len(),
{
    let keep = range.selector();
    let front = entries.take(compacted);
    let back = entries.skip(compacted);
    assert(front + back =~= entries);
    Seq::filter_distributes_over_add(front, back, keep);
    let whole = entries.filter(keep);
    let cut = front.filter(keep).len() as int;
    lemma_filter_keeps_ascending(entries, keep);
    lemma_compaction_is_transparent(whole, cut);
    assert(whole.take(cut) =~= front.filter(keep));
    assert(whole.skip(cut) =~= back.filter(keep));
}

/// Whether the samples from `start` up to `end` are a run as the policy
/// folds it: the run took each of its samples behind the first, and it did
/// not take the sample behind it, if there is one.
pub open spec fn is_greedy_run(
    policy: CompactionPolicy,
    samples: Seq<SampleView>,
    start: int,
    end: int,
) -> bool {
    &&& 0 <= start < end <= samples.len()
    &&& forall|e: int| start < e < end ==> #[trigger] policy.takes(samples, start, e)
    &&& end < samples.len() ==> !policy.takes(samples, start, end)
}

/// The runs from the one on that starts at `start` are folded greedily,
/// follow each other without a gap, and end with the samples.
pub proof fn lemma_cuts_from_are_greedy(
    policy: CompactionPolicy,
    samples: Seq<SampleView>,
    start: int,
    end: int,
)
    requires
        0 <= start < end <= samples.len(),
        forall|e: int| start < e < end ==> #[trigger] policy.takes(samples, start, e),
    ensures
        policy.cuts_from(samples, start, end).len() > 0,
        policy.cuts_from(samples, start, end).last() == samples.len(),
        is_greedy_run(policy, samples, start, policy.cuts_from(samples, start, end)[0]),
        policy.cuts_from(samples, start, end)[0] >= end,
        forall|k: int|
            0 <= k < policy.cuts_from(samples, start, end).len() - 1 ==> is_greedy_run(
                policy,
                samples,
                #[trigger] policy.cuts_from(samples, start, end)[k],
                policy.cuts_from(samples, start, end)[k + 1],
            ),
    decreases samples.len() - end,
{
    let cuts = policy.cuts_from(samples, start, end);
    if end >= samples.len() {
    } else if policy.takes(samples, start, end) {
        lemma_cuts_from_are_greedy(policy, samples, start, end + 1);
    } else {
        lemma_cuts_from_are_greedy(policy, samples, end, end + 1);
        let rest = policy.cuts_from(samples, end, end + 1);
        assert(cuts =~= seq![end] + rest);
        assert(cuts[0] == end);
        assert(cuts.last() == rest.last());
        assert forall|k: int| 0 <= k < cuts.len() - 1 implies is_greedy_run(
            policy,
            samples,
            #[trigger] cuts[k],
            cuts[k + 1],
        ) by {
            if k == 0 {
                assert(cuts[1] == rest[0]);
            } else {
                assert(cuts[k] == rest[k - 1] && cuts[k + 1] == rest[k]);
            }
        }
    }
}

/// Every run that the policy folds is greedy: the first starts with the
/// samples, each next one where the one before it ends, and the last ends
/// with the samples.
pub proof fn lemma_runs_are_greedy(policy: CompactionPolicy, samples: Seq<SampleView>)
    requires
        samples.len() > 0,
    ensures
        policy.cuts(samples).len() > 0,
        policy.cuts(samples).last() == samples.len(),
        is_greedy_run(policy, samples, 0, policy.cuts(samples)[0]),
        forall|k: int|
            0 <= k < policy.cuts(samples).len() - 1 ==> is_greedy_run(
                policy,
                samples,
                #[trigger] policy.cuts(samples)[k],
                policy.cuts(samples)[k + 1],
            ),
{
    lemma_cuts_from_are_greedy(policy, samples, 0, 1);
}

/// A greedy run of more than one sample stays within the policy: it holds
/// no more payload bytes than allowed, and its last sample is no further
/// from its first than allowed.
pub proof fn lemma_greedy_run_is_bounded(
    policy: CompactionPolicy,
    samples: Seq<SampleView>,
    start: int,
    end: int,
)
    requires
        is_greedy_run(policy, samples, start, end),
        end - start > 1,
    ensures
        run_size(samples, start, end) <= policy.max_run_size,
        samples[end - 1].timestamp - samples[start].timestamp <= policy.max_run_span,
{
    assert(policy.takes(samples, start, end - 1));
}

} // verus!
