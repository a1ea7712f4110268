//! The log as a mathematical object: a sequence of entries in storage order,
//! and what pushing, selecting and removing do to it.

use vstd::prelude::*;
use vstd::utf8::encode_utf8;
use std::ops::Bound;
use crate::entry::{Entry, EntryView};
use crate::utils::in_bounds;

verus! {

/// Lexicographic order on byte strings: `a` comes no later than `b`.
///
/// The two agree on their first `k` bytes, and there `a` ends or holds the
/// smaller byte.
pub open spec fn bytes_le(a: Seq<u8>, b: Seq<u8>) -> bool {
    exists|k: int| common_prefix_then_le(a, b, k)
}

/// Whether `k` witnesses that `a` comes no later than `b`.
pub open spec fn common_prefix_then_le(a: Seq<u8>, b: Seq<u8>, k: int) -> bool {
    &&& 0 <= k <= a.len()
    &&& k <= b.len()
    &&& forall|j: int| 0 <= j < k ==> a[j] == b[j]
    &&& (k == a.len() || (k < b.len() && a[k] < b[k]))
}

/// The order of names: that of their UTF-8 encodings, byte by byte.
pub open spec fn name_le(a: Seq<char>, b: Seq<char>) -> bool {
    bytes_le(encode_utf8(a), encode_utf8(b))
}

/// The order in which the log keeps its entries: by timestamp, then by name.
pub open spec fn key_le(a: EntryView, b: EntryView) -> bool {
    a.timestamp < b.timestamp || (a.timestamp == b.timestamp && name_le(a.name, b.name))
}

/// Whether a log is in storage order.
pub open spec fn ordered(log: Seq<EntryView>) -> bool {
    forall|i: int, j: int| 0 <= i <= j < log.len() ==> key_le(#[trigger] log[i], #[trigger] log[j])
}

/// Of two byte strings one comes no later than the other.
pub proof fn lemma_bytes_le_total(a: Seq<u8>, b: Seq<u8>)
    ensures
        bytes_le(a, b) || bytes_le(b, a),
{
    let k = first_difference(a, b, 0);
    lemma_first_difference(a, b, 0);
    if k == a.len() {
        assert(common_prefix_then_le(a, b, k));
    } else if k == b.len() {
        assert(common_prefix_then_le(b, a, k));
    } else if a[k] < b[k] {
        assert(common_prefix_then_le(a, b, k));
    } else {
        assert(common_prefix_then_le(b, a, k));
    }
}

/// The first index from `from` on at which `a` and `b` differ or one of them
/// ends.
pub open spec fn first_difference(a: Seq<u8>, b: Seq<u8>, from: int) -> int
    decreases a.len() - from,
{
    if 0 <= from < a.len() && from < b.len() && a[from] == b[from] {
        first_difference(a, b, from + 1)
    } else {
        from
    }
}

/// Up to their first difference two byte strings agree.
pub proof fn lemma_first_difference(a: Seq<u8>, b: Seq<u8>, from: int)
    requires
        0 <= from <= a.len(),
        from <= b.len(),
    ensures
        from <= first_difference(a, b, from) <= a.len(),
        first_difference(a, b, from) <= b.len(),
        forall|j: int| from <= j < first_difference(a, b, from) ==> a[j] == b[j],
        first_difference(a, b, from) < a.len() && first_difference(a, b, from) < b.len()
            ==> a[first_difference(a, b, from)] != b[first_difference(a, b, from)],
    decreases a.len() - from,
{
    if from < a.len() && from < b.len() && a[from] == b[from] {
        lemma_first_difference(a, b, from + 1);
    }
}

/// The order of byte strings is transitive.
pub proof fn lemma_bytes_le_transitive(a: Seq<u8>, b: Seq<u8>, c: Seq<u8>)
    requires
        bytes_le(a, b),
        bytes_le(b, c),
    ensures
        bytes_le(a, c),
{
    let k1 = choose|k: int| common_prefix_then_le(a, b, k);
    let k2 = choose|k: int| common_prefix_then_le(b, c, k);
    let k = if k1 <= k2 { k1 } else { k2 };
    assert(common_prefix_then_le(a, c, k));
}

/// Of two entries one is kept no later than the other.
pub proof fn lemma_key_le_total(a: EntryView, b: EntryView)
    ensures
        key_le(a, b) || key_le(b, a),
{
    lemma_bytes_le_total(encode_utf8(a.name), encode_utf8(b.name));
}

/// The storage order is transitive.
pub proof fn lemma_key_le_transitive(a: EntryView, b: EntryView, c: EntryView)
    requires
        key_le(a, b),
        key_le(b, c),
    ensures
        key_le(a, c),
{
    if a.timestamp == b.timestamp && b.timestamp == c.timestamp {
        lemma_bytes_le_transitive(encode_utf8(a.name), encode_utf8(b.name), encode_utf8(c.name));
    }
}

/// An entry is kept no later than itself.
pub proof fn lemma_key_le_reflexive(a: EntryView)
    ensures
        key_le(a, a),
{
    let bytes = encode_utf8(a.name);
    assert(common_prefix_then_le(bytes, bytes, bytes.len() as int));
}

/// Where a new entry goes: behind the last entry that is kept no later than
/// it. Entries with one timestamp and one name thus stay in the order in
/// which they were pushed.
pub open spec fn insertion_point(log: Seq<EntryView>, entry: EntryView) -> int
    decreases log.len(),
{
    if log.len() == 0 {
        0
    } else if key_le(log.last(), entry) {
        log.len() as int
    } else {
        insertion_point(log.drop_last(), entry)
    }
}

/// The log after `entry` was pushed.
pub open spec fn log_insert(log: Seq<EntryView>, entry: EntryView) -> Seq<EntryView> {
    log.insert(insertion_point(log, entry), entry)
}

/// A query over the log: two bounds on the timestamp and, optionally, the one
/// name that is wanted.
pub struct RangeView {
    pub start_bound: Bound<i64>,
    pub end_bound: Bound<i64>,
    pub name: Option<Seq<char>>,
}

impl RangeView {
    /// Whether the query selects `entry`.
    pub open spec fn matches(self, entry: EntryView) -> bool {
        &&& in_bounds(self.start_bound, self.end_bound, entry.timestamp)
        &&& (self.name matches Some(name) ==> entry.name == name)
    }

    /// The entries that the query selects.
    pub open spec fn selector(self) -> spec_fn(EntryView) -> bool {
        |entry: EntryView| self.matches(entry)
    }

    /// The entries that the query does not select.
    pub open spec fn rejector(self) -> spec_fn(EntryView) -> bool {
        |entry: EntryView| !self.matches(entry)
    }
}

/// The entries that a query selects, in storage order.
pub open spec fn select(log: Seq<EntryView>, range: RangeView) -> Seq<EntryView> {
    log.filter(range.selector())
}

/// The log after a query's entries were removed.
pub open spec fn without(log: Seq<EntryView>, range: RangeView) -> Seq<EntryView> {
    log.filter(range.rejector())
}

/// The entries under `name`.
pub open spec fn named(name: Seq<char>) -> spec_fn(EntryView) -> bool {
    |entry: EntryView| entry.name == name
}

/// The entry that `latest` reports for a name: of the entries under that
/// name, the one kept last.
pub open spec fn latest(log: Seq<EntryView>, name: Seq<char>) -> Option<EntryView> {
    let under_name = log.filter(named(name));
    if under_name.len() == 0 {
        None
    } else {
        Some(under_name.last())
    }
}

/// The entries of a sequence as mathematical values.
pub open spec fn entry_views(entries: Seq<Entry>) -> Seq<EntryView> {
    entries.map_values(|entry: Entry| entry@)
}

/// Where a new entry goes in a log in storage order: behind every entry
/// that is kept no later than it, before every other.
pub proof fn lemma_insertion_point(log: Seq<EntryView>, entry: EntryView)
    requires
        ordered(log),
    ensures
        0 <= insertion_point(log, entry) <= log.len(),
        forall|i: int| 0 <= i < insertion_point(log, entry) ==> key_le(#[trigger] log[i], entry),
        forall|i: int|
            insertion_point(log, entry) <= i < log.len() ==> !key_le(#[trigger] log[i], entry),
    decreases log.len(),
{
    if log.len() == 0 {
    } else if key_le(log.last(), entry) {
        assert forall|i: int| 0 <= i < log.len() implies key_le(#[trigger] log[i], entry) by {
            lemma_key_le_transitive(log[i], log.last(), entry);
        }
    } else {
        let rest = log.drop_last();
        assert(ordered(rest)) by {
            assert forall|i: int, j: int| 0 <= i <= j < rest.len() implies key_le(
                #[trigger] rest[i],
                #[trigger] rest[j],
            ) by {
                assert(rest[i] == log[i] && rest[j] == log[j]);
            }
        }
        lemma_insertion_point(rest, entry);
        assert forall|i: int| 0 <= i < insertion_point(log, entry) implies key_le(
            #[trigger] log[i],
            entry,
        ) by {
            assert(log[i] == rest[i]);
        }
        assert forall|i: int| insertion_point(log, entry) <= i < log.len() implies !key_le(
            #[trigger] log[i],
            entry,
        ) by {
            if i < rest.len() {
                assert(log[i] == rest[i]);
            }
        }
    }
}

/// Pushing keeps the log in storage order.
pub proof fn lemma_insert_keeps_order(log: Seq<EntryView>, entry: EntryView)
    requires
        ordered(log),
    ensures
        ordered(log_insert(log, entry)),
{
    lemma_insertion_point(log, entry);
    let at = insertion_point(log, entry);
    let after = log_insert(log, entry);
    assert forall|i: int, j: int| 0 <= i <= j < after.len() implies key_le(
        #[trigger] after[i],
        #[trigger] after[j],
    ) by {
        if i == at && j == at {
            lemma_key_le_reflexive(entry);
        } else if i == at {
            assert(after[j] == log[j - 1]);
            lemma_key_le_total(log[j - 1], entry);
        } else if j == at {
            assert(after[i] == log[i]);
        } else {
            let old_i = if i < at { i } else { i - 1 };
            let old_j = if j < at { j } else { j - 1 };
            assert(after[i] == log[old_i]);
            assert(after[j] == log[old_j]);
        }
    }
}

/// What one more entry adds to a filtered prefix of a sequence.
pub proof fn lemma_filter_step<A>(items: Seq<A>, keep: spec_fn(A) -> bool, i: int)
    requires
        0 <= i < items.len(),
    ensures
        items.take(i + 1).filter(keep) == if keep(items[i]) {
            items.take(i).filter(keep).push(items[i])
        } else {
            items.take(i).filter(keep)
        },
{
    reveal(Seq::filter);
    assert(items.take(i + 1).drop_last() =~= items.take(i));
}

/// Every position of a filtered sequence holds an item of the sequence that
/// passes the filter, and positions keep their order.
pub proof fn lemma_filter_keeps_order(log: Seq<EntryView>, keep: spec_fn(EntryView) -> bool)
    requires
        ordered(log),
    ensures
        ordered(log.filter(keep)),
    decreases log.len(),
{
    reveal(Seq::filter);
    if log.len() > 0 {
        let rest = log.drop_last();
        assert(ordered(rest)) by {
            assert forall|i: int, j: int| 0 <= i <= j < rest.len() implies key_le(
                #[trigger] rest[i],
                #[trigger] rest[j],
            ) by {
                assert(rest[i] == log[i] && rest[j] == log[j]);
            }
        }
        lemma_filter_keeps_order(rest, keep);
        let kept = rest.filter(keep);
        if keep(log.last()) {
            let all = kept.push(log.last());
            assert forall|i: int, j: int| 0 <= i <= j < all.len() implies key_le(
                #[trigger] all[i],
                #[trigger] all[j],
            ) by {
                if j == kept.len() {
                    if i == j {
                        lemma_key_le_reflexive(log.last());
                    } else {
                        assert(kept.contains(kept[i]));
                        rest.lemma_filter_contains_rev(keep, kept[i]);
                        let m = choose|m: int| 0 <= m < rest.len() && rest[m] == kept[i];
                        assert(log[m] == kept[i]);
                        assert(key_le(log[m], log[log.len() - 1]));
                    }
                } else {
                    assert(all[i] == kept[i] && all[j] == kept[j]);
                }
            }
        }
    }
}

/// Items that fail a filter add nothing to what it keeps.
pub proof fn lemma_filter_skip<A>(items: Seq<A>, keep: spec_fn(A) -> bool, from: int, to: int)
    requires
        0 <= from <= to <= items.len(),
        forall|j: int| from <= j < to ==> !keep(#[trigger] items[j]),
    ensures
        items.take(to).filter(keep) == items.take(from).filter(keep),
    decreases to - from,
{
    if from < to {
        lemma_filter_skip(items, keep, from, to - 1);
        lemma_filter_step(items, keep, to - 1);
    }
}

/// A filter keeps nothing of an empty prefix.
pub proof fn lemma_filter_nothing<A>(items: Seq<A>, keep: spec_fn(A) -> bool)
    ensures
        items.take(0).filter(keep) == Seq::<A>::empty(),
{
    reveal(Seq::filter);
    assert(items.take(0).len() == 0);
}

/// `latest` reports the entry at `at` where that is the last one under the
/// name.
pub proof fn lemma_latest_found(log: Seq<EntryView>, name: Seq<char>, at: int)
    requires
        0 <= at < log.len(),
        log[at].name == name,
        forall|j: int| at < j < log.len() ==> (#[trigger] log[j]).name != name,
    ensures
        latest(log, name) == Some(log[at]),
{
    lemma_filter_step(log, named(name), at);
    lemma_filter_skip(log, named(name), at + 1, log.len() as int);
    assert(log.take(log.len() as int) =~= log);
}

/// `latest` reports nothing where no entry is under the name.
pub proof fn lemma_latest_missing(log: Seq<EntryView>, name: Seq<char>)
    requires
        forall|j: int| 0 <= j < log.len() ==> (#[trigger] log[j]).name != name,
    ensures
        latest(log, name) is None,
{
    lemma_filter_skip(log, named(name), 0, log.len() as int);
    lemma_filter_nothing(log, named(name));
    assert(log.take(log.len() as int) =~= log);
}

/// Items that pass a filter are kept as they are.
pub proof fn lemma_filter_keep<A>(items: Seq<A>, keep: spec_fn(A) -> bool, from: int, to: int)
    requires
        0 <= from <= to <= items.len(),
        forall|j: int| from <= j < to ==> keep(#[trigger] items[j]),
    ensures
        items.take(to).filter(keep) == items.take(from).filter(keep) + items.subrange(from, to),
    decreases to - from,
{
    if from < to {
        lemma_filter_keep(items, keep, from, to - 1);
        lemma_filter_step(items, keep, to - 1);
        assert(items.subrange(from, to) =~= items.subrange(from, to - 1).push(items[to - 1]));
        assert(items.take(from).filter(keep) + items.subrange(from, to) =~= (items.take(
            from,
        ).filter(keep) + items.subrange(from, to - 1)).push(items[to - 1]));
    } else {
        assert(items.take(from).filter(keep) + items.subrange(from, to) =~= items.take(
            from,
        ).filter(keep));
    }
}

/// A listener on one name: its identifier, the name, whether its handle is
/// still held, and the entries that wait for it, oldest first.
pub struct SubscriberView {
    pub id: u64,
    pub name: Seq<char>,
    pub alive: bool,
    pub pending: Seq<EntryView>,
}

/// Which listeners a push of `entry` leaves in the registry: all but those
/// on the entry's name whose handle is gone.
pub open spec fn survives(entry: EntryView) -> spec_fn(SubscriberView) -> bool {
    |subscriber: SubscriberView| subscriber.name != entry.name || subscriber.alive
}

/// What a push of `entry` does to a listener: on the entry's name the entry
/// joins the end of its queue.
pub open spec fn delivered(entry: EntryView) -> spec_fn(SubscriberView) -> SubscriberView {
    |subscriber: SubscriberView|
        if subscriber.name == entry.name {
            SubscriberView { pending: subscriber.pending.push(entry), ..subscriber }
        } else {
            subscriber
        }
}

/// The registry after a push of `entry`.
pub open spec fn notified(subscribers: Seq<SubscriberView>, entry: EntryView) -> Seq<
    SubscriberView,
> {
    subscribers.filter(survives(entry)).map_values(delivered(entry))
}

/// Whether no two listeners share an identifier.
pub open spec fn distinct_ids(subscribers: Seq<SubscriberView>) -> bool {
    forall|i: int, j: int|
        0 <= i < j < subscribers.len() ==> (#[trigger] subscribers[i]).id != (
        #[trigger] subscribers[j]).id
}

/// Whether the registry holds a listener with this identifier.
pub open spec fn registered(subscribers: Seq<SubscriberView>, id: u64) -> bool {
    exists|i: int| 0 <= i < subscribers.len() && (#[trigger] subscribers[i]).id == id
}

/// Where the registry holds the listener with this identifier.
pub open spec fn index_of(subscribers: Seq<SubscriberView>, id: u64) -> int {
    choose|i: int| 0 <= i < subscribers.len() && (#[trigger] subscribers[i]).id == id
}

/// The entries that wait for a listener, oldest first; none where the
/// registry does not hold it.
pub open spec fn pending_of(subscribers: Seq<SubscriberView>, id: u64) -> Seq<EntryView> {
    if registered(subscribers, id) {
        subscribers[index_of(subscribers, id)].pending
    } else {
        Seq::empty()
    }
}

/// The registry after the handle of a listener was given up.
pub open spec fn retired(subscribers: Seq<SubscriberView>, id: u64) -> Seq<SubscriberView> {
    if registered(subscribers, id) {
        let at = index_of(subscribers, id);
        subscribers.update(at, SubscriberView { alive: false, ..subscribers[at] })
    } else {
        subscribers
    }
}

/// The registry after a listener took the oldest entry that waited for it.
pub open spec fn after_take(subscribers: Seq<SubscriberView>, id: u64) -> Seq<SubscriberView> {
    if pending_of(subscribers, id).len() > 0 {
        let at = index_of(subscribers, id);
        subscribers.update(
            at,
            SubscriberView { pending: subscribers[at].pending.skip(1), ..subscribers[at] },
        )
    } else {
        subscribers
    }
}

/// A filter leaves identifiers distinct.
pub proof fn lemma_filter_keeps_distinct(
    subscribers: Seq<SubscriberView>,
    keep: spec_fn(SubscriberView) -> bool,
)
    requires
        distinct_ids(subscribers),
    ensures
        distinct_ids(subscribers.filter(keep)),
    decreases subscribers.len(),
{
    reveal(Seq::filter);
    if subscribers.len() > 0 {
        let rest = subscribers.drop_last();
        assert(distinct_ids(rest)) by {
            assert forall|i: int, j: int| 0 <= i < j < rest.len() implies (#[trigger] rest[i]).id
                != (#[trigger] rest[j]).id by {
                assert(rest[i] == subscribers[i] && rest[j] == subscribers[j]);
            }
        }
        lemma_filter_keeps_distinct(rest, keep);
        let kept = rest.filter(keep);
        if keep(subscribers.last()) {
            let all = kept.push(subscribers.last());
            assert forall|i: int, j: int| 0 <= i < j < all.len() implies (#[trigger] all[i]).id != (
            #[trigger] all[j]).id by {
                if j == kept.len() {
                    assert(kept.contains(kept[i]));
                    rest.lemma_filter_contains_rev(keep, kept[i]);
                    let m = choose|m: int| 0 <= m < rest.len() && rest[m] == kept[i];
                    assert(subscribers[m] == kept[i]);
                    assert(subscribers[m].id != subscribers[subscribers.len() - 1].id);
                } else {
                    assert(all[i] == kept[i] && all[j] == kept[j]);
                }
            }
        }
    }
}

/// A push leaves identifiers distinct, and brings no new one.
pub proof fn lemma_notified_ids(subscribers: Seq<SubscriberView>, entry: EntryView)
    requires
        distinct_ids(subscribers),
    ensures
        distinct_ids(notified(subscribers, entry)),
        forall|k: int|
            0 <= k < notified(subscribers, entry).len() ==> registered(
                subscribers,
                (#[trigger] notified(subscribers, entry)[k]).id,
            ),
{
    let kept = subscribers.filter(survives(entry));
    let after = notified(subscribers, entry);
    lemma_filter_keeps_distinct(subscribers, survives(entry));
    assert forall|i: int, j: int| 0 <= i < j < after.len() implies (#[trigger] after[i]).id != (
    #[trigger] after[j]).id by {
        assert(after[i].id == kept[i].id && after[j].id == kept[j].id);
    }
    assert forall|k: int| 0 <= k < after.len() implies registered(
        subscribers,
        (#[trigger] after[k]).id,
    ) by {
        assert(kept.contains(kept[k]));
        subscribers.lemma_filter_contains_rev(survives(entry), kept[k]);
        let m = choose|m: int| 0 <= m < subscribers.len() && subscribers[m] == kept[k];
        assert(subscribers[m].id == after[k].id);
    }
}

/// Compares two byte strings lexicographically.
pub fn bytes_no_later(a: &[u8], b: &[u8]) -> (le: bool)
    ensures
        le == bytes_le(a@, b@),
{
    let mut i: usize = 0;
    while i < a.len() && i < b.len()
        invariant
            i <= a.len(),
            i <= b.len(),
            forall|j: int| 0 <= j < i ==> a@[j] == b@[j],
        decreases a.len() - i,
    {
        if a[i] != b[i] {
            let le = a[i] < b[i];
            proof {
                if le {
                    assert(common_prefix_then_le(a@, b@, i as int));
                } else {
                    assert forall|k: int| !common_prefix_then_le(a@, b@, k) by {
                        if common_prefix_then_le(a@, b@, k) {
                            if k > i {
                                assert(a@[i as int] == b@[i as int]);
                            }
                        }
                    }
                }
            }
            return le;
        }
        i += 1;
    }
    let le = a.len() <= b.len();
    proof {
        if le {
            assert(common_prefix_then_le(a@, b@, i as int));
        } else {
            assert forall|k: int| !common_prefix_then_le(a@, b@, k) by {}
        }
    }
    le
}

/// Whether `a` is kept no later than `b` in the log.
pub fn key_no_later(a: &Entry, b: &Entry) -> (le: bool)
    ensures
        le == key_le(a@, b@),
{
    if a.timestamp < b.timestamp {
        true
    } else if a.timestamp == b.timestamp {
        bytes_no_later(a.name.as_str().as_bytes(), b.name.as_str().as_bytes())
    } else {
        false
    }
}

} // verus!
