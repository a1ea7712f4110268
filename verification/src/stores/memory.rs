//! The in-memory engine: the reference that the other engines are held to.

use vstd::prelude::*;
use vstd::string::StringExecFns;
use std::collections::VecDeque;
use std::ops::Bound;
use crate::entry::{Entry, EntryView};
use crate::errors::Error;
use crate::model::{
    after_take, delivered, distinct_ids, entry_views, index_of, insertion_point, key_le,
    key_no_later, latest, lemma_filter_keep, lemma_filter_keeps_order, lemma_filter_nothing,
    lemma_filter_skip, lemma_filter_step, lemma_insert_keeps_order, lemma_latest_found,
    lemma_insertion_point, lemma_latest_missing, lemma_notified_ids, log_insert, notified,
    ordered, pending_of,
    registered, retired, select, survives, without, RangeView, SubscriberView,
};
use crate::laws::{
    lemma_latest_is_highest, lemma_new_listener_waits_for_nothing, lemma_take_is_oldest_first,
};
use crate::traits::{Range, RangeableStore, Store, SubscribeableStore, Subscription};
use crate::utils::{after_start, before_end, check_bounds, well_formed_bounds};

verus! {

/// A listener in the registry of a `MemoryStore`.
struct Subscriber {
    id: u64,
    name: String,
    alive: bool,
    pending: VecDeque<Entry>,
}

impl View for Subscriber {
    type V = SubscriberView;

    closed spec fn view(&self) -> SubscriberView {
        SubscriberView {
            id: self.id,
            name: self.name@,
            alive: self.alive,
            pending: entry_views(self.pending@),
        }
    }
}

spec fn subscriber_views(subscribers: Seq<Subscriber>) -> Seq<SubscriberView> {
    subscribers.map_values(|subscriber: Subscriber| subscriber@)
}

/// An event log held in memory, in storage order, with the listeners on it.
pub struct MemoryStore {
    entries: Vec<Entry>,
    subscribers: Vec<Subscriber>,
    issued: u64,
}

/// The handle of a listener on a `MemoryStore`.
pub struct MemoryStreamSubscription {
    id: u64,
}

impl MemoryStreamSubscription {
    /// The identifier under which the store's registry holds the listener.
    pub closed spec fn id(&self) -> u64 {
        self.id
    }
}

impl Default for MemoryStore {
    fn default() -> (store: MemoryStore)
        ensures
            store.well_formed(),
            store.log() == Seq::<EntryView>::empty(),
            store.subscribers() == Seq::<SubscriberView>::empty(),
            store.issued() == 0,
    {
        MemoryStore::new()
    }
}

impl MemoryStore {
    /// What holds of every store: its entries are in storage order, and its
    /// listeners have distinct identifiers, all of them issued.
    pub closed spec fn well_formed(&self) -> bool {
        &&& ordered(entry_views(self.entries@))
        &&& distinct_ids(subscriber_views(self.subscribers@))
        &&& forall|i: int|
            0 <= i < self.subscribers.len() ==> (#[trigger] self.subscribers@[i]).id < self.issued
    }

    /// The entries of the log, in storage order.
    pub closed spec fn log(&self) -> Seq<EntryView> {
        entry_views(self.entries@)
    }

    /// The registry of listeners, in the order in which they subscribed.
    pub closed spec fn subscribers(&self) -> Seq<SubscriberView> {
        subscriber_views(self.subscribers@)
    }

    /// How many identifiers the store has issued to listeners.
    pub closed spec fn issued(&self) -> u64 {
        self.issued
    }

    /// What a well-formed store is known by: its log is in storage order,
    /// no two of its listeners share an identifier, and every identifier in
    /// its registry has been issued.
    pub proof fn lemma_well_formed(&self)
        requires
            self.well_formed(),
        ensures
            ordered(self.log()),
            distinct_ids(self.subscribers()),
            forall|i: int|
                0 <= i < self.subscribers().len() ==> (#[trigger] self.subscribers()[i]).id
                    < self.issued(),
    {
        assert forall|i: int| 0 <= i < self.subscribers().len() implies (
        #[trigger] self.subscribers()[i]).id < self.issued() by {
            assert(self.subscribers()[i].id == self.subscribers@[i].id);
        }
    }

    /// An empty log without listeners.
    pub fn new() -> (store: MemoryStore)
        ensures
            store.well_formed(),
            store.log() == Seq::<EntryView>::empty(),
            store.subscribers() == Seq::<SubscriberView>::empty(),
            store.issued() == 0,
    {
        let store = MemoryStore { entries: Vec::new(), subscribers: Vec::new(), issued: 0 };
        assert(store.log() =~= Seq::<EntryView>::empty());
        assert(store.subscribers() =~= Seq::<SubscriberView>::empty());
        store
    }

    /// Hands `entry` to every listener on its name whose handle is still
    /// held, and drops from the registry those on its name whose handle is
    /// gone.
    fn notify(&mut self, entry: &Entry)
        requires
            old(self).well_formed(),
        ensures
            final(self).well_formed(),
            final(self).log() == old(self).log(),
            final(self).issued() == old(self).issued(),
            final(self).subscribers() == notified(old(self).subscribers(), entry@),
    {
        let ghost before = subscriber_views(self.subscribers@);
        let ghost keep = survives(entry@);
        let ghost hand = delivered(entry@);
        let mut listeners: Vec<Subscriber> = Vec::new();
        std::mem::swap(&mut self.subscribers, &mut listeners);
        proof {
            lemma_filter_nothing(before, keep);
            assert(subscriber_views(self.subscribers@) =~= before.take(0).filter(keep).map_values(
                hand,
            ));
        }
        let ghost all = listeners@;
        for listener in it: listeners.into_iter()
            invariant
                it.seq() == all,
                before == subscriber_views(all),
                keep == survives(entry@),
                hand == delivered(entry@),
                self.entries == old(self).entries,
                self.issued == old(self).issued,
                subscriber_views(self.subscribers@) == before.take(it.index() as int).filter(
                    keep,
                ).map_values(hand),
        {
            let ghost done = before.take(it.index() as int).filter(keep);
            proof {
                lemma_filter_step(before, keep, it.index() as int);
                assert(before[it.index() as int] == listener@);
            }
            let mut listener = listener;
            if listener.name == entry.name {
                if listener.alive {
                    let copy = entry.clone();
                    proof {
                        assert(entry_views(listener.pending@.push(copy)) =~= entry_views(
                            listener.pending@,
                        ).push(entry@));
                    }
                    let ghost waiting = listener@;
                    listener.pending.push_back(copy);
                    proof {
                        assert(listener@ == hand(waiting));
                        assert(subscriber_views(self.subscribers@.push(listener))
                            =~= subscriber_views(self.subscribers@).push(listener@));
                        assert(done.push(waiting).map_values(hand) =~= done.map_values(hand).push(
                            hand(waiting),
                        ));
                    }
                    self.subscribers.push(listener);
                }
            } else {
                proof {
                    assert(listener@ == hand(listener@));
                    assert(subscriber_views(self.subscribers@.push(listener))
                        =~= subscriber_views(self.subscribers@).push(listener@));
                    assert(done.push(listener@).map_values(hand) =~= done.map_values(hand).push(
                        hand(listener@),
                    ));
                }
                self.subscribers.push(listener);
            }
        }
        proof {
            assert(before.take(before.len() as int) =~= before);
            lemma_notified_ids(before, entry@);
            let after = notified(before, entry@);
            assert forall|i: int| 0 <= i < self.subscribers.len() implies (
            #[trigger] self.subscribers@[i]).id < self.issued by {
                assert(after[i].id == self.subscribers@[i].id);
                assert(registered(before, after[i].id));
                let m = choose|m: int| 0 <= m < before.len() && (#[trigger] before[m]).id
                    == after[i].id;
                assert(before[m].id == all[m].id);
            }
        }
    }

    /// Appends `entry` to the log, behind the entries of its timestamp and
    /// name that are already there, and hands it to the listeners on its
    /// name.
    pub fn push(&mut self, entry: &Entry) -> (pushed: Result<(), Error>)
        requires
            old(self).well_formed(),
        ensures
            final(self).well_formed(),
            pushed is Ok,
            final(self).log() == log_insert(old(self).log(), entry@),
            final(self).subscribers() == notified(old(self).subscribers(), entry@),
            final(self).issued() == old(self).issued(),
    {
        let ghost before = entry_views(self.entries@);
        let mut at: usize = self.entries.len();
        assert(before.take(at as int) =~= before);
        while at > 0 && !key_no_later(&self.entries[at - 1], entry)
            invariant
                at <= self.entries.len(),
                before == entry_views(self.entries@),
                insertion_point(before, entry@) == insertion_point(before.take(at as int), entry@),
                self.subscribers == old(self).subscribers,
                self.issued == old(self).issued,
            decreases at,
        {
            proof {
                let prefix = before.take(at as int);
                assert(prefix.last() == self.entries@[at - 1]@);
                assert(prefix.drop_last() =~= before.take(at - 1));
            }
            at -= 1;
        }
        let copy = entry.clone();
        proof {
            let prefix = before.take(at as int);
            if at > 0 {
                assert(prefix.last() == self.entries@[at - 1]@);
            }
            lemma_insert_keeps_order(before, entry@);
            assert(entry_views(self.entries@.insert(at as int, copy)) =~= before.insert(
                at as int,
                entry@,
            ));
        }
        self.entries.insert(at, copy);
        self.notify(entry);
        Ok(())
    }

    /// The entry under `name` with the highest timestamp; of several with
    /// that timestamp, the one pushed last.
    pub fn latest(&self, name: &str) -> (found: Result<Option<Entry>, Error>)
        requires
            self.well_formed(),
        ensures
            found matches Ok(entry) && match entry {
                Some(entry) => latest(self.log(), name@) == Some(entry@),
                None => latest(self.log(), name@) is None,
            },
    {
        let wanted = String::from_str(name);
        let ghost log = self.log();
        let mut at: usize = self.entries.len();
        while at > 0
            invariant
                at <= self.entries.len(),
                log == entry_views(self.entries@),
                wanted@ == name@,
                forall|j: int| at <= j < log.len() ==> (#[trigger] log[j]).name != name@,
            decreases at,
        {
            if self.entries[at - 1].name == wanted {
                proof {
                    lemma_latest_found(log, name@, at - 1);
                }
                return Ok(Some(self.entries[at - 1].clone()));
            }
            at -= 1;
        }
        proof {
            lemma_latest_missing(log, name@);
        }
        Ok(None)
    }

    /// Registers a listener on `name`. It is handed the entries that are
    /// pushed under that name from now on, and none that is there already.
    ///
    /// Fails with `Database` once every identifier has been issued.
    pub fn subscribe(&mut self, name: &str) -> (opened: Result<MemoryStreamSubscription, Error>)
        requires
            old(self).well_formed(),
        ensures
            final(self).well_formed(),
            final(self).log() == old(self).log(),
            opened is Ok <==> old(self).issued() < u64::MAX,
            opened matches Ok(subscription) ==> {
                &&& subscription.id() == old(self).issued()
                &&& final(self).issued() == old(self).issued() + 1
                &&& final(self).subscribers() == old(self).subscribers().push(
                    SubscriberView {
                        id: subscription.id(),
                        name: name@,
                        alive: true,
                        pending: Seq::empty(),
                    },
                )
            },
            opened matches Err(error) ==> {
                &&& error is Database
                &&& final(self).issued() == old(self).issued()
                &&& final(self).subscribers() == old(self).subscribers()
            },
    {
        if self.issued == u64::MAX {
            return Err(Error::Database(String::from_str("subscription identifiers are used up")));
        }
        let id = self.issued;
        let listener = Subscriber {
            id,
            name: String::from_str(name),
            alive: true,
            pending: VecDeque::new(),
        };
        proof {
            assert(entry_views(listener.pending@) =~= Seq::<EntryView>::empty());
            assert(subscriber_views(self.subscribers@.push(listener)) =~= subscriber_views(
                self.subscribers@,
            ).push(listener@));
            let after = subscriber_views(self.subscribers@.push(listener));
            assert forall|i: int, j: int| 0 <= i < j < after.len() implies (#[trigger] after[i]).id
                != (#[trigger] after[j]).id by {
                assert(after[i].id == self.subscribers@[i].id);
                if j < self.subscribers.len() {
                    assert(subscriber_views(self.subscribers@)[i].id != subscriber_views(
                        self.subscribers@,
                    )[j].id);
                }
            }
        }
        self.subscribers.push(listener);
        self.issued = id + 1;
        Ok(MemoryStreamSubscription { id })
    }

    /// Where the registry holds the listener with this identifier, if it
    /// holds it.
    fn find(&self, id: u64) -> (found: Option<usize>)
        requires
            self.well_formed(),
        ensures
            match found {
                Some(at) => at < self.subscribers.len() && registered(self.subscribers(), id)
                    && at == index_of(self.subscribers(), id),
                None => !registered(self.subscribers(), id),
            },
    {
        let ghost listeners = self.subscribers();
        let mut at: usize = 0;
        while at < self.subscribers.len()
            invariant
                at <= self.subscribers.len(),
                listeners == subscriber_views(self.subscribers@),
                distinct_ids(listeners),
                forall|i: int| 0 <= i < at ==> (#[trigger] listeners[i]).id != id,
            decreases self.subscribers.len() - at,
        {
            if self.subscribers[at].id == id {
                proof {
                    assert(listeners[at as int].id == id);
                    let chosen = index_of(listeners, id);
                    if chosen < at {
                        assert(listeners[chosen].id != listeners[at as int].id);
                    } else if chosen > at {
                        assert(listeners[at as int].id != listeners[chosen].id);
                    }
                }
                return Some(at);
            }
            at += 1;
        }
        None
    }

    /// Gives up the handle of a listener. The registry drops the listener at
    /// the next push under its name.
    pub fn unsubscribe(&mut self, subscription: MemoryStreamSubscription)
        requires
            old(self).well_formed(),
        ensures
            final(self).well_formed(),
            final(self).log() == old(self).log(),
            final(self).issued() == old(self).issued(),
            final(self).subscribers() == retired(old(self).subscribers(), subscription.id()),
    {
        match self.find(subscription.id) {
            Some(at) => {
                let ghost before = subscriber_views(self.subscribers@);
                self.subscribers[at].alive = false;
                proof {
                    let after = subscriber_views(self.subscribers@);
                    assert(after =~= retired(before, subscription.id));
                    assert forall|i: int, j: int| 0 <= i < j < after.len() implies (
                    #[trigger] after[i]).id != (#[trigger] after[j]).id by {
                        assert(after[i].id == before[i].id && after[j].id == before[j].id);
                    }
                }
            },
            None => {},
        }
    }

    /// A query for the entries within the two bounds and, where `name` is
    /// given, under that name. Nothing is read until the query is run.
    pub fn range(&self, start_bound: Bound<i64>, end_bound: Bound<i64>, name: Option<&str>) -> (made:
        Result<MemoryRange, Error>)
        ensures
            made is Ok <==> well_formed_bounds(start_bound, end_bound),
            made matches Ok(range) ==> range@ == (RangeView {
                start_bound,
                end_bound,
                name: match name {
                    Some(name) => Some(name@),
                    None => None,
                },
            }),
            made matches Err(error) ==> error is BadRange,
    {
        MemoryRange::new(start_bound, end_bound, name)
    }
}

/// A query over a `MemoryStore`.
pub struct MemoryRange {
    start_bound: Bound<i64>,
    end_bound: Bound<i64>,
    name: Option<String>,
}

impl View for MemoryRange {
    type V = RangeView;

    closed spec fn view(&self) -> RangeView {
        RangeView {
            start_bound: self.start_bound,
            end_bound: self.end_bound,
            name: match self.name {
                Some(name) => Some(name@),
                None => None,
            },
        }
    }
}

/// Where the entries with a timestamp of at least `least` begin.
fn seek(entries: &Vec<Entry>, least: i64) -> (at: usize)
    requires
        ordered(entry_views(entries@)),
    ensures
        at <= entries.len(),
        forall|i: int| 0 <= i < at ==> (#[trigger] entries@[i]).timestamp < least,
        forall|i: int| at <= i < entries.len() ==> (#[trigger] entries@[i]).timestamp >= least,
{
    let ghost log = entry_views(entries@);
    let mut low: usize = 0;
    let mut high: usize = entries.len();
    while low < high
        invariant
            low <= high <= entries.len(),
            log == entry_views(entries@),
            ordered(log),
            forall|i: int| 0 <= i < low ==> (#[trigger] entries@[i]).timestamp < least,
            forall|i: int| high <= i < entries.len() ==> (#[trigger] entries@[i]).timestamp >= least,
        decreases high - low,
    {
        let middle = low + (high - low) / 2;
        if entries[middle].timestamp < least {
            assert forall|i: int| 0 <= i < middle + 1 implies (#[trigger] entries@[i]).timestamp
                < least by {
                assert(key_le(log[i], log[middle as int]));
            }
            low = middle + 1;
        } else {
            assert forall|i: int| middle <= i < entries.len() implies (
            #[trigger] entries@[i]).timestamp >= least by {
                assert(key_le(log[middle as int], log[i]));
            }
            high = middle;
        }
    }
    low
}

impl MemoryRange {
    /// A query with the given bounds and name, where the bounds are accepted.
    pub fn new(start_bound: Bound<i64>, end_bound: Bound<i64>, name: Option<&str>) -> (made: Result<
        MemoryRange,
        Error,
    >)
        ensures
            made is Ok <==> well_formed_bounds(start_bound, end_bound),
            made matches Ok(range) ==> range@ == (RangeView {
                start_bound,
                end_bound,
                name: match name {
                    Some(name) => Some(name@),
                    None => None,
                },
            }),
            made matches Err(error) ==> error is BadRange,
    {
        let start_ref = match &start_bound {
            Bound::Included(ts) => Bound::Included(ts),
            Bound::Excluded(ts) => Bound::Excluded(ts),
            Bound::Unbounded => Bound::Unbounded,
        };
        let end_ref = match &end_bound {
            Bound::Included(ts) => Bound::Included(ts),
            Bound::Excluded(ts) => Bound::Excluded(ts),
            Bound::Unbounded => Bound::Unbounded,
        };
        match check_bounds(start_ref, end_ref) {
            Ok(()) => {
                let name = match name {
                    Some(name) => Some(String::from_str(name)),
                    None => None,
                };
                Ok(MemoryRange { start_bound, end_bound, name })
            },
            Err(error) => Err(error),
        }
    }

    /// The least timestamp that the start bound admits, if it admits any.
    fn full_start_bound(&self) -> (least: Option<i64>)
        ensures
            match least {
                Some(least) => forall|ts: i64|
                    #[trigger] after_start(self@.start_bound, ts as int) <==> least <= ts,
                None => forall|ts: i64| !#[trigger] after_start(self@.start_bound, ts as int),
            },
    {
        match self.start_bound {
            Bound::Included(timestamp) => Some(timestamp),
            Bound::Excluded(timestamp) => if timestamp < i64::MAX {
                Some(timestamp + 1)
            } else {
                None
            },
            Bound::Unbounded => Some(i64::MIN),
        }
    }

    /// Whether `timestamp` lies beyond the end bound, so that a scan in
    /// storage order can stop.
    fn done_iterating_in_range(&self, timestamp: i64) -> (done: bool)
        ensures
            done == !before_end(self@.end_bound, timestamp as int),
    {
        match self.end_bound {
            Bound::Included(end_bound_timestamp) => timestamp > end_bound_timestamp,
            Bound::Excluded(end_bound_timestamp) => timestamp >= end_bound_timestamp,
            Bound::Unbounded => false,
        }
    }

    /// Whether the query asks for one name and `name` is another.
    fn filter_name_in_range(&self, name: &String) -> (filtered: bool)
        ensures
            filtered == (self@.name matches Some(expected_name) && expected_name != name@),
    {
        match &self.name {
            Some(expected_name) => !(*name == *expected_name),
            None => false,
        }
    }

    /// The part of the store's entries in which the selected ones lie: the
    /// index of the first with an admitted timestamp and the index behind the
    /// last, and whether each entry in between is selected.
    fn span(&self, entries: &Vec<Entry>) -> (ends: (usize, usize))
        requires
            ordered(entry_views(entries@)),
        ensures
            ends.0 <= ends.1 <= entries.len(),
            forall|i: int|
                0 <= i < entries.len() ==> (self@.matches((#[trigger] entries@[i])@) <==> ends.0
                    <= i < ends.1 && !(self@.name matches Some(expected_name) && expected_name
                    != entries@[i].name@)),
    {
        let ghost log = entry_views(entries@);
        match self.full_start_bound() {
            None => {
                assert forall|i: int| 0 <= i < entries.len() implies !self@.matches(
                    (#[trigger] entries@[i])@,
                ) by {
                    assert(!after_start(self@.start_bound, entries@[i].timestamp as int));
                }
                (0, 0)
            },
            Some(least) => {
                let first = seek(entries, least);
                let mut behind: usize = first;
                while behind < entries.len() && !self.done_iterating_in_range(
                    entries[behind].timestamp,
                )
                    invariant
                        first <= behind <= entries.len(),
                        forall|i: int|
                            first <= i < behind ==> before_end(
                                self@.end_bound,
                                (#[trigger] entries@[i]).timestamp as int,
                            ),
                    decreases entries.len() - behind,
                {
                    behind += 1;
                }
                assert forall|i: int| 0 <= i < entries.len() implies (self@.matches(
                    (#[trigger] entries@[i])@,
                ) <==> first <= i < behind && !(self@.name matches Some(expected_name)
                    && expected_name != entries@[i].name@)) by {
                    assert(after_start(self@.start_bound, entries@[i].timestamp as int) <==> least
                        <= entries@[i].timestamp);
                    if i >= behind {
                        assert(key_le(log[behind as int], log[i]));
                    }
                }
                (first, behind)
            },
        }
    }

    /// The number of entries that the query selects.
    pub fn count(&self, store: &MemoryStore) -> (counted: Result<u64, Error>)
        requires
            store.well_formed(),
        ensures
            counted matches Ok(count) && count == select(store.log(), self@).len(),
    {
        let ghost log = store.log();
        let ghost keep = self@.selector();
        let (first, behind) = self.span(&store.entries);
        let mut count: u64 = 0;
        let mut at: usize = first;
        proof {
            lemma_filter_nothing(log, keep);
            lemma_filter_skip(log, keep, 0, first as int);
        }
        while at < behind
            invariant
                first <= at <= behind <= store.entries.len(),
                log == entry_views(store.entries@),
                keep == self@.selector(),
                count == log.take(at as int).filter(keep).len(),
                count <= at,
                forall|i: int|
                    0 <= i < store.entries.len() ==> (self@.matches(
                        (#[trigger] store.entries@[i])@,
                    ) <==> first <= i < behind && !(self@.name matches Some(expected_name)
                        && expected_name != store.entries@[i].name@)),
            decreases behind - at,
        {
            proof {
                lemma_filter_step(log, keep, at as int);
            }
            if !self.filter_name_in_range(&store.entries[at].name) {
                count += 1;
            }
            at += 1;
        }
        proof {
            lemma_filter_skip(log, keep, behind as int, log.len() as int);
            assert(log.take(log.len() as int) =~= log);
        }
        Ok(count)
    }

    /// The entries that the query selects, in storage order: by ascending
    /// timestamp, then by name, then as they were pushed.
    pub fn iter(self, store: &MemoryStore) -> (listed: Result<Vec<Entry>, Error>)
        requires
            store.well_formed(),
        ensures
            listed matches Ok(entries) && entry_views(entries@) == select(store.log(), self@),
            listed matches Ok(entries) && ordered(entry_views(entries@)),
    {
        let ghost log = store.log();
        let ghost keep = self@.selector();
        let (first, behind) = self.span(&store.entries);
        let mut returnable_entries: Vec<Entry> = Vec::new();
        let mut at: usize = first;
        proof {
            lemma_filter_nothing(log, keep);
            lemma_filter_skip(log, keep, 0, first as int);
            assert(entry_views(returnable_entries@) =~= Seq::<EntryView>::empty());
        }
        while at < behind
            invariant
                first <= at <= behind <= store.entries.len(),
                log == entry_views(store.entries@),
                keep == self@.selector(),
                entry_views(returnable_entries@) == log.take(at as int).filter(keep),
                forall|i: int|
                    0 <= i < store.entries.len() ==> (self@.matches(
                        (#[trigger] store.entries@[i])@,
                    ) <==> first <= i < behind && !(self@.name matches Some(expected_name)
                        && expected_name != store.entries@[i].name@)),
            decreases behind - at,
        {
            proof {
                lemma_filter_step(log, keep, at as int);
            }
            if !self.filter_name_in_range(&store.entries[at].name) {
                let copy = store.entries[at].clone();
                proof {
                    assert(entry_views(returnable_entries@.push(copy)) =~= entry_views(
                        returnable_entries@,
                    ).push(copy@));
                }
                returnable_entries.push(copy);
            }
            at += 1;
        }
        proof {
            lemma_filter_skip(log, keep, behind as int, log.len() as int);
            assert(log.take(log.len() as int) =~= log);
            lemma_filter_keeps_order(log, keep);
        }
        Ok(returnable_entries)
    }

    /// Removes from the store the entries that the query selects.
    pub fn remove(self, store: &mut MemoryStore) -> (removed: Result<(), Error>)
        requires
            old(store).well_formed(),
        ensures
            final(store).well_formed(),
            removed is Ok,
            final(store).log() == without(old(store).log(), self@),
            final(store).subscribers() == old(store).subscribers(),
            final(store).issued() == old(store).issued(),
    {
        let ghost log = store.log();
        let ghost keep = self@.rejector();
        let (first, behind) = self.span(&store.entries);
        let ghost all = store.entries@;
        let mut rest = store.entries.split_off(behind);
        let candidates = store.entries.split_off(first);
        proof {
            lemma_filter_nothing(log, keep);
            lemma_filter_keep(log, keep, 0, first as int);
            assert(entry_views(store.entries@) =~= log.subrange(0, first as int));
            assert(Seq::<EntryView>::empty() + log.subrange(0, first as int) =~= log.subrange(
                0,
                first as int,
            ));
        }
        let ghost middle = candidates@;
        for candidate in it: candidates.into_iter()
            invariant
                it.seq() == middle,
                middle == all.subrange(first as int, behind as int),
                first <= behind <= all.len(),
                log == entry_views(all),
                keep == self@.rejector(),
                store.subscribers == old(store).subscribers,
                store.issued == old(store).issued,
                entry_views(store.entries@) == log.take(first + it.index()).filter(keep),
                forall|i: int|
                    0 <= i < all.len() ==> (self@.matches((#[trigger] all[i])@) <==> first <= i
                        < behind && !(self@.name matches Some(expected_name) && expected_name
                        != all[i].name@)),
        {
            proof {
                lemma_filter_step(log, keep, first + it.index());
                assert(candidate == all[first + it.index()]);
            }
            if self.filter_name_in_range(&candidate.name) {
                proof {
                    assert(entry_views(store.entries@.push(candidate)) =~= entry_views(
                        store.entries@,
                    ).push(candidate@));
                }
                store.entries.push(candidate);
            }
        }
        proof {
            lemma_filter_keep(log, keep, behind as int, log.len() as int);
            assert(log.take(log.len() as int) =~= log);
            assert(entry_views(store.entries@ + rest@) =~= entry_views(store.entries@)
                + log.subrange(behind as int, log.len() as int));
            lemma_filter_keeps_order(log, keep);
        }
        store.entries.append(&mut rest);
        Ok(())
    }
}

impl MemoryStreamSubscription {
    /// Takes the oldest entry that waits for the listener, if one waits.
    pub fn next(&self, store: &mut MemoryStore) -> (taken: Result<Option<Entry>, Error>)
        requires
            old(store).well_formed(),
        ensures
            final(store).well_formed(),
            final(store).log() == old(store).log(),
            final(store).issued() == old(store).issued(),
            final(store).subscribers() == after_take(old(store).subscribers(), self.id()),
            taken matches Ok(entry) && match entry {
                Some(entry) => pending_of(old(store).subscribers(), self.id()).len() > 0
                    && entry@ == pending_of(old(store).subscribers(), self.id())[0],
                None => pending_of(old(store).subscribers(), self.id()).len() == 0,
            },
    {
        match store.find(self.id) {
            Some(at) => {
                let ghost before = subscriber_views(store.subscribers@);
                let ghost waiting = store.subscribers@[at as int].pending@;
                let entry = store.subscribers[at].pending.pop_front();
                proof {
                    let after = subscriber_views(store.subscribers@);
                    if waiting.len() > 0 {
                        assert(entry_views(waiting.skip(1)) =~= entry_views(waiting).skip(1));
                    }
                    assert(after =~= after_take(before, self.id));
                    assert forall|i: int, j: int| 0 <= i < j < after.len() implies (
                    #[trigger] after[i]).id != (#[trigger] after[j]).id by {
                        assert(after[i].id == before[i].id && after[j].id == before[j].id);
                    }
                }
                Ok(entry)
            },
            None => Ok(None),
        }
    }
}

impl Store for MemoryStore {
    open spec fn valid(&self) -> bool {
        self.well_formed()
    }

    open spec fn entries(&self) -> Seq<EntryView> {
        self.log()
    }

    fn push(&mut self, entry: &Entry) -> (pushed: Result<(), Error>)
        ensures
            pushed is Ok,
            final(self).log() == log_insert(old(self).log(), entry@),
            final(self).subscribers() == notified(old(self).subscribers(), entry@),
            final(self).issued() == old(self).issued(),
    {
        proof {
            self.lemma_well_formed();
            lemma_insertion_point(self.log(), entry@);
        }
        MemoryStore::push(self, entry)
    }

    fn latest(&self, name: &str) -> (found: Result<Option<Entry>, Error>)
        ensures
            found matches Ok(entry) && match entry {
                Some(entry) => latest(self.log(), name@) == Some(entry@),
                None => latest(self.log(), name@) is None,
            },
    {
        proof {
            self.lemma_well_formed();
            lemma_latest_is_highest(self.log(), name@);
        }
        MemoryStore::latest(self, name)
    }
}

impl Range<MemoryStore> for MemoryRange {
    open spec fn query(&self) -> RangeView {
        self@
    }

    fn count(&self, store: &MemoryStore) -> (counted: Result<u64, Error>)
        ensures
            counted matches Ok(count) && count == select(store.log(), self@).len(),
    {
        MemoryRange::count(self, store)
    }

    fn remove(self, store: &mut MemoryStore) -> (removed: Result<(), Error>)
        ensures
            removed is Ok,
            final(store).log() == without(old(store).log(), self@),
            final(store).subscribers() == old(store).subscribers(),
            final(store).issued() == old(store).issued(),
    {
        MemoryRange::remove(self, store)
    }

    fn iter(self, store: &MemoryStore) -> (listed: Result<Vec<Entry>, Error>)
        ensures
            listed matches Ok(entries) && entry_views(entries@) == select(store.log(), self@),
            listed matches Ok(entries) && ordered(entry_views(entries@)),
    {
        MemoryRange::iter(self, store)
    }
}

impl RangeableStore for MemoryStore {
    type Range = MemoryRange;

    fn range(&self, start_bound: Bound<i64>, end_bound: Bound<i64>, name: Option<&str>) -> (made:
        Result<MemoryRange, Error>) {
        MemoryRange::new(start_bound, end_bound, name)
    }
}

impl Subscription<MemoryStore> for MemoryStreamSubscription {
    open spec fn waiting(&self, store: &MemoryStore) -> Seq<EntryView> {
        pending_of(store.subscribers(), self.id())
    }

    fn next(&self, store: &mut MemoryStore) -> (taken: Result<Option<Entry>, Error>)
        ensures
            final(store).issued() == old(store).issued(),
            final(store).subscribers() == after_take(old(store).subscribers(), self.id()),
            taken matches Ok(entry) && match entry {
                Some(entry) => pending_of(old(store).subscribers(), self.id()).len() > 0
                    && entry@ == pending_of(old(store).subscribers(), self.id())[0],
                None => pending_of(old(store).subscribers(), self.id()).len() == 0,
            },
    {
        proof {
            store.lemma_well_formed();
            if pending_of(store.subscribers(), self.id()).len() > 0 {
                lemma_take_is_oldest_first(store.subscribers(), self.id());
            }
        }
        MemoryStreamSubscription::next(self, store)
    }
}

impl SubscribeableStore for MemoryStore {
    type Subscription = MemoryStreamSubscription;

    fn subscribe(&mut self, name: &str) -> (opened: Result<MemoryStreamSubscription, Error>)
        ensures
            opened is Ok <==> old(self).issued() < u64::MAX,
            opened matches Ok(subscription) ==> {
                &&& subscription.id() == old(self).issued()
                &&& final(self).issued() == old(self).issued() + 1
                &&& final(self).subscribers() == old(self).subscribers().push(
                    SubscriberView {
                        id: subscription.id(),
                        name: name@,
                        alive: true,
                        pending: Seq::empty(),
                    },
                )
            },
            opened matches Err(error) ==> {
                &&& error is Database
                &&& final(self).issued() == old(self).issued()
                &&& final(self).subscribers() == old(self).subscribers()
            },
    {
        proof {
            self.lemma_well_formed();
            let new = SubscriberView {
                id: self.issued(),
                name: name@,
                alive: true,
                pending: Seq::empty(),
            };
            if registered(self.subscribers(), self.issued()) {
                let at = index_of(self.subscribers(), self.issued());
                assert(self.subscribers()[at].id < self.issued());
            }
            lemma_new_listener_waits_for_nothing(self.subscribers(), new);
        }
        MemoryStore::subscribe(self, name)
    }
}

} // verus!
