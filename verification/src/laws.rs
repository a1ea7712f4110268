//! What holds of the log whatever is pushed, selected, removed or listened
//! to: statements over the model, each proved from its definitions.

use vstd::prelude::*;
use crate::entry::EntryView;
use crate::model::{
    after_take, delivered, distinct_ids, index_of, insertion_point, key_le, latest,
    lemma_filter_keep, lemma_filter_keeps_order, lemma_insertion_point, lemma_notified_ids,
    log_insert, named, notified, ordered, pending_of, registered, select, survives, without,
    RangeView, SubscriberView,
};

verus! {

/// An entry that was pushed is selected by every query that matches it: the
/// query then selects one entry more than before, the pushed one among
/// them, with its timestamp, name and payload as they were pushed.
pub proof fn lemma_pushed_entry_is_selected(
    log: Seq<EntryView>,
    entry: EntryView,
    range: RangeView,
)
    requires
        ordered(log),
        range.matches(entry),
    ensures
        select(log_insert(log, entry), range).contains(entry),
        select(log_insert(log, entry), range).len() == select(log, range).len() + 1,
{
    lemma_insertion_point(log, entry);
    let at = insertion_point(log, entry);
    let keep = range.selector();
    let front = log.take(at);
    let back = log.skip(at);
    let one = seq![entry];
    assert(log_insert(log, entry) =~= front + one + back);
    assert(log =~= front + back);
    Seq::filter_distributes_over_add(front + one, back, keep);
    Seq::filter_distributes_over_add(front, one, keep);
    Seq::filter_distributes_over_add(front, back, keep);
    assert(one.filter(keep) =~= one) by {
        reveal(Seq::filter);
        assert(one.drop_last() =~= Seq::<EntryView>::empty());
        assert(Seq::<EntryView>::empty().push(entry) =~= one);
    }
    let selected = front.filter(keep) + one + back.filter(keep);
    assert(selected[front.filter(keep).len() as int] == entry);
}

/// A query that matches no pushed entry selects what it selected before.
pub proof fn lemma_other_entry_is_not_selected(
    log: Seq<EntryView>,
    entry: EntryView,
    range: RangeView,
)
    requires
        ordered(log),
        !range.matches(entry),
    ensures
        select(log_insert(log, entry), range) == select(log, range),
{
    lemma_insertion_point(log, entry);
    let at = insertion_point(log, entry);
    let keep = range.selector();
    let front = log.take(at);
    let back = log.skip(at);
    let one = seq![entry];
    assert(log_insert(log, entry) =~= front + one + back);
    assert(log =~= front + back);
    Seq::filter_distributes_over_add(front + one, back, keep);
    Seq::filter_distributes_over_add(front, one, keep);
    Seq::filter_distributes_over_add(front, back, keep);
    assert(one.filter(keep) =~= Seq::<EntryView>::empty()) by {
        reveal(Seq::filter);
        assert(one.last() == entry);
        assert(!keep(entry));
        assert(one.drop_last().len() == 0);
        assert(one.drop_last().filter(keep).len() == 0);
    }
    assert(front.filter(keep) + Seq::<EntryView>::empty() =~= front.filter(keep));
}

/// Removing what a query selects, where it selects nothing, leaves the log
/// as it was.
pub proof fn lemma_empty_remove_changes_nothing(log: Seq<EntryView>, range: RangeView)
    requires
        select(log, range).len() == 0,
    ensures
        without(log, range) == log,
{
    let reject = range.rejector();
    assert forall|j: int| 0 <= j < log.len() implies reject(#[trigger] log[j]) by {
        if range.matches(log[j]) {
            log.lemma_filter_contains(range.selector(), j);
        }
    }
    lemma_filter_keep(log, reject, 0, log.len() as int);
    assert(log.take(0).filter(reject) =~= Seq::<EntryView>::empty()) by {
        reveal(Seq::filter);
    }
    assert(log.take(log.len() as int) =~= log);
    assert(Seq::<EntryView>::empty() + log.subrange(0, log.len() as int) =~= log);
}

/// After a query's entries were removed the query selects nothing, and
/// removing them once more changes nothing.
pub proof fn lemma_remove_is_idempotent(log: Seq<EntryView>, range: RangeView)
    ensures
        select(without(log, range), range).len() == 0,
        without(without(log, range), range) == without(log, range),
{
    let left = without(log, range);
    let selected = select(left, range);
    if selected.len() > 0 {
        left.lemma_filter_pred(range.selector(), 0);
        assert(left.contains(selected[0])) by {
            assert(selected.contains(selected[0]));
            left.lemma_filter_contains_rev(range.selector(), selected[0]);
        }
        let m = choose|m: int| 0 <= m < left.len() && left[m] == selected[0];
        log.lemma_filter_pred(range.rejector(), m);
    }
    lemma_empty_remove_changes_nothing(left, range);
}

/// Removing a query's entries leaves those that another query selects and
/// that the first does not match, in their order.
pub proof fn lemma_remove_keeps_order(log: Seq<EntryView>, range: RangeView)
    requires
        ordered(log),
    ensures
        ordered(without(log, range)),
{
    lemma_filter_keeps_order(log, range.rejector());
}

/// What `latest` reports is an entry of the log under the name, and no entry
/// under the name has a higher timestamp. It reports nothing only where no
/// entry is under the name.
pub proof fn lemma_latest_is_highest(log: Seq<EntryView>, name: Seq<char>)
    requires
        ordered(log),
    ensures
        match latest(log, name) {
            Some(entry) => {
                &&& entry.name == name
                &&& log.contains(entry)
                &&& forall|i: int|
                    0 <= i < log.len() && (#[trigger] log[i]).name == name ==> log[i].timestamp
                        <= entry.timestamp
            },
            None => forall|i: int| 0 <= i < log.len() ==> (#[trigger] log[i]).name != name,
        },
{
    let under_name = log.filter(named(name));
    if under_name.len() == 0 {
        assert forall|i: int| 0 <= i < log.len() implies (#[trigger] log[i]).name != name by {
            if log[i].name == name {
                log.lemma_filter_contains(named(name), i);
            }
        }
    } else {
        let entry = under_name.last();
        log.lemma_filter_pred(named(name), under_name.len() - 1);
        assert(under_name.contains(entry));
        log.lemma_filter_contains_rev(named(name), entry);
        lemma_filter_keeps_order(log, named(name));
        assert forall|i: int| 0 <= i < log.len() && (#[trigger] log[i]).name == name implies log[i]
            .timestamp <= entry.timestamp by {
            log.lemma_filter_contains(named(name), i);
            let k = choose|k: int| 0 <= k < under_name.len() && under_name[k] == log[i];
            assert(key_le(under_name[k], under_name[under_name.len() - 1]));
        }
    }
}

/// A push reaches every listener whose handle is held: an entry under the
/// listener's name joins the end of what waits for it, and any other entry
/// leaves that as it was. So a listener is handed the entries of its name in
/// the order in which they were pushed, each once.
pub proof fn lemma_push_reaches_listener(
    subscribers: Seq<SubscriberView>,
    entry: EntryView,
    id: u64,
)
    requires
        distinct_ids(subscribers),
        registered(subscribers, id),
        subscribers[index_of(subscribers, id)].alive,
    ensures
        registered(notified(subscribers, entry), id),
        notified(subscribers, entry)[index_of(notified(subscribers, entry), id)]
            == delivered(entry)(subscribers[index_of(subscribers, id)]),
        pending_of(notified(subscribers, entry), id) == if subscribers[index_of(
            subscribers,
            id,
        )].name == entry.name {
            pending_of(subscribers, id).push(entry)
        } else {
            pending_of(subscribers, id)
        },
{
    let at = index_of(subscribers, id);
    let listener = subscribers[at];
    let kept = subscribers.filter(survives(entry));
    let after = notified(subscribers, entry);
    subscribers.lemma_filter_contains(survives(entry), at);
    let k = choose|k: int| 0 <= k < kept.len() && kept[k] == listener;
    assert(after[k] == delivered(entry)(listener));
    assert(after[k].id == id);
    lemma_notified_ids(subscribers, entry);
    let found = index_of(after, id);
    if found < k {
        assert(after[found].id != after[k].id);
    } else if found > k {
        assert(after[k].id != after[found].id);
    }
}

/// A push hands nothing to a listener on another name, and nothing that is
/// in the log already reaches a listener that subscribes later: it starts
/// with nothing waiting.
pub proof fn lemma_new_listener_waits_for_nothing(
    subscribers: Seq<SubscriberView>,
    listener: SubscriberView,
)
    requires
        distinct_ids(subscribers),
        !registered(subscribers, listener.id),
        listener.pending.len() == 0,
    ensures
        distinct_ids(subscribers.push(listener)),
        registered(subscribers.push(listener), listener.id),
        pending_of(subscribers.push(listener), listener.id).len() == 0,
{
    let after = subscribers.push(listener);
    assert(after[subscribers.len() as int].id == listener.id);
    assert forall|i: int, j: int| 0 <= i < j < after.len() implies (#[trigger] after[i]).id != (
    #[trigger] after[j]).id by {
        if j == subscribers.len() {
            assert(subscribers[i].id == after[i].id);
        } else {
            assert(after[i] == subscribers[i] && after[j] == subscribers[j]);
        }
    }
    let found = index_of(after, listener.id);
    if found < subscribers.len() {
        assert(subscribers[found].id == listener.id);
    }
}

/// Taking hands out the oldest entry that waits and leaves the others in
/// their order: no entry is handed out twice.
pub proof fn lemma_take_is_oldest_first(subscribers: Seq<SubscriberView>, id: u64)
    requires
        distinct_ids(subscribers),
        pending_of(subscribers, id).len() > 0,
    ensures
        pending_of(after_take(subscribers, id), id) == pending_of(subscribers, id).skip(1),
{
    let at = index_of(subscribers, id);
    let after = after_take(subscribers, id);
    assert(after[at].id == id);
    let found = index_of(after, id);
    if found != at {
        assert(after[found] == subscribers[found]);
        if found < at {
            assert(subscribers[found].id != subscribers[at].id);
        } else {
            assert(subscribers[at].id != subscribers[found].id);
        }
    }
}

/// The registry after the entries of a sequence were pushed one after the
/// other.
pub open spec fn notified_all(subscribers: Seq<SubscriberView>, entries: Seq<EntryView>) -> Seq<
    SubscriberView,
>
    decreases entries.len(),
{
    if entries.len() == 0 {
        subscribers
    } else {
        notified(notified_all(subscribers, entries.drop_last()), entries.last())
    }
}

/// A listener whose handle is held is handed the entries that are pushed
/// under its name after it subscribed, all of them, in the order in which
/// they were pushed, behind what waited for it before.
pub proof fn lemma_listener_receives_in_push_order(
    subscribers: Seq<SubscriberView>,
    entries: Seq<EntryView>,
    id: u64,
)
    requires
        distinct_ids(subscribers),
        registered(subscribers, id),
        subscribers[index_of(subscribers, id)].alive,
    ensures
        distinct_ids(notified_all(subscribers, entries)),
        registered(notified_all(subscribers, entries), id),
        notified_all(subscribers, entries)[index_of(notified_all(subscribers, entries), id)].alive,
        notified_all(subscribers, entries)[index_of(notified_all(subscribers, entries), id)].name
            == subscribers[index_of(subscribers, id)].name,
        pending_of(notified_all(subscribers, entries), id) == pending_of(subscribers, id)
            + entries.filter(named(subscribers[index_of(subscribers, id)].name)),
    decreases entries.len(),
{
    let name = subscribers[index_of(subscribers, id)].name;
    if entries.len() == 0 {
        assert(entries.filter(named(name)) =~= Seq::<EntryView>::empty()) by {
            reveal(Seq::filter);
        }
        assert(pending_of(subscribers, id) + Seq::<EntryView>::empty() =~= pending_of(
            subscribers,
            id,
        ));
    } else {
        let earlier = entries.drop_last();
        let last = entries.last();
        lemma_listener_receives_in_push_order(subscribers, earlier, id);
        let before = notified_all(subscribers, earlier);
        lemma_push_reaches_listener(before, last, id);
        lemma_notified_ids(before, last);
        assert(entries.filter(named(name)) == if last.name == name {
            earlier.filter(named(name)).push(last)
        } else {
            earlier.filter(named(name))
        }) by {
            reveal(Seq::filter);
        }
        if last.name == name {
            assert((pending_of(subscribers, id) + earlier.filter(named(name))).push(last)
                =~= pending_of(subscribers, id) + earlier.filter(named(name)).push(last));
        }
    }
}

} // verus!
