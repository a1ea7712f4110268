//! What every engine offers, stated over what the engine holds: a sequence
//! of entries in the order in which ranges hand them out.

use vstd::prelude::*;
use std::ops::Bound;
use crate::entry::{Entry, EntryView};
use crate::errors::Error;
use crate::model::{entry_views, select, without, RangeView};
use crate::utils::well_formed_bounds;

verus! {

/// Whether `after` is `before` with `entry` added in one place.
pub open spec fn pushed_to(before: Seq<EntryView>, entry: EntryView, after: Seq<EntryView>) -> bool {
    exists|at: int| 0 <= at <= before.len() && after == #[trigger] before.insert(at, entry)
}

/// Whether `found` is what `latest` may report of `entries` for `name`: an
/// entry under the name that none under the name exceeds in its timestamp,
/// or nothing where there is no entry under the name.
pub open spec fn is_latest(entries: Seq<EntryView>, name: Seq<char>, found: Option<EntryView>) -> bool {
    match found {
        Some(entry) => {
            &&& entry.name == name
            &&& entries.contains(entry)
            &&& forall|i: int|
                0 <= i < entries.len() && (#[trigger] entries[i]).name == name ==> entries[i].timestamp
                    <= entry.timestamp
        },
        None => forall|i: int| 0 <= i < entries.len() ==> (#[trigger] entries[i]).name != name,
    }
}

/// A log to which entries are pushed.
pub trait Store {
    /// Whether the store is in a state that its operations accept. Every
    /// operation leaves it so.
    spec fn valid(&self) -> bool;

    /// What the store holds, in the order in which ranges hand it out.
    spec fn entries(&self) -> Seq<EntryView>;

    /// Adds `entry` to the store. After a push that succeeded the entry is
    /// there, once more than before, and the others are in their order; a
    /// push that failed has changed nothing.
    fn push(&mut self, entry: &Entry) -> (pushed: Result<(), Error>)
        requires
            old(self).valid(),
        ensures
            final(self).valid(),
            pushed is Ok ==> pushed_to(old(self).entries(), entry@, final(self).entries()),
            pushed is Err ==> final(self).entries() == old(self).entries(),
    ;

    /// The entry under `name` with the highest timestamp, if there is one
    /// under the name.
    fn latest(&self, name: &str) -> (found: Result<Option<Entry>, Error>)
        requires
            self.valid(),
        ensures
            found matches Ok(found) ==> is_latest(
                self.entries(),
                name@,
                match found {
                    Some(entry) => Some(entry@),
                    None => None,
                },
            ),
    ;
}

/// A query over a store of type `S`. Nothing is read before the query is
/// run.
pub trait Range<S: Store>: Sized {
    /// What the query selects.
    spec fn query(&self) -> RangeView;

    /// The number of entries that the query selects.
    fn count(&self, store: &S) -> (counted: Result<u64, Error>)
        requires
            store.valid(),
        ensures
            counted matches Ok(count) ==> count == select(store.entries(), self.query()).len(),
    ;

    /// Removes the entries that the query selects, and no other.
    fn remove(self, store: &mut S) -> (removed: Result<(), Error>)
        requires
            old(store).valid(),
        ensures
            final(store).valid(),
            removed is Ok ==> final(store).entries() == without(
                old(store).entries(),
                self.query(),
            ),
    ;

    /// The entries that the query selects, in the order of the store.
    fn iter(self, store: &S) -> (listed: Result<Vec<Entry>, Error>)
        requires
            store.valid(),
        ensures
            listed matches Ok(entries) ==> entry_views(entries@) == select(
                store.entries(),
                self.query(),
            ),
    ;
}

/// A store over which ranges can be queried.
pub trait RangeableStore: Store + Sized {
    type Range: Range<Self>;

    /// A query for the entries within the two bounds and, where `name` is
    /// given, under that name; `BadRange` where the bounds are reversed or
    /// equal with an exclusive side, and only there.
    fn range(&self, start_bound: Bound<i64>, end_bound: Bound<i64>, name: Option<&str>) -> (made:
        Result<Self::Range, Error>)
        ensures
            made is Ok <==> well_formed_bounds(start_bound, end_bound),
            made matches Err(error) ==> error is BadRange,
            made matches Ok(range) ==> range.query() == (RangeView {
                start_bound,
                end_bound,
                name: match name {
                    Some(name) => Some(name@),
                    None => None,
                },
            }),
    ;
}

/// A listener on a store of type `S`.
pub trait Subscription<S: Store>: Sized {
    /// The entries that wait for the listener in `store`, oldest first.
    spec fn waiting(&self, store: &S) -> Seq<EntryView>;

    /// Takes the oldest entry that waits for the listener, if one waits.
    /// What waits behind it stays in its order.
    fn next(&self, store: &mut S) -> (taken: Result<Option<Entry>, Error>)
        requires
            old(store).valid(),
        ensures
            final(store).valid(),
            final(store).entries() == old(store).entries(),
            taken matches Ok(Some(entry)) ==> (self.waiting(old(store)).len() > 0 && entry@
                == self.waiting(old(store))[0] && self.waiting(final(store)) == self.waiting(
                old(store),
            ).skip(1)),
            taken matches Ok(None) ==> self.waiting(final(store)) == self.waiting(old(store)),
    ;
}

/// A store that hands the entries pushed to it to listeners.
pub trait SubscribeableStore: Store + Sized {
    type Subscription: Subscription<Self>;

    /// Registers a listener on `name`. Nothing waits for it yet: it is
    /// handed what is pushed from now on.
    fn subscribe(&mut self, name: &str) -> (opened: Result<Self::Subscription, Error>)
        requires
            old(self).valid(),
        ensures
            final(self).valid(),
            final(self).entries() == old(self).entries(),
            opened matches Ok(subscription) ==> subscription.waiting(final(self)).len() == 0,
    ;
}

} // verus!
