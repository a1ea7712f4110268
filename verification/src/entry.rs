use vstd::prelude::*;
use vstd::string::StringExecFns;
use std::time::{Duration, SystemTime, SystemTimeError};
use crate::errors::Error;

verus! {

/// `std::time::SystemTime`, a reading of the system clock: carried, never
/// looked into.
#[verifier::external_type_specification]
#[verifier::external_body]
pub struct ExSystemTime(SystemTime);

/// `std::time::SystemTimeError`, the error of a clock that stands before
/// the moment it is compared with: carried, never looked into.
#[verifier::external_type_specification]
#[verifier::external_body]
pub struct ExSystemTimeError(SystemTimeError);

/// `SystemTime::now` reads the system clock. Nothing is claimed of what it
/// returns.
pub assume_specification[ SystemTime::now ]() -> (now: SystemTime);

/// `Duration::as_micros` gives a duration in whole microseconds. Nothing is
/// claimed of the number.
pub assume_specification[ Duration::as_micros ](elapsed: &Duration) -> (micros: u128);

/// `SystemTime::duration_since`, applied to the Unix epoch: the time that
/// has passed since the epoch, or an error where the clock stands before it.
/// Nothing is claimed of the outcome.
#[verifier::external_body]
fn since_unix_epoch(moment: &SystemTime) -> (elapsed: Result<Duration, SystemTimeError>) {
    moment.duration_since(std::time::UNIX_EPOCH)
}

/// A number of microseconds since the epoch as a timestamp, where it fits in
/// 64 signed bits; `TimeTooLarge` where it does not.
pub fn micros_to_timestamp(micros: u128) -> (timestamp: Result<i64, Error>)
    ensures
        match timestamp {
            Ok(timestamp) => timestamp == micros,
            Err(error) => micros > i64::MAX && error is TimeTooLarge,
        },
{
    if micros <= 0x7fff_ffff_ffff_ffff {
        Ok(micros as i64)
    } else {
        Err(Error::TimeTooLarge)
    }
}

/// The reading of the system clock as a timestamp: never negative.
///
/// Fails with `TimeTooLarge` where the reading cannot be held as a
/// non-negative number of microseconds in 64 signed bits.
pub fn now_micros() -> (timestamp: Result<i64, Error>)
    ensures
        match timestamp {
            Ok(timestamp) => timestamp >= 0,
            Err(error) => error is TimeTooLarge,
        },
{
    let now = SystemTime::now();
    match since_unix_epoch(&now) {
        Ok(elapsed) => micros_to_timestamp(elapsed.as_micros()),
        Err(_) => Err(Error::TimeTooLarge),
    }
}

/// One record of the log: a timestamp in microseconds since the epoch, the
/// name of the timeline it belongs to, and an opaque payload.
#[derive(Debug, PartialEq, Eq)]
pub struct Entry {
    pub timestamp: i64,
    pub name: String,
    pub value: Vec<u8>,
}

/// An entry as a mathematical value.
pub struct EntryView {
    pub timestamp: int,
    pub name: Seq<char>,
    pub value: Seq<u8>,
}

impl View for Entry {
    type V = EntryView;

    open spec fn view(&self) -> EntryView {
        EntryView { timestamp: self.timestamp as int, name: self.name@, value: self.value@ }
    }
}

impl Clone for Entry {
    fn clone(&self) -> (copy: Entry)
        ensures
            copy@ == self@,
    {
        Entry { timestamp: self.timestamp, name: self.name.clone(), value: self.value.clone() }
    }
}

impl Entry {
    /// An entry stamped with the current time of the system clock.
    ///
    /// Fails with `TimeTooLarge` where the clock's reading cannot be held as
    /// a non-negative number of microseconds in 64 signed bits.
    pub fn new(name: &str, value: Vec<u8>) -> (made: Result<Entry, Error>)
        ensures
            match made {
                Ok(entry) => entry.timestamp >= 0 && entry.name@ == name@ && entry.value
                    == value,
                Err(error) => error is TimeTooLarge,
            },
    {
        match now_micros() {
            Ok(timestamp) => Ok(Entry::new_with_timestamp(timestamp, name, value)),
            Err(error) => Err(error),
        }
    }

    /// An entry stamped `micros` microseconds after the epoch, where that
    /// number fits in 64 signed bits; `TimeTooLarge` where it does not.
    pub fn from_micros(micros: u128, name: &str, value: Vec<u8>) -> (made: Result<Entry, Error>)
        ensures
            micros <= i64::MAX ==> made is Ok,
            match made {
                Ok(entry) => entry.timestamp == micros && entry.name@ == name@ && entry.value
                    == value,
                Err(error) => micros > i64::MAX && error is TimeTooLarge,
            },
    {
        match micros_to_timestamp(micros) {
            Ok(timestamp) => Ok(Entry::new_with_timestamp(timestamp, name, value)),
            Err(error) => Err(error),
        }
    }

    /// An entry with the given timestamp, name and payload.
    pub fn new_with_timestamp(timestamp: i64, name: &str, value: Vec<u8>) -> (entry: Entry)
        ensures
            entry.timestamp == timestamp,
            entry.name@ == name@,
            entry.value == value,
    {
        Entry { timestamp, name: String::from_str(name), value }
    }
}

} // verus!
