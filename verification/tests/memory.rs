use binlog::{Entry, Error, MemoryStore};
use std::ops::Bound;

fn insert_sample_data(store: &mut MemoryStore, name: &str) {
    for i in 1..11u8 {
        let entry = Entry::new_with_timestamp(i.into(), name, vec![i]);
        store.push(&entry).unwrap();
    }
}

fn check_sample_data(results: Vec<Entry>, name: &str) {
    assert_eq!(results.len(), 10);
    for i in 1..11u8 {
        assert_eq!(results[(i - 1) as usize], Entry::new_with_timestamp(i.into(), name, vec![i]));
    }
}

fn count(store: &MemoryStore, start: Bound<i64>, end: Bound<i64>, name: Option<&str>) -> u64 {
    store.range(start, end, name).unwrap().count(store).unwrap()
}

fn list(store: &MemoryStore, start: Bound<i64>, end: Bound<i64>, name: Option<&str>) -> Vec<Entry> {
    store.range(start, end, name).unwrap().iter(store).unwrap()
}

#[test]
fn remove() {
    let mut store = MemoryStore::new();
    insert_sample_data(&mut store, "test_remove");
    assert_eq!(count(&store, Bound::Unbounded, Bound::Unbounded, None), 10);
    store
        .range(Bound::Included(2), Bound::Unbounded, None)
        .unwrap()
        .remove(&mut store)
        .unwrap();
    assert_eq!(count(&store, Bound::Unbounded, Bound::Unbounded, None), 1);
    assert_eq!(
        list(&store, Bound::Unbounded, Bound::Unbounded, None),
        vec![Entry::new_with_timestamp(1, "test_remove", vec![1])]
    );
    store
        .range(Bound::Unbounded, Bound::Unbounded, Some("test_remove"))
        .unwrap()
        .remove(&mut store)
        .unwrap();
    assert_eq!(count(&store, Bound::Unbounded, Bound::Unbounded, None), 0);
}

#[test]
fn iter() {
    let mut store = MemoryStore::new();
    insert_sample_data(&mut store, "test_iter");
    let results = list(&store, Bound::Unbounded, Bound::Unbounded, None);
    check_sample_data(results, "test_iter");
}

#[test]
fn latest() {
    let mut store = MemoryStore::new();
    assert_eq!(store.latest("test_latest").unwrap(), None);
    insert_sample_data(&mut store, "test_latest");
    assert_eq!(
        store.latest("test_latest").unwrap(),
        Some(Entry::new_with_timestamp(10, "test_latest", vec![10]))
    );
}

#[test]
fn pubsub() {
    let mut store = MemoryStore::new();
    let subscriber = store.subscribe("test_pubsub").unwrap();
    insert_sample_data(&mut store, "test_pubsub");
    let mut results = Vec::new();
    for _ in 0..10 {
        results.push(subscriber.next(&mut store).unwrap().unwrap());
    }
    check_sample_data(results, "test_pubsub");
    assert_eq!(subscriber.next(&mut store).unwrap(), None);
}

#[test]
fn the_log_is_kept_by_timestamp_then_name_then_arrival() {
    let mut store = MemoryStore::new();
    store.push(&Entry::new_with_timestamp(5, "b", vec![1])).unwrap();
    store.push(&Entry::new_with_timestamp(3, "z", vec![2])).unwrap();
    store.push(&Entry::new_with_timestamp(5, "a", vec![3])).unwrap();
    store.push(&Entry::new_with_timestamp(5, "b", vec![4])).unwrap();
    store.push(&Entry::new_with_timestamp(-1, "m", vec![5])).unwrap();
    store.push(&Entry::new_with_timestamp(5, "ab", vec![6])).unwrap();
    store.push(&Entry::new_with_timestamp(5, "", vec![7])).unwrap();
    assert_eq!(
        list(&store, Bound::Unbounded, Bound::Unbounded, None),
        vec![
            Entry::new_with_timestamp(-1, "m", vec![5]),
            Entry::new_with_timestamp(3, "z", vec![2]),
            Entry::new_with_timestamp(5, "", vec![7]),
            Entry::new_with_timestamp(5, "a", vec![3]),
            Entry::new_with_timestamp(5, "ab", vec![6]),
            Entry::new_with_timestamp(5, "b", vec![1]),
            Entry::new_with_timestamp(5, "b", vec![4]),
        ]
    );
}

#[test]
fn names_are_ordered_by_their_bytes() {
    let mut store = MemoryStore::new();
    store.push(&Entry::new_with_timestamp(1, "é", vec![1])).unwrap();
    store.push(&Entry::new_with_timestamp(1, "z", vec![2])).unwrap();
    store.push(&Entry::new_with_timestamp(1, "Z", vec![3])).unwrap();
    let names: Vec<String> = list(&store, Bound::Unbounded, Bound::Unbounded, None)
        .into_iter()
        .map(|entry| entry.name)
        .collect();
    assert_eq!(names, vec!["Z".to_string(), "z".to_string(), "é".to_string()]);
}

#[test]
fn bounds_select_by_timestamp() {
    let mut store = MemoryStore::new();
    insert_sample_data(&mut store, "t");
    assert_eq!(count(&store, Bound::Included(3), Bound::Included(6), None), 4);
    assert_eq!(count(&store, Bound::Excluded(3), Bound::Included(6), None), 3);
    assert_eq!(count(&store, Bound::Included(3), Bound::Excluded(6), None), 3);
    assert_eq!(count(&store, Bound::Excluded(3), Bound::Excluded(6), None), 2);
    assert_eq!(count(&store, Bound::Unbounded, Bound::Excluded(1), None), 0);
    assert_eq!(count(&store, Bound::Unbounded, Bound::Included(1), None), 1);
    assert_eq!(count(&store, Bound::Excluded(10), Bound::Unbounded, None), 0);
    assert_eq!(count(&store, Bound::Included(10), Bound::Unbounded, None), 1);
    assert_eq!(count(&store, Bound::Included(11), Bound::Included(20), None), 0);
    assert_eq!(count(&store, Bound::Excluded(3), Bound::Excluded(4), None), 0);
    assert_eq!(
        list(&store, Bound::Excluded(3), Bound::Excluded(6), None),
        vec![
            Entry::new_with_timestamp(4, "t", vec![4]),
            Entry::new_with_timestamp(5, "t", vec![5]),
        ]
    );
}

#[test]
fn equal_inclusive_bounds_select_one_timestamp() {
    let mut store = MemoryStore::new();
    insert_sample_data(&mut store, "t");
    store.push(&Entry::new_with_timestamp(4, "u", vec![44])).unwrap();
    assert_eq!(
        list(&store, Bound::Included(4), Bound::Included(4), None),
        vec![
            Entry::new_with_timestamp(4, "t", vec![4]),
            Entry::new_with_timestamp(4, "u", vec![44]),
        ]
    );
}

#[test]
fn range_refuses_bad_bounds() {
    let store = MemoryStore::new();
    assert!(matches!(
        store.range(Bound::Included(2), Bound::Included(1), None),
        Err(Error::BadRange)
    ));
    assert!(matches!(
        store.range(Bound::Included(2), Bound::Excluded(2), None),
        Err(Error::BadRange)
    ));
    assert!(matches!(
        store.range(Bound::Excluded(2), Bound::Included(2), Some("t")),
        Err(Error::BadRange)
    ));
    assert!(store.range(Bound::Included(2), Bound::Included(2), None).is_ok());
}

#[test]
fn the_extremes_of_the_timestamps_are_selected() {
    let mut store = MemoryStore::new();
    store.push(&Entry::new_with_timestamp(i64::MAX, "t", vec![1])).unwrap();
    store.push(&Entry::new_with_timestamp(i64::MIN, "t", vec![2])).unwrap();
    assert_eq!(count(&store, Bound::Unbounded, Bound::Unbounded, None), 2);
    assert_eq!(count(&store, Bound::Excluded(i64::MAX), Bound::Unbounded, None), 0);
    assert_eq!(count(&store, Bound::Included(i64::MAX), Bound::Unbounded, None), 1);
    assert_eq!(count(&store, Bound::Unbounded, Bound::Excluded(i64::MIN), None), 0);
    assert_eq!(count(&store, Bound::Unbounded, Bound::Included(i64::MIN), None), 1);
    assert_eq!(count(&store, Bound::Excluded(i64::MIN), Bound::Excluded(i64::MAX), None), 0);
}

#[test]
fn a_name_selects_its_entries_only() {
    let mut store = MemoryStore::new();
    insert_sample_data(&mut store, "a");
    insert_sample_data(&mut store, "b");
    assert_eq!(count(&store, Bound::Unbounded, Bound::Unbounded, None), 20);
    assert_eq!(count(&store, Bound::Unbounded, Bound::Unbounded, Some("a")), 10);
    assert_eq!(count(&store, Bound::Included(9), Bound::Unbounded, Some("b")), 2);
    assert_eq!(count(&store, Bound::Unbounded, Bound::Unbounded, Some("c")), 0);
    check_sample_data(list(&store, Bound::Unbounded, Bound::Unbounded, Some("b")), "b");
    store
        .range(Bound::Included(4), Bound::Included(6), Some("a"))
        .unwrap()
        .remove(&mut store)
        .unwrap();
    assert_eq!(count(&store, Bound::Unbounded, Bound::Unbounded, Some("a")), 7);
    assert_eq!(count(&store, Bound::Unbounded, Bound::Unbounded, Some("b")), 10);
    assert_eq!(count(&store, Bound::Included(5), Bound::Unbounded, Some("a")), 4);
}

#[test]
fn a_pushed_entry_comes_back_as_it_was() {
    let mut store = MemoryStore::new();
    insert_sample_data(&mut store, "other");
    let entry = Entry::new_with_timestamp(5, "mine", vec![0, 1, 2, 255]);
    store.push(&entry).unwrap();
    assert_eq!(list(&store, Bound::Included(5), Bound::Included(5), Some("mine")), vec![entry]);
}

#[test]
fn removing_nothing_changes_nothing() {
    let mut store = MemoryStore::new();
    insert_sample_data(&mut store, "t");
    store
        .range(Bound::Included(20), Bound::Unbounded, None)
        .unwrap()
        .remove(&mut store)
        .unwrap();
    check_sample_data(list(&store, Bound::Unbounded, Bound::Unbounded, None), "t");
    store
        .range(Bound::Included(3), Bound::Included(4), None)
        .unwrap()
        .remove(&mut store)
        .unwrap();
    let left = list(&store, Bound::Unbounded, Bound::Unbounded, None);
    assert_eq!(left.len(), 8);
    store
        .range(Bound::Included(3), Bound::Included(4), None)
        .unwrap()
        .remove(&mut store)
        .unwrap();
    assert_eq!(list(&store, Bound::Unbounded, Bound::Unbounded, None), left);
}

#[test]
fn removing_from_an_empty_store_succeeds() {
    let mut store = MemoryStore::new();
    store
        .range(Bound::Unbounded, Bound::Unbounded, None)
        .unwrap()
        .remove(&mut store)
        .unwrap();
    assert_eq!(count(&store, Bound::Unbounded, Bound::Unbounded, None), 0);
}

#[test]
fn latest_is_the_highest_timestamp_and_the_last_pushed() {
    let mut store = MemoryStore::new();
    store.push(&Entry::new_with_timestamp(7, "a", vec![1])).unwrap();
    store.push(&Entry::new_with_timestamp(9, "b", vec![2])).unwrap();
    store.push(&Entry::new_with_timestamp(7, "a", vec![3])).unwrap();
    store.push(&Entry::new_with_timestamp(2, "a", vec![4])).unwrap();
    assert_eq!(store.latest("a").unwrap(), Some(Entry::new_with_timestamp(7, "a", vec![3])));
    assert_eq!(store.latest("b").unwrap(), Some(Entry::new_with_timestamp(9, "b", vec![2])));
    assert_eq!(store.latest("c").unwrap(), None);
}

#[test]
fn a_listener_gets_only_its_name_and_only_later_pushes() {
    let mut store = MemoryStore::new();
    store.push(&Entry::new_with_timestamp(1, "s", vec![1])).unwrap();
    let subscriber = store.subscribe("s").unwrap();
    assert_eq!(subscriber.next(&mut store).unwrap(), None);
    store.push(&Entry::new_with_timestamp(9, "other", vec![2])).unwrap();
    store.push(&Entry::new_with_timestamp(3, "s", vec![3])).unwrap();
    store.push(&Entry::new_with_timestamp(2, "s", vec![4])).unwrap();
    assert_eq!(
        subscriber.next(&mut store).unwrap(),
        Some(Entry::new_with_timestamp(3, "s", vec![3]))
    );
    assert_eq!(
        subscriber.next(&mut store).unwrap(),
        Some(Entry::new_with_timestamp(2, "s", vec![4]))
    );
    assert_eq!(subscriber.next(&mut store).unwrap(), None);
}

#[test]
fn every_listener_on_a_name_gets_each_entry() {
    let mut store = MemoryStore::new();
    let first = store.subscribe("s").unwrap();
    let second = store.subscribe("s").unwrap();
    let entry = Entry::new_with_timestamp(1, "s", vec![1]);
    store.push(&entry).unwrap();
    assert_eq!(first.next(&mut store).unwrap(), Some(entry.clone()));
    assert_eq!(second.next(&mut store).unwrap(), Some(entry));
    assert_eq!(first.next(&mut store).unwrap(), None);
}

#[test]
fn a_listener_that_was_given_up_gets_nothing_more() {
    let mut store = MemoryStore::new();
    let kept = store.subscribe("s").unwrap();
    let dropped = store.subscribe("s").unwrap();
    store.unsubscribe(dropped);
    store.push(&Entry::new_with_timestamp(1, "s", vec![1])).unwrap();
    assert_eq!(
        kept.next(&mut store).unwrap(),
        Some(Entry::new_with_timestamp(1, "s", vec![1]))
    );
    let again = store.subscribe("s").unwrap();
    store.push(&Entry::new_with_timestamp(2, "s", vec![2])).unwrap();
    assert_eq!(
        again.next(&mut store).unwrap(),
        Some(Entry::new_with_timestamp(2, "s", vec![2]))
    );
}

#[test]
fn removing_entries_leaves_what_waits_for_listeners() {
    let mut store = MemoryStore::new();
    let subscriber = store.subscribe("s").unwrap();
    store.push(&Entry::new_with_timestamp(1, "s", vec![1])).unwrap();
    store
        .range(Bound::Unbounded, Bound::Unbounded, None)
        .unwrap()
        .remove(&mut store)
        .unwrap();
    assert_eq!(
        subscriber.next(&mut store).unwrap(),
        Some(Entry::new_with_timestamp(1, "s", vec![1]))
    );
}

#[test]
fn the_default_store_is_empty() {
    let store = MemoryStore::default();
    assert_eq!(count(&store, Bound::Unbounded, Bound::Unbounded, None), 0);
    assert_eq!(store.latest("any").unwrap(), None);
}
