use kvs::record::encode_entry;
use kvs::store::DEFAULT_COMPACTION_RATIO;
use kvs::{Command, Entry, KvStore, KvsError};

fn s(text: &str) -> String {
    text.to_string()
}

fn entry(command: Command, key: &str, value: &str) -> Entry {
    Entry { command, key: key.to_string(), value: value.to_string() }
}

fn empty() -> KvStore {
    KvStore::open(Vec::new()).unwrap()
}

fn reopen(store: &KvStore) -> KvStore {
    KvStore::open(store.log_bytes().clone()).unwrap()
}

#[test]
fn empty_store_has_no_keys() {
    let mut store = empty();
    assert_eq!(store.get(s("a")).unwrap(), None);
    assert!(store.log_bytes().is_empty());
    assert!(!store.needs_compaction());
}

#[test]
fn get_returns_what_was_set() {
    let mut store = empty();
    store.set(s("key"), s("value")).unwrap();
    assert_eq!(store.get(s("key")).unwrap(), Some(s("value")));
    assert_eq!(store.get(s("other")).unwrap(), None);
}

#[test]
fn last_set_wins() {
    let mut store = empty();
    store.set(s("a"), s("1")).unwrap();
    store.set(s("b"), s("x")).unwrap();
    store.set(s("a"), s("2")).unwrap();
    store.set(s("a"), s("3")).unwrap();
    assert_eq!(store.get(s("a")).unwrap(), Some(s("3")));
    assert_eq!(store.get(s("b")).unwrap(), Some(s("x")));
}

#[test]
fn many_keys_round_trip() {
    let mut store = empty();
    for i in 0..200 {
        store.set(format!("key{}", i), format!("value{}", i)).unwrap();
    }
    for i in (0..200).step_by(3) {
        store.set(format!("key{}", i), format!("again{}", i)).unwrap();
    }
    for i in 0..200 {
        let expected = if i % 3 == 0 { format!("again{}", i) } else { format!("value{}", i) };
        assert_eq!(store.get(format!("key{}", i)).unwrap(), Some(expected));
    }
}

#[test]
fn removed_key_is_absent_until_set_again() {
    let mut store = empty();
    store.set(s("a"), s("1")).unwrap();
    store.remove(s("a")).unwrap();
    assert_eq!(store.get(s("a")).unwrap(), None);
    store.set(s("b"), s("2")).unwrap();
    assert_eq!(store.get(s("a")).unwrap(), None);
    store.set(s("a"), s("4")).unwrap();
    assert_eq!(store.get(s("a")).unwrap(), Some(s("4")));
}

#[test]
fn removing_a_key_never_set_fails_and_writes_nothing() {
    let mut store = empty();
    store.set(s("a"), s("1")).unwrap();
    let before = store.log_bytes().clone();
    assert!(matches!(store.remove(s("zzz")), Err(KvsError::KeyNotFound)));
    assert_eq!(store.log_bytes(), &before);
    assert!(store.is_indexed("a"));
    assert!(!store.is_indexed("zzz"));
    assert_eq!(store.get(s("a")).unwrap(), Some(s("1")));
}

#[test]
fn removing_twice_fails_the_second_time() {
    let mut store = empty();
    store.set(s("a"), s("1")).unwrap();
    store.remove(s("a")).unwrap();
    let before = store.log_bytes().clone();
    assert!(matches!(store.remove(s("a")), Err(KvsError::KeyNotFound)));
    assert_eq!(store.log_bytes(), &before);
}

#[test]
fn removing_from_an_empty_store_fails() {
    let mut store = empty();
    assert!(matches!(store.remove(s("a")), Err(KvsError::KeyNotFound)));
    assert!(store.log_bytes().is_empty());
}

#[test]
fn set_appends_one_write_record() {
    let mut store = empty();
    store.set(s("a"), s("1")).unwrap();
    assert_eq!(store.log_bytes(), &encode_entry(&entry(Command::SET, "a", "1")));
    store.set(s("a"), s("2")).unwrap();
    let mut expected = encode_entry(&entry(Command::SET, "a", "1"));
    expected.extend_from_slice(&encode_entry(&entry(Command::SET, "a", "2")));
    assert_eq!(store.log_bytes(), &expected);
}

#[test]
fn remove_appends_one_delete_record() {
    let mut store = empty();
    store.set(s("a"), s("1")).unwrap();
    store.remove(s("a")).unwrap();
    let mut expected = encode_entry(&entry(Command::SET, "a", "1"));
    expected.extend_from_slice(&encode_entry(&entry(Command::RM, "a", "removed")));
    assert_eq!(store.log_bytes(), &expected);
}

#[test]
fn reopened_store_answers_the_same() {
    let mut store = empty();
    store.set(s("a"), s("1")).unwrap();
    store.set(s("b"), s("2")).unwrap();
    store.set(s("c"), s("3")).unwrap();
    store.set(s("a"), s("11")).unwrap();
    store.remove(s("b")).unwrap();
    let mut again = reopen(&store);
    assert_eq!(again.log_bytes(), store.log_bytes());
    for key in ["a", "b", "c", "d"] {
        assert_eq!(again.get(s(key)).unwrap(), store.get(s(key)).unwrap());
    }
    assert_eq!(again.get(s("a")).unwrap(), Some(s("11")));
    assert_eq!(again.get(s("b")).unwrap(), None);
    assert_eq!(again.get(s("c")).unwrap(), Some(s("3")));
}

#[test]
fn reopening_twice_changes_nothing() {
    let mut store = empty();
    store.set(s("a"), s("1")).unwrap();
    store.remove(s("a")).unwrap();
    store.set(s("b"), s("2")).unwrap();
    let once = reopen(&store);
    let twice = reopen(&once);
    assert_eq!(once.log_bytes(), store.log_bytes());
    assert_eq!(twice.log_bytes(), store.log_bytes());
}

#[test]
fn open_fills_the_index() {
    let mut store = empty();
    store.set(s("a"), s("1")).unwrap();
    store.set(s("b"), s("2")).unwrap();
    store.remove(s("a")).unwrap();
    let again = reopen(&store);
    assert!(!again.is_indexed("a"));
    assert!(again.is_indexed("b"));
}

#[test]
fn remove_works_on_a_key_never_looked_up_after_reopen() {
    let mut store = empty();
    store.set(s("a"), s("1")).unwrap();
    let mut again = reopen(&store);
    again.remove(s("a")).unwrap();
    assert_eq!(again.get(s("a")).unwrap(), None);
}

#[test]
fn scenario_with_reopen() {
    let mut store = empty();
    store.set(s("a"), s("1")).unwrap();
    store.set(s("b"), s("2")).unwrap();
    store.set(s("a"), s("3")).unwrap();
    assert_eq!(store.get(s("a")).unwrap(), Some(s("3")));
    store.remove(s("b")).unwrap();
    assert_eq!(store.get(s("b")).unwrap(), None);
    let err = store.remove(s("b")).unwrap_err();
    assert!(matches!(err, KvsError::KeyNotFound));
    assert_eq!(err.message(), "Key not found");
    let mut again = reopen(&store);
    assert_eq!(again.get(s("a")).unwrap(), Some(s("3")));
}

#[test]
fn open_ignores_a_partial_last_record() {
    let mut store = empty();
    store.set(s("a"), s("1")).unwrap();
    store.set(s("b"), s("2")).unwrap();
    let whole = store.log_bytes().clone();
    let first = encode_entry(&entry(Command::SET, "a", "1")).len();
    for cut in first + 1..whole.len() {
        let mut again = KvStore::open(whole[..cut].to_vec()).unwrap();
        assert_eq!(again.log_bytes()[..], whole[..first]);
        assert_eq!(again.get(s("a")).unwrap(), Some(s("1")));
        assert_eq!(again.get(s("b")).unwrap(), None);
    }
}

#[test]
fn open_fails_on_a_corrupt_record() {
    let mut store = empty();
    store.set(s("a"), s("1")).unwrap();
    store.set(s("b"), s("2")).unwrap();
    let mut bytes = store.log_bytes().clone();
    bytes[0] = 77;
    assert!(matches!(KvStore::open(bytes), Err(KvsError::Corrupt(0))));
    let mut bytes = store.log_bytes().clone();
    bytes[7] = 0xc0;
    assert!(matches!(KvStore::open(bytes), Err(KvsError::Corrupt(1))));
}

#[test]
fn get_records_are_skipped_on_replay() {
    let mut bytes = encode_entry(&entry(Command::SET, "a", "1"));
    bytes.extend_from_slice(&encode_entry(&entry(Command::GET, "a", "ignored")));
    let mut store = KvStore::open(bytes).unwrap();
    assert_eq!(store.get(s("a")).unwrap(), Some(s("1")));
    assert_eq!(store.seek_value_by_key(s("a")), Some((0, s("1"))));
}

#[test]
fn seek_finds_the_newest_write() {
    let mut store = empty();
    assert_eq!(store.seek_value_by_key(s("a")), None);
    store.set(s("a"), s("1")).unwrap();
    store.set(s("b"), s("2")).unwrap();
    store.set(s("a"), s("3")).unwrap();
    assert_eq!(store.seek_value_by_key(s("a")), Some((2, s("3"))));
    assert_eq!(store.seek_value_by_key(s("b")), Some((1, s("2"))));
    store.remove(s("a")).unwrap();
    assert_eq!(store.seek_value_by_key(s("a")), None);
    store.set(s("a"), s("5")).unwrap();
    assert_eq!(store.seek_value_by_key(s("a")), Some((4, s("5"))));
}

#[test]
fn value_by_position() {
    let mut store = empty();
    store.set(s("a"), s("1")).unwrap();
    store.set(s("b"), s("two")).unwrap();
    store.remove(s("a")).unwrap();
    assert_eq!(store.get_value_by_pos(0), Some(s("1")));
    assert_eq!(store.get_value_by_pos(1), Some(s("two")));
    assert_eq!(store.get_value_by_pos(2), Some(s("removed")));
    assert_eq!(store.get_value_by_pos(3), None);
    assert_eq!(store.get_value_by_pos(store.log_bytes().len()), None);
    assert_eq!(store.get_value_by_pos(usize::MAX), None);
}

#[test]
fn evicted_key_is_found_in_the_log_and_indexed_again() {
    let mut store = empty();
    store.set(s("a"), s("1")).unwrap();
    store.set(s("b"), s("2")).unwrap();
    store.set(s("a"), s("3")).unwrap();
    store.evict("a");
    assert!(!store.is_indexed("a"));
    assert!(store.is_indexed("b"));
    assert_eq!(store.get(s("a")).unwrap(), Some(s("3")));
    assert!(store.is_indexed("a"));
}

#[test]
fn a_miss_is_not_cached() {
    let mut store = empty();
    store.set(s("a"), s("1")).unwrap();
    store.remove(s("a")).unwrap();
    assert_eq!(store.get(s("a")).unwrap(), None);
    assert!(!store.is_indexed("a"));
    assert_eq!(store.get(s("never")).unwrap(), None);
    assert!(!store.is_indexed("never"));
}

#[test]
fn remove_finds_an_evicted_key_in_the_log() {
    let mut store = empty();
    store.set(s("a"), s("1")).unwrap();
    store.evict("a");
    store.remove(s("a")).unwrap();
    assert_eq!(store.get(s("a")).unwrap(), None);
    assert!(matches!(store.remove(s("a")), Err(KvsError::KeyNotFound)));
}

#[test]
fn evicting_an_absent_key_changes_nothing() {
    let mut store = empty();
    store.set(s("a"), s("1")).unwrap();
    let before = store.log_bytes().clone();
    store.evict("zzz");
    assert_eq!(store.log_bytes(), &before);
    assert!(store.is_indexed("a"));
}

#[test]
fn compaction_keeps_the_contents() {
    let mut store = empty();
    for round in 0..5 {
        for i in 0..20 {
            store.set(format!("k{}", i), format!("v{}-{}", i, round)).unwrap();
        }
    }
    for i in 0..20 {
        if i % 4 == 0 {
            store.remove(format!("k{}", i)).unwrap();
        }
    }
    let before = store.log_bytes().len();
    store.compact();
    assert!(store.log_bytes().len() < before);
    for i in 0..20 {
        let expected = if i % 4 == 0 { None } else { Some(format!("v{}-4", i)) };
        assert_eq!(store.get(format!("k{}", i)).unwrap(), expected);
    }
}

#[test]
fn compacted_log_is_exact() {
    let mut store = empty();
    store.set(s("a"), s("1")).unwrap();
    store.set(s("b"), s("2")).unwrap();
    store.set(s("c"), s("3")).unwrap();
    store.set(s("a"), s("4")).unwrap();
    store.remove(s("b")).unwrap();
    store.compact();
    let mut expected = encode_entry(&entry(Command::SET, "c", "3"));
    expected.extend_from_slice(&encode_entry(&entry(Command::SET, "a", "4")));
    assert_eq!(store.log_bytes(), &expected);
    assert_eq!(store.seek_value_by_key(s("c")), Some((0, s("3"))));
    assert_eq!(store.seek_value_by_key(s("a")), Some((1, s("4"))));
    assert_eq!(store.get_value_by_pos(0), Some(s("3")));
    assert_eq!(store.get_value_by_pos(1), Some(s("4")));
    assert_eq!(store.get_value_by_pos(2), None);
}

#[test]
fn store_is_usable_after_compaction() {
    let mut store = empty();
    store.set(s("a"), s("1")).unwrap();
    store.set(s("a"), s("2")).unwrap();
    store.set(s("b"), s("3")).unwrap();
    store.compact();
    assert!(store.is_indexed("a"));
    assert!(store.is_indexed("b"));
    store.set(s("c"), s("4")).unwrap();
    store.remove(s("a")).unwrap();
    assert!(matches!(store.remove(s("a")), Err(KvsError::KeyNotFound)));
    assert_eq!(store.get(s("a")).unwrap(), None);
    assert_eq!(store.get(s("b")).unwrap(), Some(s("3")));
    assert_eq!(store.get(s("c")).unwrap(), Some(s("4")));
    let mut again = reopen(&store);
    assert_eq!(again.get(s("b")).unwrap(), Some(s("3")));
    assert_eq!(again.get(s("c")).unwrap(), Some(s("4")));
    assert_eq!(again.get(s("a")).unwrap(), None);
}

#[test]
fn compaction_of_an_emptied_store_leaves_an_empty_log() {
    let mut store = empty();
    store.set(s("a"), s("1")).unwrap();
    store.remove(s("a")).unwrap();
    store.compact();
    assert!(store.log_bytes().is_empty());
    assert_eq!(store.get(s("a")).unwrap(), None);
}

#[test]
fn compaction_twice_is_compaction_once() {
    let mut store = empty();
    store.set(s("a"), s("1")).unwrap();
    store.set(s("a"), s("2")).unwrap();
    store.compact();
    let once = store.log_bytes().clone();
    store.compact();
    assert_eq!(store.log_bytes(), &once);
}

#[test]
fn compaction_finds_evicted_keys() {
    let mut store = empty();
    store.set(s("a"), s("1")).unwrap();
    store.set(s("b"), s("2")).unwrap();
    store.evict("a");
    store.compact();
    assert!(store.is_indexed("a"));
    assert_eq!(store.get(s("a")).unwrap(), Some(s("1")));
    assert_eq!(store.get(s("b")).unwrap(), Some(s("2")));
}

#[test]
fn compaction_is_due_past_the_ratio() {
    assert_eq!(DEFAULT_COMPACTION_RATIO, 2);
    let mut store = empty();
    store.set(s("a"), s("1")).unwrap();
    assert!(!store.needs_compaction());
    store.set(s("a"), s("2")).unwrap();
    assert!(!store.needs_compaction());
    store.set(s("a"), s("3")).unwrap();
    assert!(!store.needs_compaction());
    store.set(s("a"), s("4")).unwrap();
    assert!(store.needs_compaction());
    store.compact();
    assert!(!store.needs_compaction());
}

#[test]
fn compaction_ratio_can_be_set() {
    let mut store = empty();
    store.set(s("a"), s("1")).unwrap();
    store.set(s("a"), s("2")).unwrap();
    assert!(!store.needs_compaction());
    store.set_compaction_ratio(0);
    assert!(store.needs_compaction());
    store.set_compaction_ratio(1);
    assert!(!store.needs_compaction());
    store.set(s("a"), s("3")).unwrap();
    assert!(store.needs_compaction());
    store.set_compaction_ratio(usize::MAX);
    assert!(!store.needs_compaction());
}

#[test]
fn an_emptied_store_is_due_for_compaction() {
    let mut store = empty();
    store.set(s("a"), s("1")).unwrap();
    store.remove(s("a")).unwrap();
    assert!(store.needs_compaction());
}

#[test]
fn empty_key_and_value_are_stored() {
    let mut store = empty();
    store.set(s(""), s("")).unwrap();
    assert_eq!(store.get(s("")).unwrap(), Some(s("")));
    let mut again = reopen(&store);
    assert_eq!(again.get(s("")).unwrap(), Some(s("")));
    again.remove(s("")).unwrap();
    assert_eq!(again.get(s("")).unwrap(), None);
}

#[test]
fn keys_and_values_may_hold_any_text() {
    let mut store = empty();
    store.set(s("ключ\n\0"), s("line one\nline two \u{1F600}")).unwrap();
    let mut again = reopen(&store);
    assert_eq!(again.get(s("ключ\n\0")).unwrap(), Some(s("line one\nline two \u{1F600}")));
}

#[test]
fn independent_stores_do_not_interfere() {
    let mut one = empty();
    let mut two = empty();
    one.set(s("a"), s("1")).unwrap();
    two.set(s("a"), s("2")).unwrap();
    assert_eq!(one.get(s("a")).unwrap(), Some(s("1")));
    assert_eq!(two.get(s("a")).unwrap(), Some(s("2")));
}

#[test]
fn position_counts_records_of_every_kind_and_key() {
    let mut store = empty();
    store.set(s("a"), s("1")).unwrap();
    store.set(s("b"), s("2")).unwrap();
    store.set(s("a"), s("3")).unwrap();
    store.remove(s("b")).unwrap();
    assert_eq!(store.seek_value_by_key(s("a")), Some((2, s("3"))));
    let mut other = empty();
    other.set(s("a"), s("1")).unwrap();
    other.remove(s("a")).unwrap();
    other.set(s("a"), s("2")).unwrap();
    assert_eq!(other.seek_value_by_key(s("a")), Some((2, s("2"))));
    let mut third = empty();
    third.set(s("b"), s("a value that is long")).unwrap();
    third.set(s("a"), s("1")).unwrap();
    assert_eq!(third.seek_value_by_key(s("a")), Some((1, s("1"))));
}

#[test]
fn open_fails_on_damage_in_front_of_whole_records() {
    let mut store = empty();
    store.set(s("a"), s("1")).unwrap();
    store.set(s("b"), s("2")).unwrap();
    store.set(s("c"), s("3")).unwrap();
    let whole = store.log_bytes().clone();
    assert_eq!(whole, b"Sa\t1\nSb\t2\nSc\t3\n".to_vec());
    let mut bytes = whole.clone();
    bytes[7] = b' ';
    assert!(matches!(KvStore::open(bytes), Err(KvsError::Corrupt(1))));
    let mut bytes = whole.clone();
    bytes[5] = b'Z';
    assert!(matches!(KvStore::open(bytes), Err(KvsError::Corrupt(1))));
}

#[test]
fn strings_with_quotes_braces_and_line_feeds_come_back() {
    let mut store = empty();
    let key = s("k\"{}\\\n\t");
    let value = s("{\"a\": [1, 2]}\n\\n\ttail");
    store.set(key.clone(), value.clone()).unwrap();
    store.set(s("e"), s("")).unwrap();
    assert_eq!(store.get(key.clone()).unwrap(), Some(value.clone()));
    let mut again = reopen(&store);
    assert_eq!(again.get(key.clone()).unwrap(), Some(value.clone()));
    assert_eq!(again.get(s("e")).unwrap(), Some(s("")));
    assert_eq!(again.seek_value_by_key(key), Some((0, value)));
}
