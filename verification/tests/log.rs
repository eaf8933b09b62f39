use kvs::log::Log;
use kvs::record::encode_entry;
use kvs::{Command, Entry, KvsError};

fn entry(command: Command, key: &str, value: &str) -> Entry {
    Entry { command, key: key.to_string(), value: value.to_string() }
}

fn sample() -> (Log, Vec<Entry>) {
    let entries = vec![
        entry(Command::SET, "a", "1"),
        entry(Command::SET, "bb", "22"),
        entry(Command::RM, "a", "removed"),
    ];
    let mut log = Log::new();
    for e in &entries {
        log.append(e);
    }
    (log, entries)
}

#[test]
fn new_log_is_empty() {
    let log = Log::new();
    assert_eq!(log.len(), 0);
    assert_eq!(log.record_count(), 0);
    assert!(log.as_bytes().is_empty());
    assert!(log.replay().is_empty());
}

#[test]
fn append_returns_positions_counted_from_zero() {
    let mut log = Log::new();
    assert_eq!(log.append(&entry(Command::SET, "a", "1")), 0);
    assert_eq!(log.append(&entry(Command::SET, "bb", "a much longer value")), 1);
    assert_eq!(log.append(&entry(Command::RM, "a", "removed")), 2);
    assert_eq!(log.append(&entry(Command::GET, "a", "")), 3);
    assert_eq!(log.record_count(), 4);
}

#[test]
fn log_bytes_are_the_lines_in_order() {
    let (log, _) = sample();
    assert_eq!(log.as_bytes(), &b"Sa\t1\nSbb\t22\nRa\tremoved\n".to_vec());
    assert_eq!(log.len(), 23);
}

#[test]
fn append_never_changes_what_was_written() {
    let mut log = Log::new();
    log.append(&entry(Command::SET, "a", "1"));
    let before = log.as_bytes().clone();
    log.append(&entry(Command::SET, "b", "2"));
    assert_eq!(&log.as_bytes()[..before.len()], &before[..]);
    let mut expected = before.clone();
    expected.extend_from_slice(&encode_entry(&entry(Command::SET, "b", "2")));
    assert_eq!(log.as_bytes(), &expected);
}

#[test]
fn read_at_finds_each_record_by_its_position() {
    let (log, entries) = sample();
    assert_eq!(log.read_at(0).unwrap(), entries[0]);
    assert_eq!(log.read_at(1).unwrap(), entries[1]);
    assert_eq!(log.read_at(2).unwrap(), entries[2]);
}

#[test]
fn read_at_or_behind_the_record_count_fails() {
    let (log, _) = sample();
    assert!(matches!(log.read_at(3), Err(KvsError::Corrupt(3))));
    assert!(matches!(log.read_at(5), Err(KvsError::Corrupt(5))));
    assert!(matches!(log.read_at(usize::MAX), Err(KvsError::Corrupt(usize::MAX))));
    assert!(matches!(Log::new().read_at(0), Err(KvsError::Corrupt(0))));
}

#[test]
fn replay_gives_all_records_numbered_in_order() {
    let (log, entries) = sample();
    let replayed = log.replay();
    assert_eq!(replayed.len(), 3);
    assert_eq!(replayed[0], (0, entries[0].clone()));
    assert_eq!(replayed[1], (1, entries[1].clone()));
    assert_eq!(replayed[2], (2, entries[2].clone()));
}

#[test]
fn replay_can_be_run_again() {
    let (log, _) = sample();
    assert_eq!(log.replay(), log.replay());
    assert_eq!(log.replay()[0].0, 0);
}

#[test]
fn replay_after_a_write_ends_with_the_new_record() {
    let (mut log, _) = sample();
    let e = entry(Command::SET, "quote\"\\\n{}", "");
    let pos = log.append(&e);
    let replayed = log.replay();
    assert_eq!(pos, 3);
    assert_eq!(replayed.len(), 4);
    assert_eq!(replayed[3], (3, e));
}

#[test]
fn open_keeps_a_whole_log() {
    let (log, entries) = sample();
    let bytes = log.as_bytes().clone();
    let reopened = Log::open(bytes.clone()).unwrap();
    assert_eq!(reopened.as_bytes(), &bytes);
    assert_eq!(reopened.record_count(), 3);
    let replayed: Vec<Entry> = reopened.replay().into_iter().map(|(_, e)| e).collect();
    assert_eq!(replayed, entries);
    assert_eq!(reopened.read_at(1).unwrap(), entries[1]);
}

#[test]
fn open_of_nothing_is_an_empty_log() {
    let log = Log::open(Vec::new()).unwrap();
    assert_eq!(log.len(), 0);
    assert_eq!(log.record_count(), 0);
}

#[test]
fn open_drops_a_partial_last_record() {
    let (log, entries) = sample();
    let whole = log.as_bytes().clone();
    for cut in 13..whole.len() {
        let reopened = Log::open(whole[..cut].to_vec()).unwrap();
        assert_eq!(reopened.len(), 12);
        assert_eq!(reopened.as_bytes()[..], whole[..12]);
        assert_eq!(reopened.record_count(), 2);
        let replayed: Vec<Entry> = reopened.replay().into_iter().map(|(_, e)| e).collect();
        assert_eq!(replayed, entries[..2].to_vec());
    }
}

#[test]
fn append_after_a_dropped_tail_gets_the_next_position() {
    let (log, _) = sample();
    let whole = log.as_bytes().clone();
    let mut reopened = Log::open(whole[..whole.len() - 3].to_vec()).unwrap();
    assert_eq!(reopened.append(&entry(Command::SET, "c", "3")), 2);
    assert_eq!(reopened.read_at(2).unwrap(), entry(Command::SET, "c", "3"));
    assert_eq!(reopened.record_count(), 3);
    assert_eq!(reopened.as_bytes(), &b"Sa\t1\nSbb\t22\nSc\t3\n".to_vec());
}

#[test]
fn open_fails_on_a_damaged_record_with_whole_records_behind_it() {
    assert!(matches!(
        Log::open(b"Sa\t1\nXbb\t22\nRa\tremoved\n".to_vec()),
        Err(KvsError::Corrupt(1))
    ));
    assert!(matches!(
        Log::open(b"Sa\t1\nSbb22\nRa\tremoved\n".to_vec()),
        Err(KvsError::Corrupt(1))
    ));
    assert!(matches!(
        Log::open(b"Sa\t1\nSbb\t2\\2\nRa\tremoved\n".to_vec()),
        Err(KvsError::Corrupt(1))
    ));
}

#[test]
fn open_fails_on_a_damaged_first_record() {
    assert!(matches!(Log::open(b"S\xff\t1\nSbb\t22\n".to_vec()), Err(KvsError::Corrupt(0))));
}

#[test]
fn open_fails_on_a_damaged_whole_last_record() {
    assert!(matches!(Log::open(b"Sa\t1\nSbb\t22\n?a\tremoved\n".to_vec()), Err(KvsError::Corrupt(2))));
}

#[test]
fn open_fails_on_a_damaged_record_in_front_of_a_partial_one() {
    assert!(matches!(Log::open(b"Sa\t1\nSbb\n\nRa\tremo".to_vec()), Err(KvsError::Corrupt(1))));
}

#[test]
fn a_damaged_partial_last_record_is_dropped_like_any_other() {
    let log = Log::open(b"Sa\t1\nSbb\t22\n?a\trem".to_vec()).unwrap();
    assert_eq!(log.record_count(), 2);
    assert_eq!(log.as_bytes(), &b"Sa\t1\nSbb\t22\n".to_vec());
}
