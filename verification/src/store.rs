//! The store: a log and an index from keys to log positions.
//!
//! What the store holds is what replaying its log leaves. The index is a
//! cache over the log: every key in it is live and is mapped to the position
//! of the record that wrote its current value. A live key may be missing from
//! the index; it is then found by reading the log and entered on the way.
use crate::error::{KvsError, Result};
use crate::history::{step, Op};
use crate::log::{entries, numbered, records_of, stop_from, well_framed, Log};
use crate::record::{decode_at, encode, Command, Entry, EntryView};
use crate::replay::{
    contents_of, lemma_contents_push, lemma_live_finite, lemma_live_is_written, lemma_live_push,
    lemma_live_step, live_of, write_of, Live,
};
use vstd::hash_map::StringHashMap;
use vstd::prelude::*;

verus! {

/// The value stored in a delete record. It is never read back.
pub open spec fn removed_marker() -> Seq<char> {
    "removed"@
}

/// The compaction ratio of a store that was given none: compaction is due
/// once the log holds more than twice as many dead records as live ones.
pub const DEFAULT_COMPACTION_RATIO: usize = 2;

/// A key-value store over a log.
pub struct KvStore {
    /// Every change ever made, oldest first.
    log: Log,
    /// For each key that it holds, the position of the key's newest write.
    mem_map: StringHashMap<usize>,
    /// How many dead records per live record the log may hold before
    /// compaction is due.
    ratio: usize,
}

/// Whether every record is a write, and the newest one of its key.
pub open spec fn newest_writes(records: Seq<EntryView>) -> bool {
    forall|j: int|
        0 <= j < records.len() ==> {
            let r = #[trigger] records[j];
            &&& r.command == Command::SET
            &&& live_of(records).contains_key(r.key)
            &&& live_of(records)[r.key].pos == j
        }
}

/// Whether any two keys that are live on both sides stand in the same order
/// on both, going by the positions of their records.
pub open spec fn same_order(one: Map<Seq<char>, Live>, other: Map<Seq<char>, Live>) -> bool {
    forall|a: Seq<char>, b: Seq<char>|
        #![trigger one[a], one[b]]
        #![trigger other[a], other[b]]
        one.contains_key(a) && one.contains_key(b) && other.contains_key(a) && other.contains_key(b)
            ==> (one[a].pos < one[b].pos <==> other[a].pos < other[b].pos)
}

/// The index that replaying the records leaves: every live key, mapped to
/// the position of its newest write.
fn rebuild_index(records: &Vec<(usize, Entry)>) -> (mem_map: StringHashMap<usize>)
    requires
        numbered(records@),
    ensures
        forall|k: Seq<char>| #[trigger]
            mem_map@.contains_key(k) <==> live_of(entries(records@)).contains_key(k),
        forall|k: Seq<char>| #[trigger]
            mem_map@.contains_key(k) ==> mem_map@[k] == live_of(entries(records@))[k].pos,
        mem_map@.dom().finite(),
{
    let ghost all = entries(records@);
    let mut mem_map: StringHashMap<usize> = StringHashMap::new();
    let mut i: usize = 0;
    while i < records.len()
        invariant
            0 <= i <= records@.len(),
            all == entries(records@),
            numbered(records@),
            forall|k: Seq<char>| #[trigger]
                mem_map@.contains_key(k) <==> live_of(all.take(i as int)).contains_key(k),
            forall|k: Seq<char>| #[trigger]
                mem_map@.contains_key(k) ==> mem_map@[k] == live_of(all.take(i as int))[k].pos,
            mem_map@.dom().finite(),
        decreases records@.len() - i,
    {
        proof {
            lemma_live_step(all, i as int);
        }
        let pos = records[i].0;
        let entry = &records[i].1;
        assert(all[i as int] == entry@);
        match entry.command {
            Command::GET => {},
            Command::SET => {
                mem_map.insert(entry.key.clone(), pos);
            },
            Command::RM => {
                mem_map.remove(entry.key.as_str());
            },
        }
        i += 1;
    }
    assert(all.take(i as int) == all);
    mem_map
}

impl View for KvStore {
    type V = Map<Seq<char>, Seq<char>>;

    /// The live keys with their values.
    open spec fn view(&self) -> Map<Seq<char>, Seq<char>> {
        contents_of(self.records())
    }
}

impl KvStore {
    /// The bytes of the log.
    pub closed spec fn log_view(&self) -> Seq<u8> {
        self.log@
    }

    /// The index: the keys it holds, each with the position kept for it.
    pub closed spec fn index_view(&self) -> Map<Seq<char>, usize> {
        self.mem_map@
    }

    /// The number of records that the log keeps count of.
    pub closed spec fn record_count(&self) -> usize {
        self.log.spec_record_count()
    }

    /// The compaction ratio that the store was given.
    pub closed spec fn compaction_ratio(&self) -> usize {
        self.ratio
    }

    /// Whether the log keeps the byte offset of each of its records.
    pub closed spec fn log_wf(&self) -> bool {
        self.log.wf()
    }

    /// The records of the log: record `i` is the one at position `i`.
    pub open spec fn records(&self) -> Seq<EntryView> {
        records_of(self.log_view())
    }

    /// The live keys, each with its value and the position of its record.
    pub open spec fn live(&self) -> Map<Seq<char>, Live> {
        live_of(self.records())
    }

    /// The log is whole lines throughout, and every key of the index is live
    /// and mapped to the position of its newest write.
    pub open spec fn wf(&self) -> bool {
        &&& self.log_wf()
        &&& well_framed(self.log_view())
        &&& self.log_view().len() <= usize::MAX
        &&& self.record_count() == self.records().len()
        &&& self.index_view().dom().finite()
        &&& forall|k: Seq<char>| #[trigger]
            self.index_view().contains_key(k) ==> self.live().contains_key(k)
                && self.index_view()[k] == self.live()[k].pos
    }

    /// Every live key is in the index.
    pub open spec fn fully_indexed(&self) -> bool {
        forall|k: Seq<char>| #[trigger]
            self.live().contains_key(k) ==> self.index_view().contains_key(k)
    }

    /// What opening a store over `bytes` gives. Reading stops at the first
    /// line that fails to decode. Where that is a whole line that stores no
    /// record, the result is an error that names the position of that line,
    /// whatever stands behind it. Otherwise the bytes end there or in the
    /// middle of a last record, and the store keeps the bytes in front of
    /// it, which hold every record that was read; its index holds every live
    /// key.
    pub open spec fn opened(bytes: Seq<u8>, r: Result<KvStore>) -> bool {
        let stop = stop_from(bytes, 0);
        match r {
            Ok(store) => {
                &&& !(decode_at(bytes, stop) is Corrupt)
                &&& store.wf()
                &&& store.fully_indexed()
                &&& store.log_view() == bytes.subrange(0, stop)
                &&& store.records() == records_of(bytes)
                &&& store.compaction_ratio() == DEFAULT_COMPACTION_RATIO
            },
            Err(e) => {
                &&& decode_at(bytes, stop) is Corrupt
                &&& e == KvsError::Corrupt(records_of(bytes).len() as usize)
            },
        }
    }

    /// Opening never loses a record: bytes that are whole lines throughout
    /// are opened without error and kept to the last byte.
    pub proof fn lemma_open_keeps_log(bytes: Seq<u8>, r: Result<KvStore>)
        requires
            well_framed(bytes),
            KvStore::opened(bytes, r),
        ensures
            r is Ok,
            r->Ok_0.log_view() == bytes,
            r->Ok_0.records() == records_of(bytes),
    {
        assert(decode_at(bytes, bytes.len() as int) is Truncated);
        assert(bytes.subrange(0, bytes.len() as int) == bytes);
    }

    /// A store opened over the log of another holds what that one holds: the
    /// same log, and so the same value, or none, for every key.
    pub proof fn lemma_reopen(&self, r: Result<KvStore>)
        requires
            self.wf(),
            KvStore::opened(self.log_view(), r),
        ensures
            r is Ok,
            r->Ok_0.log_view() == self.log_view(),
            r->Ok_0@ == self@,
    {
        KvStore::lemma_open_keeps_log(self.log_view(), r);
    }

    /// The record at the position kept for a live key is the write of that
    /// key with its current value.
    pub proof fn lemma_live_record(&self, key: Seq<char>)
        requires
            self.live().contains_key(key),
        ensures
            0 <= self.live()[key].pos < self.records().len(),
            self.records()[self.live()[key].pos] == write_of(key, self.live()[key].value),
    {
        lemma_live_is_written(self.records(), key);
    }

    /// The index of a store that holds every live key holds as many keys as
    /// are live.
    pub proof fn lemma_index_len(&self)
        requires
            self.wf(),
            self.fully_indexed(),
        ensures
            self.index_view().len() == self.live().len(),
            self.live().len() <= self.records().len(),
    {
        lemma_live_finite(self.records());
        assert(self.index_view().dom() == self.live().dom());
    }

    /// Opens a store over stored bytes. The index is filled from the whole
    /// log. Where the bytes end in the middle of a record, that last record
    /// is dropped. A whole line that stores no record is an error that names
    /// its position, wherever it stands.
    pub fn open(bytes: Vec<u8>) -> (r: Result<KvStore>)
        ensures
            KvStore::opened(bytes@, r),
    {
        let log = match Log::open(bytes) {
            Ok(log) => log,
            Err(e) => { return Err(e); },
        };
        let records = log.replay();
        let mem_map = rebuild_index(&records);
        Ok(KvStore { log, mem_map, ratio: DEFAULT_COMPACTION_RATIO })
    }

    /// The bytes of the log, as they are to be stored.
    pub fn log_bytes(&self) -> (bytes: &Vec<u8>)
        ensures
            bytes@ == self.log_view(),
    {
        self.log.as_bytes()
    }

    /// The value of a key, or `None` where the key is not live. A key found
    /// by reading the log is entered in the index; a key not found leaves
    /// the index as it was.
    pub fn get(&mut self, key: String) -> (r: Result<Option<String>>)
        requires
            old(self).wf(),
        ensures
            final(self).wf(),
            final(self).log_view() == old(self).log_view(),
            final(self).compaction_ratio() == old(self).compaction_ratio(),
            old(self).fully_indexed() ==> final(self).fully_indexed(),
            match r {
                Ok(Some(value)) => old(self)@.contains_key(key@) && value@ == old(self)@[key@],
                Ok(None) => !old(self)@.contains_key(key@),
                Err(_) => false,
            },
            final(self).index_view() == if old(self)@.contains_key(key@) {
                old(self).index_view().insert(key@, old(self).live()[key@].pos as usize)
            } else {
                old(self).index_view()
            },
    {
        let hit: Option<usize> = match self.mem_map.get(key.as_str()) {
            Some(pos) => Some(*pos),
            None => None,
        };
        if let Some(pos) = hit {
            proof {
                assert(self.index_view().contains_key(key@));
                self.lemma_live_record(key@);
                assert(self.index_view() == self.index_view().insert(key@, pos));
            }
            let value = self.get_value_by_pos(pos);
            Ok(value)
        } else {
            match self.seek_value_by_key(key.clone()) {
                Some((pos, value)) => {
                    self.mem_map.insert(key, pos);
                    assert(forall|k: Seq<char>| #[trigger]
                        self.index_view().contains_key(k) ==> k == key@ || old(
                            self,
                        ).index_view().contains_key(k));
                    Ok(Some(value))
                },
                None => Ok(None),
            }
        }
    }

    /// Sets the value of a key: writes a `SET` record behind the log and
    /// points the index at it.
    pub fn set(&mut self, key: String, value: String) -> (r: Result<()>)
        requires
            old(self).wf(),
        ensures
            r is Ok,
            final(self).wf(),
            final(self).compaction_ratio() == old(self).compaction_ratio(),
            old(self).fully_indexed() ==> final(self).fully_indexed(),
            final(self)@ == old(self)@.insert(key@, value@),
            final(self)@ == step(old(self)@, Op::Write { key: key@, value: value@ }),
            final(self).log_view() == old(self).log_view() + encode(write_of(key@, value@)),
            final(self).records() == old(self).records().push(write_of(key@, value@)),
            final(self).index_view() == old(self).index_view().insert(
                key@,
                old(self).record_count(),
            ),
    {
        let pos = self.write_entry(Command::SET, key.clone(), value);
        self.mem_map.insert(key, pos);
        proof {
            lemma_live_push(old(self).records(), write_of(key@, value@));
            lemma_contents_push(old(self).records(), write_of(key@, value@));
            assert(forall|k: Seq<char>| #[trigger]
                self.index_view().contains_key(k) ==> k == key@ || old(
                    self,
                ).index_view().contains_key(k));
            if old(self).fully_indexed() {
                assert forall|k: Seq<char>| #[trigger]
                    self.live().contains_key(k) implies self.index_view().contains_key(k) by {
                    if k != key@ {
                        assert(old(self).live().contains_key(k));
                    }
                }
            }
        }
        Ok(())
    }

    /// Removes a key: writes an `RM` record behind the log and takes the key
    /// out of the index. Where the key is not live, nothing changes.
    pub fn remove(&mut self, key: String) -> (r: Result<()>)
        requires
            old(self).wf(),
        ensures
            final(self).wf(),
            final(self).compaction_ratio() == old(self).compaction_ratio(),
            old(self).fully_indexed() ==> final(self).fully_indexed(),
            final(self)@ == step(old(self)@, Op::Delete { key: key@ }),
            match r {
                Ok(_) => {
                    &&& old(self)@.contains_key(key@)
                    &&& final(self)@ == old(self)@.remove(key@)
                    &&& final(self).log_view() == old(self).log_view() + encode(
                        EntryView { command: Command::RM, key: key@, value: removed_marker() },
                    )
                    &&& final(self).records() == old(self).records().push(
                        EntryView { command: Command::RM, key: key@, value: removed_marker() },
                    )
                    &&& final(self).index_view() == old(self).index_view().remove(key@)
                },
                Err(e) => {
                    &&& e == KvsError::KeyNotFound
                    &&& !old(self)@.contains_key(key@)
                    &&& final(self).log_view() == old(self).log_view()
                    &&& final(self).index_view() == old(self).index_view()
                    &&& final(self).record_count() == old(self).record_count()
                },
            },
    {
        if !self.mem_map.contains_key(key.as_str()) {
            let Some(_) = self.seek_value_by_key(key.clone()) else {
                assert(self@.remove(key@) == self@);
                return Err(KvsError::KeyNotFound);
            };
        }
        self.write_entry(Command::RM, key.clone(), "removed".to_owned());
        self.mem_map.remove(key.as_str());
        proof {
            let written = EntryView { command: Command::RM, key: key@, value: removed_marker() };
            lemma_live_push(old(self).records(), written);
            lemma_contents_push(old(self).records(), written);
            assert(forall|k: Seq<char>| #[trigger]
                self.index_view().contains_key(k) ==> k != key@ && old(
                    self,
                ).index_view().contains_key(k));
        }
        Ok(())
    }

    /// Writes one record behind the log and returns its position. The index
    /// is left as it was, so the caller has to bring it up to date.
    fn write_entry(&mut self, command: Command, key: String, value: String) -> (pos: usize)
        requires
            old(self).log_wf(),
        ensures
            final(self).log_wf(),
            well_framed(final(self).log_view()),
            final(self).log_view().len() <= usize::MAX,
            final(self).record_count() == final(self).records().len(),
            pos == old(self).records().len(),
            pos == old(self).record_count(),
            final(self).log_view() == old(self).log_view() + encode(
                EntryView { command, key: key@, value: value@ },
            ),
            final(self).records() == old(self).records().push(
                EntryView { command, key: key@, value: value@ },
            ),
            final(self).index_view() == old(self).index_view(),
            final(self).compaction_ratio() == old(self).compaction_ratio(),
    {
        let entry = Entry { command, key, value };
        self.log.append(&entry)
    }

    /// The value of the record at a position of the log, or `None` where the
    /// log has no record at that position.
    pub fn get_value_by_pos(&self, pos: usize) -> (r: Option<String>)
        requires
            self.wf(),
        ensures
            match r {
                Some(value) => pos < self.records().len() && value@ == self.records()[pos as int].value,
                None => pos >= self.records().len(),
            },
    {
        match self.log.read_at(pos) {
            Ok(entry) => Some(entry.value),
            Err(_) => None,
        }
    }

    /// Finds a key by reading the whole log: the value of the key and the
    /// position of the record that wrote it, or `None` where the key is not
    /// live.
    pub fn seek_value_by_key(&self, key: String) -> (r: Option<(usize, String)>)
        ensures
            match r {
                Some((pos, value)) => self.live().contains_key(key@) && self.live()[key@] == (
                Live { pos: pos as int, value: value@ }),
                None => !self.live().contains_key(key@),
            },
    {
        let records = self.log.replay();
        let mut found: Option<usize> = None;
        let mut i: usize = 0;
        while i < records.len()
            invariant
                0 <= i <= records@.len(),
                entries(records@) == self.records(),
                match found {
                    Some(at) => {
                        &&& at < i
                        &&& live_of(self.records().take(i as int)).contains_key(key@)
                        &&& live_of(self.records().take(i as int))[key@] == (Live {
                            pos: at as int,
                            value: self.records()[at as int].value,
                        })
                    },
                    None => !live_of(self.records().take(i as int)).contains_key(key@),
                },
            decreases records@.len() - i,
        {
            proof {
                lemma_live_step(self.records(), i as int);
            }
            let entry = &records[i].1;
            assert(entries(records@)[i as int] == entry@);
            match entry.command {
                Command::GET => {},
                Command::SET => {
                    if entry.key == key {
                        found = Some(i);
                    }
                },
                Command::RM => {
                    if entry.key == key {
                        found = None;
                    }
                },
            }
            i += 1;
        }
        assert(self.records().take(i as int) == self.records());
        match found {
            Some(at) => {
                assert(entries(records@)[at as int] == self.records()[at as int]);
                Some((at, records[at].1.value.clone()))
            },
            None => None,
        }
    }

    /// Whether the index holds a key.
    pub fn is_indexed(&self, key: &str) -> (held: bool)
        ensures
            held == self.index_view().contains_key(key@),
    {
        self.mem_map.contains_key(key)
    }

    /// Drops a key from the index. The key stays live if it was; the next
    /// lookup finds it by reading the log.
    pub fn evict(&mut self, key: &str)
        requires
            old(self).wf(),
        ensures
            final(self).wf(),
            final(self).log_view() == old(self).log_view(),
            final(self).index_view() == old(self).index_view().remove(key@),
            final(self).compaction_ratio() == old(self).compaction_ratio(),
    {
        self.mem_map.remove(key);
        assert(forall|k: Seq<char>| #[trigger]
            self.index_view().contains_key(k) ==> old(self).index_view().contains_key(k));
    }

    /// Gives the store its compaction ratio.
    pub fn set_compaction_ratio(&mut self, ratio: usize)
        requires
            old(self).wf(),
        ensures
            final(self).wf(),
            final(self).log_view() == old(self).log_view(),
            final(self).index_view() == old(self).index_view(),
            final(self).compaction_ratio() == ratio,
    {
        self.ratio = ratio;
        assert(forall|k: Seq<char>| #[trigger]
            self.index_view().contains_key(k) ==> old(self).index_view().contains_key(k));
    }

    /// The number of records that are not the newest write of a live key.
    pub open spec fn dead_records(&self) -> int {
        self.records().len() - self.live().len()
    }

    /// Compaction is due when there are more dead records than the
    /// compaction ratio times the number of live records.
    pub open spec fn compaction_due(&self) -> bool {
        self.dead_records() > self.compaction_ratio() * self.live().len()
    }

    /// Whether compaction is due. The live records are counted by the
    /// index, so the index has to hold every live key.
    pub fn needs_compaction(&self) -> (due: bool)
        requires
            self.wf(),
            self.fully_indexed(),
        ensures
            due == self.compaction_due(),
    {
        proof {
            self.lemma_index_len();
        }
        let count = self.log.record_count();
        let live = self.mem_map.len();
        if count <= live {
            return false;
        }
        match self.ratio.checked_mul(live) {
            Some(limit) => count - live > limit,
            None => false,
        }
    }

    /// Rewrites the log so that it holds the newest write of every live key
    /// and nothing else, in the order in which those records stood and
    /// numbered from 0 again, and rebuilds the index over the new positions.
    /// What the store holds does not change.
    pub fn compact(&mut self)
        requires
            old(self).wf(),
        ensures
            final(self).wf(),
            final(self).fully_indexed(),
            final(self)@ == old(self)@,
            final(self).compaction_ratio() == old(self).compaction_ratio(),
            final(self).only_newest_writes(),
            same_order(old(self).live(), final(self).live()),
            final(self).dead_records() == 0,
    {
        let records = self.log.replay();
        let newest = rebuild_index(&records);
        let ghost all = self.records();
        let ghost goal = live_of(all);
        let mut log = Log::new();
        let mut mem_map: StringHashMap<usize> = StringHashMap::new();
        let mut i: usize = 0;
        proof {
            assert forall|k: Seq<char>| goal.contains_key(k) implies (#[trigger] goal[k]).pos
                >= 0 by {
                lemma_live_is_written(all, k);
            }
        }
        while i < records.len()
            invariant
                0 <= i <= records@.len(),
                all == entries(records@),
                goal == live_of(all),
                forall|k: Seq<char>| #[trigger]
                    newest@.contains_key(k) <==> goal.contains_key(k),
                forall|k: Seq<char>| #[trigger]
                    newest@.contains_key(k) ==> newest@[k] == goal[k].pos,
                log.wf(),
                forall|k: Seq<char>| #[trigger]
                    live_of(log.records()).contains_key(k) <==> goal.contains_key(k) && goal[k].pos
                        < i,
                forall|k: Seq<char>| #[trigger]
                    live_of(log.records()).contains_key(k) ==> live_of(log.records())[k].value
                        == goal[k].value,
                forall|k: Seq<char>| #[trigger]
                    mem_map@.contains_key(k) <==> live_of(log.records()).contains_key(k),
                forall|k: Seq<char>| #[trigger]
                    mem_map@.contains_key(k) ==> mem_map@[k] == live_of(log.records())[k].pos,
                newest_writes(log.records()),
                same_order(live_of(log.records()), goal),
                forall|k: Seq<char>| #[trigger]
                    live_of(log.records()).contains_key(k) ==> live_of(log.records())[k].pos
                        < log.records().len(),
                mem_map@.dom().finite(),
                mem_map@.len() == log.records().len(),
            decreases records@.len() - i,
        {
            let entry = &records[i].1;
            assert(all[i as int] == entry@);
            let kept = match entry.command {
                Command::SET => match newest.get(entry.key.as_str()) {
                    Some(at) => *at == i,
                    None => false,
                },
                _ => false,
            };
            proof {
                assert forall|k: Seq<char>| goal.contains_key(k) implies (#[trigger] goal[k]).pos
                    != i || (kept && k == entry@.key) by {
                    lemma_live_is_written(all, k);
                }
            }
            if kept {
                let ghost before = log.records();
                let at = log.append(entry);
                mem_map.insert(entry.key.clone(), at);
                proof {
                    lemma_live_push(before, entry@);
                    lemma_live_is_written(all, entry@.key);
                    assert forall|j: int| 0 <= j < log.records().len() implies {
                        let r = #[trigger] log.records()[j];
                        &&& r.command == Command::SET
                        &&& live_of(log.records()).contains_key(r.key)
                        &&& live_of(log.records())[r.key].pos == j
                    } by {
                        if j < before.len() {
                            assert(log.records()[j] == before[j]);
                        }
                    }
                }
            }
            i += 1;
        }
        self.log = log;
        self.mem_map = mem_map;
        proof {
            assert forall|k: Seq<char>| goal.contains_key(k) implies (#[trigger] goal[k]).pos
                < all.len() by {
                lemma_live_is_written(all, k);
            }
            assert(self@ == old(self)@);
            lemma_live_finite(self.records());
            assert(self.index_view().dom() == self.live().dom());
        }
    }

    /// Every record of the log is a write, and the newest one of its key.
    pub open spec fn only_newest_writes(&self) -> bool {
        newest_writes(self.records())
    }
}

} // verus!
