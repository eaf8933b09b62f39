//! The append-only log: records stored as lines, one behind another.
//!
//! The position of a record is its place in the log, counted from 0: the
//! first record has position 0, the next position 1. Reading the lines from
//! the first byte until one fails to decode gives the records of the log; a
//! log is well framed when that reading ends exactly at its last byte. The
//! log keeps the byte offset of every line, so a record is found by its
//! position without reading the log again.
use crate::error::KvsError;
use crate::record::{
    decode_at, decode_frame, encode, encode_entry, lemma_decode_encode, lemma_decode_local,
    lemma_decode_moves, push_all, Decoded, Entry, EntryView, Frame,
};
use vstd::prelude::*;

verus! {

/// A record and the byte offset of its line.
pub struct Located {
    pub offset: int,
    pub entry: EntryView,
}

/// The lines read from the byte offset `at` on, up to the first that fails
/// to decode.
pub open spec fn lines_from(bytes: Seq<u8>, at: int) -> Seq<Located>
    decreases bytes.len() - at,
    when at >= 0
    via lines_from_decreases
{
    match decode_at(bytes, at) {
        Frame::Record { entry, next } => seq![Located { offset: at, entry }] + lines_from(
            bytes,
            next,
        ),
        _ => Seq::empty(),
    }
}

#[via_fn]
proof fn lines_from_decreases(bytes: Seq<u8>, at: int) {
    if decode_at(bytes, at) is Record {
        lemma_decode_moves(bytes, at);
    }
}

/// The byte offset at which reading from `at` on ends: that of the first
/// line that fails to decode, which for a well-framed log is its length.
pub open spec fn stop_from(bytes: Seq<u8>, at: int) -> int
    decreases bytes.len() - at,
    when at >= 0
    via stop_from_decreases
{
    match decode_at(bytes, at) {
        Frame::Record { entry, next } => stop_from(bytes, next),
        _ => at,
    }
}

#[via_fn]
proof fn stop_from_decreases(bytes: Seq<u8>, at: int) {
    if decode_at(bytes, at) is Record {
        lemma_decode_moves(bytes, at);
    }
}

/// The records of the lines, in order.
pub open spec fn entries_of(lines: Seq<Located>) -> Seq<EntryView> {
    Seq::new(lines.len(), |i: int| lines[i].entry)
}

/// The records that the bytes hold: record `i` is the one at position `i`.
pub open spec fn records_of(bytes: Seq<u8>) -> Seq<EntryView> {
    entries_of(lines_from(bytes, 0))
}

/// Whether the bytes are whole valid lines from the first byte to the last.
pub open spec fn well_framed(bytes: Seq<u8>) -> bool {
    stop_from(bytes, 0) == bytes.len()
}

/// The records of a list of numbered entries, as mathematical values.
pub open spec fn entries(items: Seq<(usize, Entry)>) -> Seq<EntryView> {
    Seq::new(items.len(), |i: int| items[i].1@)
}

/// Whether each item of the list carries its own place in the list.
pub open spec fn numbered(items: Seq<(usize, Entry)>) -> bool {
    forall|i: int| 0 <= i < items.len() ==> (#[trigger] items[i]).0 == i
}

/// Reading ends between the starting offset and the end of the bytes.
pub proof fn lemma_stop_bounds(bytes: Seq<u8>, at: int)
    requires
        0 <= at <= bytes.len(),
    ensures
        at <= stop_from(bytes, at) <= bytes.len(),
    decreases bytes.len() - at,
{
    if let Frame::Record { entry, next } = decode_at(bytes, at) {
        lemma_decode_moves(bytes, at);
        lemma_stop_bounds(bytes, next);
    }
}

/// Each line starts at or behind the starting offset and decodes to its
/// record; there are no more lines than bytes.
pub proof fn lemma_lines_located(bytes: Seq<u8>, at: int)
    requires
        0 <= at <= bytes.len(),
    ensures
        lines_from(bytes, at).len() <= bytes.len() - at,
        forall|i: int|
            0 <= i < lines_from(bytes, at).len() ==> {
                let r = #[trigger] lines_from(bytes, at)[i];
                &&& at <= r.offset < bytes.len()
                &&& decode_at(bytes, r.offset) is Record
                &&& decode_at(bytes, r.offset)->entry == r.entry
            },
    decreases bytes.len() - at,
{
    if let Frame::Record { entry, next } = decode_at(bytes, at) {
        lemma_decode_moves(bytes, at);
        lemma_lines_located(bytes, next);
        let rest = lines_from(bytes, next);
        let all = lines_from(bytes, at);
        assert forall|i: int| 0 <= i < all.len() implies {
            let r = #[trigger] all[i];
            &&& at <= r.offset < bytes.len()
            &&& decode_at(bytes, r.offset) is Record
            &&& decode_at(bytes, r.offset)->entry == r.entry
        } by {
            if i > 0 {
                assert(all[i] == rest[i - 1]);
            }
        }
    }
}

/// Cutting the bytes where reading ends loses no record and leaves a log
/// that reads to its last byte.
pub proof fn lemma_cut_at_stop(bytes: Seq<u8>, at: int)
    requires
        0 <= at <= bytes.len(),
    ensures
        lines_from(bytes.subrange(0, stop_from(bytes, at)), at) == lines_from(bytes, at),
        stop_from(bytes.subrange(0, stop_from(bytes, at)), at) == stop_from(bytes, at),
    decreases bytes.len() - at,
{
    lemma_stop_bounds(bytes, at);
    let cut = stop_from(bytes, at);
    let head = bytes.subrange(0, cut);
    if let Frame::Record { entry, next } = decode_at(bytes, at) {
        lemma_decode_moves(bytes, at);
        lemma_stop_bounds(bytes, next);
        lemma_cut_at_stop(bytes, next);
        assert(bytes.subrange(at, next) == head.subrange(at, next));
        lemma_decode_local(bytes, head, at);
    } else {
        assert(cut == at);
        if decode_at(head, at) is Record {
            lemma_decode_moves(head, at);
        }
    }
}

/// A line appended to a log that reads to its last byte adds its record
/// behind the others, and the longer log reads to its last byte too.
pub proof fn lemma_append_line(bytes: Seq<u8>, e: EntryView, at: int)
    requires
        0 <= at <= bytes.len(),
        stop_from(bytes, at) == bytes.len(),
    ensures
        lines_from(bytes + encode(e), at) == lines_from(bytes, at).push(
            Located { offset: bytes.len() as int, entry: e },
        ),
        stop_from(bytes + encode(e), at) == bytes.len() + encode(e).len(),
    decreases bytes.len() - at,
{
    let longer = bytes + encode(e);
    let added = Located { offset: bytes.len() as int, entry: e };
    if let Frame::Record { entry, next } = decode_at(bytes, at) {
        lemma_decode_moves(bytes, at);
        lemma_append_line(bytes, e, next);
        assert(bytes.subrange(at, next) == longer.subrange(at, next));
        lemma_decode_local(bytes, longer, at);
        assert(seq![Located { offset: at, entry }] + lines_from(bytes, next).push(added) == (
        seq![Located { offset: at, entry }] + lines_from(bytes, next)).push(added));
    } else {
        assert(at == bytes.len());
        lemma_decode_encode(bytes, e, Seq::empty());
        assert(bytes + encode(e) + Seq::<u8>::empty() == longer);
        if decode_at(longer, longer.len() as int) is Record {
            lemma_decode_moves(longer, longer.len() as int);
        }
        assert(lines_from(longer, longer.len() as int) == Seq::<Located>::empty());
        assert(stop_from(longer, longer.len() as int) == longer.len());
        assert(seq![added] + Seq::<Located>::empty() == Seq::<Located>::empty().push(added));
    }
}

/// The log of a store.
pub struct Log {
    /// The lines of all records, one behind another.
    bytes: Vec<u8>,
    /// The byte offset of the line of each record, by position.
    offsets: Vec<usize>,
}

impl View for Log {
    type V = Seq<u8>;

    closed spec fn view(&self) -> Seq<u8> {
        self.bytes@
    }
}

impl Log {
    /// The records of the log in the order written: record `i` is the one
    /// at position `i`.
    pub open spec fn records(&self) -> Seq<EntryView> {
        records_of(self@)
    }

    /// The byte offsets that the log keeps, one for each record.
    pub closed spec fn offsets(&self) -> Seq<usize> {
        self.offsets@
    }

    /// The number of records that the log keeps count of.
    pub closed spec fn spec_record_count(&self) -> usize {
        self.offsets.len()
    }

    /// The log is whole lines throughout and keeps the offset of each.
    pub open spec fn wf(&self) -> bool {
        &&& well_framed(self@)
        &&& self@.len() <= usize::MAX
        &&& self.spec_record_count() == self.records().len()
        &&& self.offsets().len() == lines_from(self@, 0).len()
        &&& forall|i: int|
            0 <= i < self.offsets().len() ==> (#[trigger] self.offsets()[i]) == lines_from(
                self@,
                0,
            )[i].offset
    }

    /// A log without records.
    pub fn new() -> (log: Log)
        ensures
            log.wf(),
            log@ == Seq::<u8>::empty(),
            log.records() == Seq::<EntryView>::empty(),
    {
        let log = Log { bytes: Vec::new(), offsets: Vec::new() };
        proof {
            if decode_at(log@, 0) is Record {
                lemma_decode_moves(log@, 0);
            }
            assert(log.records() == Seq::<EntryView>::empty());
        }
        log
    }

    /// Takes over stored bytes as a log. Where the bytes end in the middle
    /// of a record, that last record is dropped. A whole line that stores no
    /// record is an error that names its position, wherever it stands.
    pub fn open(bytes: Vec<u8>) -> (r: Result<Log, KvsError>)
        ensures
            match r {
                Ok(log) => {
                    &&& !(decode_at(bytes@, stop_from(bytes@, 0)) is Corrupt)
                    &&& log.wf()
                    &&& log@ == bytes@.subrange(0, stop_from(bytes@, 0))
                    &&& log.records() == records_of(bytes@)
                },
                Err(e) => {
                    &&& decode_at(bytes@, stop_from(bytes@, 0)) is Corrupt
                    &&& e == KvsError::Corrupt(records_of(bytes@).len() as usize)
                },
            },
    {
        let mut kept = bytes;
        let mut offsets: Vec<usize> = Vec::new();
        let mut at: usize = 0;
        let ghost all = lines_from(bytes@, 0);
        proof {
            lemma_lines_located(bytes@, 0);
            assert(all.take(0) + lines_from(bytes@, 0) == all);
        }
        loop
            invariant
                kept@ == bytes@,
                all == lines_from(bytes@, 0),
                all.len() <= bytes@.len(),
                0 <= at <= bytes@.len(),
                stop_from(bytes@, 0) == stop_from(bytes@, at as int),
                offsets@.len() <= all.len(),
                all == all.take(offsets@.len() as int) + lines_from(bytes@, at as int),
                forall|i: int| 0 <= i < offsets@.len() ==> (#[trigger] offsets@[i]) == all[i].offset,
            decreases bytes@.len() - at,
        {
            let ghost n = offsets@.len() as int;
            match decode_frame(kept.as_slice(), at) {
                Decoded::Record { entry, next } => {
                    proof {
                        lemma_decode_moves(bytes@, at as int);
                        let here = Located { offset: at as int, entry: entry@ };
                        let rest = lines_from(bytes@, next as int);
                        assert(all == all.take(n) + (seq![here] + rest));
                        assert(all[n] == (all.take(n) + (seq![here] + rest))[n]);
                        assert(all.take(n + 1) == all.take(n).push(here));
                        assert(all.take(n).push(here) + rest == all.take(n) + (seq![here] + rest));
                    }
                    offsets.push(at);
                    at = next;
                },
                Decoded::Truncated => {
                    proof {
                        lemma_stop_bounds(bytes@, 0);
                        lemma_cut_at_stop(bytes@, 0);
                        assert(all.take(n) + Seq::<Located>::empty() == all.take(n));
                        assert(all.take(n) == all);
                    }
                    kept.truncate(at);
                    return Ok(Log { bytes: kept, offsets });
                },
                Decoded::Corrupt => {
                    proof {
                        assert(all.take(n) + Seq::<Located>::empty() == all.take(n));
                        assert(all.take(n) == all);
                    }
                    return Err(KvsError::Corrupt(offsets.len()));
                },
            }
        }
    }

    /// The length of the log in bytes.
    pub fn len(&self) -> (n: usize)
        ensures
            n == self@.len(),
    {
        self.bytes.len()
    }

    /// The number of records in the log, which is the position that the
    /// next record will get.
    #[verifier::when_used_as_spec(spec_record_count)]
    pub fn record_count(&self) -> (n: usize)
        ensures
            n == self.spec_record_count(),
    {
        self.offsets.len()
    }

    /// The bytes of the log, as they are to be stored.
    pub fn as_bytes(&self) -> (bytes: &Vec<u8>)
        ensures
            bytes@ == self@,
    {
        &self.bytes
    }

    /// Writes a record behind the last one and returns its position.
    /// Nothing that was in the log changes.
    pub fn append(&mut self, e: &Entry) -> (pos: usize)
        requires
            old(self).wf(),
        ensures
            final(self).wf(),
            pos == old(self).records().len(),
            final(self)@ == old(self)@ + encode(e@),
            final(self).records() == old(self).records().push(e@),
    {
        let pos = self.offsets.len();
        let offset = self.bytes.len();
        let line = encode_entry(e);
        proof {
            lemma_append_line(self.bytes@, e@, 0);
            assert(entries_of(lines_from(self.bytes@, 0).push(
                Located { offset: offset as int, entry: e@ },
            )) == entries_of(lines_from(self.bytes@, 0)).push(e@));
        }
        push_all(&mut self.bytes, line.as_slice());
        self.offsets.push(offset);
        assert(self.bytes@.len() == self.bytes.len());
        pos
    }

    /// Reads the record at a position. Fails where the log has no record at
    /// that position: where the position is the number of records or more.
    pub fn read_at(&self, pos: usize) -> (r: Result<Entry, KvsError>)
        requires
            self.wf(),
        ensures
            match r {
                Ok(e) => pos < self.records().len() && e@ == self.records()[pos as int],
                Err(e) => pos >= self.records().len() && e == KvsError::Corrupt(pos),
            },
    {
        if pos >= self.offsets.len() {
            return Err(KvsError::Corrupt(pos));
        }
        proof {
            lemma_lines_located(self.bytes@, 0);
        }
        match decode_frame(self.bytes.as_slice(), self.offsets[pos]) {
            Decoded::Record { entry, next } => Ok(entry),
            _ => Err(KvsError::Corrupt(pos)),
        }
    }

    /// All records of the log in the order written, each with its position:
    /// 0 for the first, 1 for the next.
    pub fn replay(&self) -> (out: Vec<(usize, Entry)>)
        ensures
            entries(out@) == self.records(),
            numbered(out@),
    {
        let mut out: Vec<(usize, Entry)> = Vec::new();
        let mut at: usize = 0;
        let ghost all = lines_from(self.bytes@, 0);
        proof {
            assert(all.take(0) + lines_from(self.bytes@, 0) == all);
        }
        loop
            invariant
                all == lines_from(self.bytes@, 0),
                0 <= at <= self.bytes@.len(),
                out@.len() <= all.len(),
                all == all.take(out@.len() as int) + lines_from(self.bytes@, at as int),
                entries(out@) == entries_of(all.take(out@.len() as int)),
                numbered(out@),
            decreases self.bytes@.len() - at,
        {
            let ghost n = out@.len() as int;
            match decode_frame(self.bytes.as_slice(), at) {
                Decoded::Record { entry, next } => {
                    proof {
                        lemma_decode_moves(self.bytes@, at as int);
                        let here = Located { offset: at as int, entry: entry@ };
                        let rest = lines_from(self.bytes@, next as int);
                        assert(all == all.take(n) + (seq![here] + rest));
                        assert(all[n] == (all.take(n) + (seq![here] + rest))[n]);
                        assert(all.take(n + 1) == all.take(n).push(here));
                        assert(all.take(n).push(here) + rest == all.take(n) + (seq![here] + rest));
                    }
                    let pos = out.len();
                    let ghost before = out@;
                    out.push((pos, entry));
                    proof {
                        assert forall|i: int| 0 <= i < n + 1 implies entries(out@)[i]
                            == #[trigger] entries_of(all.take(n + 1))[i] by {
                            if i < n {
                                assert(entries(out@)[i] == entries(before)[i]);
                                assert(entries_of(all.take(n))[i] == all.take(n)[i].entry);
                            }
                        }
                        assert(entries(out@) == entries_of(all.take(n + 1)));
                    }
                    at = next;
                },
                _ => {
                    proof {
                        assert(all.take(n) + Seq::<Located>::empty() == all.take(n));
                        assert(all.take(n) == all);
                    }
                    return out;
                },
            }
        }
    }
}

} // verus!
