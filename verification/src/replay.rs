//! What a sequence of records means: the keys that are live after all of
//! them, each with its value and the position of the record that wrote it.
//!
//! The position of a record is its place in the sequence, counted from 0.
//! Later records supersede earlier ones for the same key, whatever their
//! kind, so only the last `SET` or `RM` of a key decides.
use crate::record::{Command, EntryView};
use vstd::prelude::*;

verus! {

/// A live key's value and the position of the record that wrote it.
pub struct Live {
    pub pos: int,
    pub value: Seq<char>,
}

/// The live keys after one more record, which stands at position `pos`.
pub open spec fn apply(live: Map<Seq<char>, Live>, pos: int, r: EntryView) -> Map<Seq<char>, Live> {
    match r.command {
        Command::GET => live,
        Command::SET => live.insert(r.key, Live { pos, value: r.value }),
        Command::RM => live.remove(r.key),
    }
}

/// The live keys after all records, taken in order.
pub open spec fn live_of(records: Seq<EntryView>) -> Map<Seq<char>, Live>
    decreases records.len(),
{
    if records.len() == 0 {
        Map::empty()
    } else {
        apply(live_of(records.drop_last()), records.len() - 1, records.last())
    }
}

/// The value of each live key.
pub open spec fn contents_of(records: Seq<EntryView>) -> Map<Seq<char>, Seq<char>> {
    Map::new(
        |k: Seq<char>| live_of(records).contains_key(k),
        |k: Seq<char>| live_of(records)[k].value,
    )
}

/// The write record of `key` with this value.
pub open spec fn write_of(key: Seq<char>, value: Seq<char>) -> EntryView {
    EntryView { command: Command::SET, key, value }
}

/// One more record behind the others changes the live keys by that record
/// alone.
pub proof fn lemma_live_push(records: Seq<EntryView>, r: EntryView)
    ensures
        live_of(records.push(r)) == apply(live_of(records), records.len() as int, r),
{
    assert(records.push(r).drop_last() == records);
}

/// One more record behind the others changes the contents as its kind says:
/// a `SET` puts its value under its key, an `RM` takes its key out, a `GET`
/// changes nothing.
pub proof fn lemma_contents_push(records: Seq<EntryView>, r: EntryView)
    ensures
        contents_of(records.push(r)) == match r.command {
            Command::GET => contents_of(records),
            Command::SET => contents_of(records).insert(r.key, r.value),
            Command::RM => contents_of(records).remove(r.key),
        },
{
    lemma_live_push(records, r);
    match r.command {
        Command::GET => {},
        Command::SET => {
            assert(contents_of(records.push(r)) == contents_of(records).insert(r.key, r.value));
        },
        Command::RM => {
            assert(contents_of(records.push(r)) == contents_of(records).remove(r.key));
        },
    }
}

/// The live keys after the first `i + 1` records are those after the first
/// `i`, changed by record `i`.
pub proof fn lemma_live_step(records: Seq<EntryView>, i: int)
    requires
        0 <= i < records.len(),
    ensures
        live_of(records.take(i + 1)) == apply(live_of(records.take(i)), i, records[i]),
{
    assert(records.take(i + 1).drop_last() == records.take(i));
}

/// Only finitely many keys are live, and no more than there are records.
pub proof fn lemma_live_finite(records: Seq<EntryView>)
    ensures
        live_of(records).dom().finite(),
        live_of(records).len() <= records.len(),
    decreases records.len(),
{
    if records.len() > 0 {
        lemma_live_finite(records.drop_last());
    }
}

/// A live key was written by the record at the position kept for it: a `SET`
/// of that key with the value kept for it.
pub proof fn lemma_live_is_written(records: Seq<EntryView>, key: Seq<char>)
    requires
        live_of(records).contains_key(key),
    ensures
        0 <= live_of(records)[key].pos < records.len(),
        records[live_of(records)[key].pos] == write_of(key, live_of(records)[key].value),
    decreases records.len(),
{
    let last = records.last();
    let front = records.drop_last();
    if !(last.command == Command::SET && last.key == key) {
        lemma_live_is_written(front, key);
    }
}

/// Whether a record is a `SET` or an `RM` of `key`.
pub open spec fn touches(r: EntryView, key: Seq<char>) -> bool {
    r.key == key && r.command != Command::GET
}

/// The last `SET` or `RM` of a key decides it, whatever stands in front: a
/// `SET` makes the key live with its value and its own position, an `RM`
/// makes it absent.
pub proof fn lemma_last_record_decides(records: Seq<EntryView>, i: int)
    requires
        0 <= i < records.len(),
        records[i].command != Command::GET,
        forall|j: int| i < j < records.len() ==> !touches(#[trigger] records[j], records[i].key),
    ensures
        records[i].command == Command::SET ==> live_of(records).contains_key(records[i].key)
            && live_of(records)[records[i].key] == (Live { pos: i, value: records[i].value }),
        records[i].command == Command::RM ==> !live_of(records).contains_key(records[i].key),
    decreases records.len(),
{
    if i < records.len() - 1 {
        let front = records.drop_last();
        assert(front[i] == records[i]);
        assert forall|j: int| i < j < front.len() implies !touches(
            #[trigger] front[j],
            front[i].key,
        ) by {
            assert(front[j] == records[j]);
        }
        lemma_last_record_decides(front, i);
        assert(!touches(records[records.len() - 1], records[i].key));
    }
}

} // verus!
