//! Histories of changes, and what a store holds after one.
//!
//! A call of `set` or `remove` changes the contents of a store by one step:
//! a `Write` or a `Delete`. The lemmas here follow a whole history of such
//! steps and say which of them decides a key.
use vstd::prelude::*;

verus! {

/// One change asked of a store.
pub enum Op {
    Write { key: Seq<char>, value: Seq<char> },
    Delete { key: Seq<char> },
}

impl Op {
    /// The key that the change is about.
    pub open spec fn key(self) -> Seq<char> {
        match self {
            Op::Write { key, value } => key,
            Op::Delete { key } => key,
        }
    }
}

/// The contents after one change. A `Delete` of a key that is not there
/// fails and leaves the contents as they were, which is what removing the
/// key from the map gives too.
pub open spec fn step(contents: Map<Seq<char>, Seq<char>>, op: Op) -> Map<Seq<char>, Seq<char>> {
    match op {
        Op::Write { key, value } => contents.insert(key, value),
        Op::Delete { key } => contents.remove(key),
    }
}

/// The contents after a history of changes, oldest first.
pub open spec fn run(contents: Map<Seq<char>, Seq<char>>, ops: Seq<Op>) -> Map<
    Seq<char>,
    Seq<char>,
>
    decreases ops.len(),
{
    if ops.len() == 0 {
        contents
    } else {
        step(run(contents, ops.drop_last()), ops.last())
    }
}

/// A key holds the value of the last `Write` for it, whatever was written
/// or deleted before, as long as the key is not deleted afterwards.
pub proof fn lemma_last_write_wins(contents: Map<Seq<char>, Seq<char>>, ops: Seq<Op>, i: int)
    requires
        0 <= i < ops.len(),
        ops[i] is Write,
        forall|j: int| i < j < ops.len() ==> (#[trigger] ops[j]).key() != ops[i].key(),
    ensures
        run(contents, ops).contains_key(ops[i].key()),
        run(contents, ops)[ops[i].key()] == ops[i]->value,
    decreases ops.len(),
{
    if i < ops.len() - 1 {
        let front = ops.drop_last();
        assert(front[i] == ops[i]);
        assert forall|j: int| i < j < front.len() implies (#[trigger] front[j]).key()
            != front[i].key() by {
            assert(front[j] == ops[j]);
        }
        lemma_last_write_wins(contents, front, i);
        assert(ops.last() == ops[ops.len() - 1]);
    }
}

/// A key that was deleted is absent, whatever was written or deleted
/// before, until it is written again.
pub proof fn lemma_deleted_stays_absent(contents: Map<Seq<char>, Seq<char>>, ops: Seq<Op>, i: int)
    requires
        0 <= i < ops.len(),
        ops[i] is Delete,
        forall|j: int|
            i < j < ops.len() ==> !((#[trigger] ops[j]) is Write && ops[j].key() == ops[i].key()),
    ensures
        !run(contents, ops).contains_key(ops[i].key()),
    decreases ops.len(),
{
    if i < ops.len() - 1 {
        let front = ops.drop_last();
        assert(front[i] == ops[i]);
        assert forall|j: int| i < j < front.len() implies !((#[trigger] front[j]) is Write
            && front[j].key() == front[i].key()) by {
            assert(front[j] == ops[j]);
        }
        lemma_deleted_stays_absent(contents, front, i);
        assert(ops.last() == ops[ops.len() - 1]);
    }
}

} // verus!
