//! Log records and their byte encoding.
//!
//! A record is stored as one line of text:
//!
//! ```text
//! tag | key | TAB | value | LF
//! ```
//!
//! The tag is one letter for the kind of the record. Key and value are UTF-8
//! with three bytes escaped: a line feed as `\n`, a tab as `\t`, a backslash
//! as `\\`. So a line feed ends a record and nothing else, and a log can be
//! cut into records wherever it was damaged.
use vstd::prelude::*;
use vstd::slice::*;
use vstd::utf8::*;

verus! {

/// The kind of a record.
#[derive(Clone, Copy, Debug, PartialEq, Eq, Structural)]
pub enum Command {
    /// A lookup. It changes nothing and is skipped on replay.
    GET,
    /// Writes a value under a key.
    SET,
    /// Deletes a key.
    RM,
}

/// One record of the log. For `RM` the value is carried but never read.
#[derive(Clone, Debug, PartialEq)]
pub struct Entry {
    pub command: Command,
    pub key: String,
    pub value: String,
}

/// A record as a mathematical value.
pub struct EntryView {
    pub command: Command,
    pub key: Seq<char>,
    pub value: Seq<char>,
}

impl View for Entry {
    type V = EntryView;

    open spec fn view(&self) -> EntryView {
        EntryView { command: self.command, key: self.key@, value: self.value@ }
    }
}

/// The byte that ends a record.
pub const LINE_FEED: u8 = 10;

/// The byte between key and value.
pub const TAB: u8 = 9;

/// The byte that starts an escape.
pub const BACKSLASH: u8 = 92;

impl Command {
    /// The tag byte that stands for this kind in a record: `G`, `S` or `R`.
    pub open spec fn tag(self) -> u8 {
        match self {
            Command::GET => 71,
            Command::SET => 83,
            Command::RM => 82,
        }
    }

    /// The kind that a tag byte stands for, if any.
    pub open spec fn of_tag(tag: u8) -> Option<Command> {
        if tag == 71 {
            Some(Command::GET)
        } else if tag == 83 {
            Some(Command::SET)
        } else if tag == 82 {
            Some(Command::RM)
        } else {
            None
        }
    }

    /// The tag byte of this kind.
    pub fn to_tag(self) -> (tag: u8)
        ensures
            tag == self.tag(),
    {
        match self {
            Command::GET => 71,
            Command::SET => 83,
            Command::RM => 82,
        }
    }

    /// The kind with this tag byte, or `None` where the byte is no tag.
    pub fn from_tag(tag: u8) -> (r: Option<Command>)
        ensures
            r == Command::of_tag(tag),
    {
        if tag == 71 {
            Some(Command::GET)
        } else if tag == 83 {
            Some(Command::SET)
        } else if tag == 82 {
            Some(Command::RM)
        } else {
            None
        }
    }
}

/// One byte as it stands in a record.
pub open spec fn escape_byte(b: u8) -> Seq<u8> {
    if b == LINE_FEED {
        seq![BACKSLASH, 110u8]
    } else if b == TAB {
        seq![BACKSLASH, 116u8]
    } else if b == BACKSLASH {
        seq![BACKSLASH, BACKSLASH]
    } else {
        seq![b]
    }
}

/// Bytes as they stand in a record: each byte escaped, in order.
pub open spec fn escape(bytes: Seq<u8>) -> Seq<u8>
    decreases bytes.len(),
{
    if bytes.len() == 0 {
        Seq::empty()
    } else {
        escape(bytes.drop_last()) + escape_byte(bytes.last())
    }
}

/// Where the reading of escaped bytes stands: the bytes read so far, whether
/// a backslash waits for its second byte, and whether all was valid so far.
pub struct Unescaping {
    pub out: Seq<u8>,
    pub pending: bool,
    pub ok: bool,
}

/// Reads one more escaped byte. A line feed or a tab that is not escaped, and
/// a backslash in front of anything but `n`, `t` or a backslash, are invalid.
pub open spec fn unescape_step(st: Unescaping, b: u8) -> Unescaping {
    if !st.ok {
        st
    } else if st.pending {
        if b == 110 {
            Unescaping { out: st.out.push(LINE_FEED), pending: false, ok: true }
        } else if b == 116 {
            Unescaping { out: st.out.push(TAB), pending: false, ok: true }
        } else if b == BACKSLASH {
            Unescaping { out: st.out.push(BACKSLASH), pending: false, ok: true }
        } else {
            Unescaping { out: st.out, pending: false, ok: false }
        }
    } else if b == BACKSLASH {
        Unescaping { out: st.out, pending: true, ok: true }
    } else if b == LINE_FEED || b == TAB {
        Unescaping { out: st.out, pending: false, ok: false }
    } else {
        Unescaping { out: st.out.push(b), pending: false, ok: true }
    }
}

/// Reads escaped bytes from first to last.
pub open spec fn unescaping(escaped: Seq<u8>) -> Unescaping
    decreases escaped.len(),
{
    if escaped.len() == 0 {
        Unescaping { out: Seq::empty(), pending: false, ok: true }
    } else {
        unescape_step(unescaping(escaped.drop_last()), escaped.last())
    }
}

/// The bytes that escaped bytes stand for, or `None` where they are invalid.
pub open spec fn unescape(escaped: Seq<u8>) -> Option<Seq<u8>> {
    let st = unescaping(escaped);
    if st.ok && !st.pending {
        Some(st.out)
    } else {
        None
    }
}

/// The first position at or behind `from` that holds `b`, or the length of
/// the bytes where none does.
pub open spec fn find(bytes: Seq<u8>, from: int, b: u8) -> int
    decreases bytes.len() - from,
{
    if from < 0 || from >= bytes.len() {
        bytes.len() as int
    } else if bytes[from] == b {
        from
    } else {
        find(bytes, from + 1, b)
    }
}

/// The line that stores a record, with the line feed that ends it.
pub open spec fn encode(e: EntryView) -> Seq<u8> {
    seq![e.command.tag()] + escape(encode_utf8(e.key)) + seq![TAB] + escape(encode_utf8(e.value))
        + seq![LINE_FEED]
}

/// The record that a line stores, the line taken without the line feed that
/// ends it, or `None` where the line stores none: where it is empty, its tag
/// is none that is known, it has no tab, or key or value is not validly
/// escaped UTF-8.
pub open spec fn decode_line(line: Seq<u8>) -> Option<EntryView> {
    let tab = find(line, 1, TAB);
    if line.len() == 0 || tab >= line.len() {
        None
    } else {
        match (
            Command::of_tag(line[0]),
            unescape(line.subrange(1, tab)),
            unescape(line.subrange(tab + 1, line.len() as int)),
        ) {
            (Some(command), Some(key), Some(value)) => if valid_utf8(key) && valid_utf8(value) {
                Some(EntryView { command, key: decode_utf8(key), value: decode_utf8(value) })
            } else {
                None
            },
            _ => None,
        }
    }
}

/// What stands at a byte offset of a log.
pub enum Frame {
    /// A whole line that stores a record; `next` is the offset right behind
    /// its line feed.
    Record { entry: EntryView, next: int },
    /// No line feed follows: the bytes end in the middle of a record, or
    /// right here.
    Truncated,
    /// A whole line that stores no record.
    Corrupt,
}

/// Reads the line that starts at the byte offset `at`.
pub open spec fn decode_at(bytes: Seq<u8>, at: int) -> Frame {
    let end = find(bytes, at, LINE_FEED);
    if at < 0 || end >= bytes.len() {
        Frame::Truncated
    } else {
        match decode_line(bytes.subrange(at, end)) {
            Some(entry) => Frame::Record { entry, next: end + 1 },
            None => Frame::Corrupt,
        }
    }
}

/// What was read at a byte offset of a log.
pub enum Decoded {
    /// A whole line that stores a record; `next` is the offset right behind
    /// its line feed.
    Record { entry: Entry, next: usize },
    /// No line feed follows: the bytes end in the middle of a record, or
    /// right here.
    Truncated,
    /// A whole line that stores no record.
    Corrupt,
}

impl View for Decoded {
    type V = Frame;

    open spec fn view(&self) -> Frame {
        match *self {
            Decoded::Record { entry, next } => Frame::Record { entry: entry@, next: next as int },
            Decoded::Truncated => Frame::Truncated,
            Decoded::Corrupt => Frame::Corrupt,
        }
    }
}

/// `String::from_utf8`: the string that the bytes encode, or `None` where
/// they are not valid UTF-8.
#[verifier::external_body]
fn string_from_utf8(bytes: Vec<u8>) -> (r: Option<String>)
    ensures
        match r {
            Some(s) => valid_utf8(bytes@) && s@ == decode_utf8(bytes@),
            None => !valid_utf8(bytes@),
        },
{
    match String::from_utf8(bytes) {
        Ok(s) => Some(s),
        Err(_) => None,
    }
}

/// Appends `src` to `out`.
pub(crate) fn push_all(out: &mut Vec<u8>, src: &[u8])
    ensures
        final(out)@ == old(out)@ + src@,
{
    let mut i: usize = 0;
    while i < src.len()
        invariant
            i <= src@.len(),
            out@ == old(out)@ + src@.subrange(0, i as int),
        decreases src@.len() - i,
    {
        out.push(src[i]);
        i += 1;
    }
    assert(src@.subrange(0, i as int) == src@);
}

/// Appends `src` to `out`, escaped.
fn escape_into(out: &mut Vec<u8>, src: &[u8])
    ensures
        final(out)@ == old(out)@ + escape(src@),
{
    let mut i: usize = 0;
    while i < src.len()
        invariant
            i <= src@.len(),
            out@ == old(out)@ + escape(src@.take(i as int)),
        decreases src@.len() - i,
    {
        let b = src[i];
        proof {
            assert(src@.take(i + 1).drop_last() == src@.take(i as int));
        }
        if b == LINE_FEED {
            out.push(BACKSLASH);
            out.push(110);
        } else if b == TAB {
            out.push(BACKSLASH);
            out.push(116);
        } else if b == BACKSLASH {
            out.push(BACKSLASH);
            out.push(BACKSLASH);
        } else {
            out.push(b);
        }
        i += 1;
        assert(out@ == old(out)@ + escape(src@.take(i as int)));
    }
    assert(src@.take(i as int) == src@);
}

/// The bytes that escaped bytes stand for, or `None` where they are invalid.
fn unescape_bytes(src: &[u8]) -> (r: Option<Vec<u8>>)
    ensures
        match r {
            Some(out) => unescape(src@) == Some(out@),
            None => unescape(src@) is None,
        },
{
    let mut out: Vec<u8> = Vec::new();
    let mut pending = false;
    let mut i: usize = 0;
    while i < src.len()
        invariant
            i <= src@.len(),
            unescaping(src@.take(i as int)) == (Unescaping { out: out@, pending, ok: true }),
        decreases src@.len() - i,
    {
        let b = src[i];
        proof {
            assert(src@.take(i + 1).drop_last() == src@.take(i as int));
            if !unescaping(src@.take(i + 1)).ok {
                lemma_unescaping_stays_invalid(src@.take(i + 1), src@);
            }
        }
        if pending {
            if b == 110 {
                out.push(LINE_FEED);
            } else if b == 116 {
                out.push(TAB);
            } else if b == BACKSLASH {
                out.push(BACKSLASH);
            } else {
                return None;
            }
            pending = false;
        } else if b == BACKSLASH {
            pending = true;
        } else if b == LINE_FEED || b == TAB {
            return None;
        } else {
            out.push(b);
        }
        i += 1;
    }
    assert(src@.take(i as int) == src@);
    if pending {
        None
    } else {
        Some(out)
    }
}

/// The first position at or behind `from` that holds `b`, or the length of
/// the bytes where none does.
fn find_byte(bytes: &[u8], from: usize, b: u8) -> (at: usize)
    ensures
        at == find(bytes@, from as int, b),
{
    let mut i = from;
    while i < bytes.len()
        invariant
            find(bytes@, from as int, b) == find(bytes@, i as int, b),
        decreases bytes@.len() - i,
    {
        if bytes[i] == b {
            return i;
        }
        i += 1;
    }
    bytes.len()
}

/// Encodes a record as a line.
pub fn encode_entry(e: &Entry) -> (out: Vec<u8>)
    ensures
        out@ == encode(e@),
{
    let mut out: Vec<u8> = Vec::new();
    out.push(e.command.to_tag());
    escape_into(&mut out, e.key.as_str().as_bytes());
    out.push(TAB);
    escape_into(&mut out, e.value.as_str().as_bytes());
    out.push(LINE_FEED);
    out
}

/// The record that a line stores, the line taken without the line feed that
/// ends it.
fn decode_entry(line: &[u8]) -> (r: Option<Entry>)
    ensures
        match r {
            Some(e) => decode_line(line@) == Some(e@),
            None => decode_line(line@) is None,
        },
{
    let tab = find_byte(line, 1, TAB);
    if line.len() == 0 || tab >= line.len() {
        return None;
    }
    proof {
        lemma_find_bounds(line@, 1, TAB);
    }
    let command = match Command::from_tag(line[0]) {
        Some(command) => command,
        None => { return None; },
    };
    let key = match unescape_bytes(slice_subrange(line, 1, tab)) {
        Some(key) => key,
        None => { return None; },
    };
    let value = match unescape_bytes(slice_subrange(line, tab + 1, line.len())) {
        Some(value) => value,
        None => { return None; },
    };
    match (string_from_utf8(key), string_from_utf8(value)) {
        (Some(key), Some(value)) => Some(Entry { command, key, value }),
        _ => None,
    }
}

/// Reads the line that starts at the byte offset `at`.
pub fn decode_frame(bytes: &[u8], at: usize) -> (r: Decoded)
    ensures
        r@ == decode_at(bytes@, at as int),
{
    let end = find_byte(bytes, at, LINE_FEED);
    if end >= bytes.len() {
        return Decoded::Truncated;
    }
    proof {
        lemma_find_bounds(bytes@, at as int, LINE_FEED);
    }
    match decode_entry(slice_subrange(bytes, at, end)) {
        Some(entry) => Decoded::Record { entry, next: end + 1 },
        None => Decoded::Corrupt,
    }
}

/// Once reading has met something invalid, reading on does not mend it.
pub proof fn lemma_unescaping_stays_invalid(head: Seq<u8>, all: Seq<u8>)
    requires
        head.is_prefix_of(all),
        !unescaping(head).ok,
    ensures
        !unescaping(all).ok,
    decreases all.len(),
{
    if head.len() < all.len() {
        assert(head.is_prefix_of(all.drop_last()));
        lemma_unescaping_stays_invalid(head, all.drop_last());
    } else {
        assert(head == all);
    }
}

/// Escaped bytes hold no line feed and no tab.
pub proof fn lemma_escape_clean(bytes: Seq<u8>)
    ensures
        forall|i: int|
            0 <= i < escape(bytes).len() ==> (#[trigger] escape(bytes)[i]) != LINE_FEED && escape(
                bytes,
            )[i] != TAB,
    decreases bytes.len(),
{
    if bytes.len() > 0 {
        let front = escape(bytes.drop_last());
        let last = escape_byte(bytes.last());
        lemma_escape_clean(bytes.drop_last());
        assert forall|i: int| 0 <= i < escape(bytes).len() implies (#[trigger] escape(bytes)[i])
            != LINE_FEED && escape(bytes)[i] != TAB by {
            if i < front.len() {
                assert(escape(bytes)[i] == front[i]);
            } else {
                assert(escape(bytes)[i] == last[i - front.len()]);
            }
        }
    }
}

/// Reading escaped bytes gives back the bytes that were escaped.
pub proof fn lemma_unescape_escape(bytes: Seq<u8>)
    ensures
        unescaping(escape(bytes)) == (Unescaping { out: bytes, pending: false, ok: true }),
        unescape(escape(bytes)) == Some(bytes),
    decreases bytes.len(),
{
    if bytes.len() > 0 {
        let front = bytes.drop_last();
        let b = bytes.last();
        lemma_unescape_escape(front);
        assert(front.push(b) == bytes);
        let before = unescaping(escape(front));
        if b == LINE_FEED || b == TAB || b == BACKSLASH {
            let one = escape(front).push(BACKSLASH);
            let second = escape_byte(b)[1];
            assert(escape_byte(b) == seq![BACKSLASH, second]);
            assert(escape(bytes) == one.push(second));
            assert(one.drop_last() == escape(front));
            assert(one.push(second).drop_last() == one);
            assert(unescaping(one) == unescape_step(before, BACKSLASH));
            assert(unescaping(one.push(second)) == unescape_step(unescaping(one), second));
        } else {
            assert(escape_byte(b) == seq![b]);
            assert(escape(bytes) == escape(front).push(b));
            assert(escape(front).push(b).drop_last() == escape(front));
            assert(unescaping(escape(front).push(b)) == unescape_step(before, b));
        }
    } else {
        assert(bytes == Seq::<u8>::empty());
    }
}

/// `find` gives a position between `from` and the end; where it is not the
/// end, it holds the byte, and no position from `from` up to it does.
pub proof fn lemma_find_bounds(bytes: Seq<u8>, from: int, b: u8)
    requires
        0 <= from <= bytes.len(),
    ensures
        from <= find(bytes, from, b) <= bytes.len(),
        find(bytes, from, b) < bytes.len() ==> bytes[find(bytes, from, b)] == b,
        forall|i: int| from <= i < find(bytes, from, b) ==> #[trigger] bytes[i] != b,
    decreases bytes.len() - from,
{
    if from < bytes.len() && bytes[from] != b {
        lemma_find_bounds(bytes, from + 1, b);
    }
}

/// The first position that holds the byte is what `find` gives.
pub proof fn lemma_find_at(bytes: Seq<u8>, from: int, b: u8, at: int)
    requires
        0 <= from <= at <= bytes.len(),
        at < bytes.len() ==> bytes[at] == b,
        forall|i: int| from <= i < at ==> #[trigger] bytes[i] != b,
    ensures
        find(bytes, from, b) == at,
    decreases at - from,
{
    if from < at {
        lemma_find_at(bytes, from + 1, b, at);
    }
}

/// A line behind any bytes, and in front of any others, decodes to the
/// record it was made from.
pub proof fn lemma_decode_encode(before: Seq<u8>, e: EntryView, after: Seq<u8>)
    ensures
        decode_at(before + encode(e) + after, before.len() as int) == (Frame::Record {
            entry: e,
            next: (before.len() + encode(e).len()) as int,
        }),
{
    broadcast use {encode_utf8_valid_utf8, encode_utf8_decode_utf8};

    let key = escape(encode_utf8(e.key));
    let value = escape(encode_utf8(e.value));
    let all = before + encode(e) + after;
    let at = before.len() as int;
    let tab = (1 + key.len()) as int;
    let end = at + encode(e).len() - 1;
    let line = seq![e.command.tag()] + key + seq![TAB] + value;
    lemma_escape_clean(encode_utf8(e.key));
    lemma_escape_clean(encode_utf8(e.value));
    lemma_unescape_escape(encode_utf8(e.key));
    lemma_unescape_escape(encode_utf8(e.value));
    assert(encode(e) == line + seq![LINE_FEED]);
    assert forall|i: int| 0 <= i < line.len() implies #[trigger] line[i] != LINE_FEED by {
        if 1 <= i < tab {
            assert(line[i] == key[i - 1]);
        } else if i > tab {
            assert(line[i] == value[i - tab - 1]);
        }
    }
    assert forall|i: int| at <= i < end implies #[trigger] all[i] != LINE_FEED by {
        assert(all[i] == line[i - at]);
    }
    assert(all[end] == LINE_FEED);
    lemma_find_at(all, at, LINE_FEED, end);
    assert(all.subrange(at, end) == line);
    assert forall|i: int| 1 <= i < tab implies #[trigger] line[i] != TAB by {
        assert(line[i] == key[i - 1]);
    }
    assert(line[tab] == TAB);
    lemma_find_at(line, 1, TAB, tab);
    assert(line.subrange(1, tab) == key);
    assert(line.subrange(tab + 1, line.len() as int) == value);
}

/// A whole line reads the same in any byte sequence that holds the same
/// bytes over the line's extent.
pub proof fn lemma_decode_local(a: Seq<u8>, b: Seq<u8>, at: int)
    requires
        decode_at(a, at) is Record,
        decode_at(a, at)->next <= b.len(),
        a.subrange(at, decode_at(a, at)->next) == b.subrange(at, decode_at(a, at)->next),
    ensures
        decode_at(b, at) == decode_at(a, at),
{
    let next = decode_at(a, at)->next;
    let end = next - 1;
    lemma_find_bounds(a, at, LINE_FEED);
    assert forall|i: int| at <= i < next implies a[i] == #[trigger] b[i] by {
        assert(a[i] == a.subrange(at, next)[i - at]);
        assert(b[i] == b.subrange(at, next)[i - at]);
    }
    lemma_find_at(b, at, LINE_FEED, end);
    assert(a.subrange(at, end) == b.subrange(at, end));
}

/// A record takes at least one byte, so reading moves on.
pub proof fn lemma_decode_moves(bytes: Seq<u8>, at: int)
    requires
        decode_at(bytes, at) is Record,
    ensures
        0 <= at < decode_at(bytes, at)->next <= bytes.len(),
{
    lemma_find_bounds(bytes, at, LINE_FEED);
}

} // verus!
