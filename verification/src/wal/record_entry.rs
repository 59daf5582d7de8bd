//! The byte form of a log record: a timestamped key, then what was written under
//! it.
//!
//! ```text
//! entry  := key value
//! key    := length of the user key (8 bytes, big-endian)  user key
//!           timestamp (4 bytes, big-endian)
//! value  := 0                                  a tombstone
//!         | 1  number of columns (8 bytes, big-endian)  cell ...
//! cell   := 0                                  null
//!         | 1  byte (0 or 1)                   a boolean
//!         | 2  integer (4 bytes, big-endian)
//!         | 3  length (8 bytes, big-endian)  bytes
//! ```

use vstd::prelude::*;
use crate::record::{cell_size, cell_view, cells_size, row_view, saturate, size_of_value,
    value_size, value_view, Row, RowView, Value, ValueView};
use crate::stream::{entry_size, key_size, EntryView};
use crate::timestamp::{Timestamp, Timestamped, TimestampedView};

verus! {

/// Why bytes are not the byte form of a log record.
#[derive(Clone, Copy, Debug, PartialEq, Eq, Structural)]
pub enum DecodeError {
    /// The bytes end before the record does.
    Truncated,
    /// A tag byte, or the byte of a boolean, has a value that stands for nothing.
    BadTag,
}

/// The four bytes of an integer, most significant first.
#[verifier::opaque]
pub open spec fn be32(x: u32) -> Seq<u8> {
    seq![
        (x / 0x1000000) as u8,
        ((x / 0x10000) % 0x100) as u8,
        ((x / 0x100) % 0x100) as u8,
        (x % 0x100) as u8,
    ]
}

/// The integer of four bytes, most significant first.
#[verifier::opaque]
pub open spec fn from_be32(s: Seq<u8>) -> u32 {
    (s[0] * 0x1000000 + s[1] * 0x10000 + s[2] * 0x100 + s[3]) as u32
}

/// The eight bytes of an integer, most significant first.
#[verifier::opaque]
pub open spec fn be64(x: u64) -> Seq<u8> {
    be32((x / 0x100000000) as u32) + be32((x % 0x100000000) as u32)
}

/// The integer of eight bytes, most significant first.
#[verifier::opaque]
pub open spec fn from_be64(s: Seq<u8>) -> u64 {
    (from_be32(s.subrange(0, 4)) * 0x100000000 + from_be32(s.subrange(4, 8))) as u64
}

/// Four bytes stand for one integer, and every integer has its four bytes.
pub proof fn lemma_be32(x: u32)
    ensures
        be32(x).len() == 4,
        from_be32(be32(x)) == x,
{
    reveal(be32);
    reveal(from_be32);
}

/// Eight bytes stand for one integer, and every integer has its eight bytes.
pub proof fn lemma_be64(x: u64)
    ensures
        be64(x).len() == 8,
        from_be64(be64(x)) == x,
{
    reveal(be64);
    reveal(from_be64);
    let hi = (x / 0x100000000) as u32;
    let lo = (x % 0x100000000) as u32;
    lemma_be32(hi);
    lemma_be32(lo);
    assert(be64(x).subrange(0, 4) =~= be32(hi));
    assert(be64(x).subrange(4, 8) =~= be32(lo));
}

/// The byte form of a column.
pub open spec fn encode_cell(cell: Option<ValueView>) -> Seq<u8> {
    match cell {
        None => seq![0u8],
        Some(ValueView::Bool(b)) => seq![1u8, if b {
            1u8
        } else {
            0u8
        }],
        Some(ValueView::U32(n)) => seq![2u8] + be32(n),
        Some(ValueView::Bytes(b)) => seq![3u8] + be64(b.len() as u64) + b,
    }
}

/// The byte form of the columns of a row, one after another.
pub open spec fn encode_cells(row: RowView) -> Seq<u8>
    decreases row.len(),
{
    if row.len() == 0 {
        Seq::empty()
    } else {
        encode_cell(row[0]) + encode_cells(row.drop_first())
    }
}

/// The byte form of what an entry holds.
pub open spec fn encode_value(value: Option<RowView>) -> Seq<u8> {
    match value {
        None => seq![0u8],
        Some(row) => seq![1u8] + be64(row.len() as u64) + encode_cells(row),
    }
}

/// The byte form of a timestamped key.
pub open spec fn encode_key(key: TimestampedView) -> Seq<u8> {
    be64(key.value.len() as u64) + key.value + be32(key.ts)
}

/// The byte form of a log record.
pub open spec fn encode_entry(e: EntryView) -> Seq<u8> {
    encode_key(e.key) + encode_value(e.value)
}

/// Whether an entry is of a size that has a byte form: no length in it is more
/// than eight bytes can tell.
pub open spec fn encodable_cell(cell: Option<ValueView>) -> bool {
    cell matches Some(ValueView::Bytes(b)) ==> b.len() <= u64::MAX
}

pub open spec fn encodable(e: EntryView) -> bool {
    &&& e.key.value.len() <= u64::MAX
    &&& e.value matches Some(row) ==> row.len() <= u64::MAX && forall|j: int|
        0 <= j < row.len() ==> encodable_cell(#[trigger] row[j])
}

/// What the bytes from `at` on begin with, read as a column: the column and the
/// place where it ends, or why they are no column.
pub open spec fn parse_cell(bytes: Seq<u8>, at: int) -> Result<(Option<ValueView>, int), DecodeError> {
    if at >= bytes.len() {
        Err(DecodeError::Truncated)
    } else if bytes[at] == 0 {
        Ok((None, at + 1))
    } else if bytes[at] == 1 {
        if at + 2 > bytes.len() {
            Err(DecodeError::Truncated)
        } else if bytes[at + 1] == 0 {
            Ok((Some(ValueView::Bool(false)), at + 2))
        } else if bytes[at + 1] == 1 {
            Ok((Some(ValueView::Bool(true)), at + 2))
        } else {
            Err(DecodeError::BadTag)
        }
    } else if bytes[at] == 2 {
        if at + 5 > bytes.len() {
            Err(DecodeError::Truncated)
        } else {
            Ok((Some(ValueView::U32(from_be32(bytes.subrange(at + 1, at + 5)))), at + 5))
        }
    } else if bytes[at] == 3 {
        if at + 9 > bytes.len() {
            Err(DecodeError::Truncated)
        } else {
            let n = from_be64(bytes.subrange(at + 1, at + 9));
            if at + 9 + n > bytes.len() {
                Err(DecodeError::Truncated)
            } else {
                Ok((Some(ValueView::Bytes(bytes.subrange(at + 9, at + 9 + n))), at + 9 + n))
            }
        }
    } else {
        Err(DecodeError::BadTag)
    }
}

/// What the bytes from `at` on begin with, read as `count` columns.
pub open spec fn parse_cells(bytes: Seq<u8>, at: int, count: nat) -> Result<
    (RowView, int),
    DecodeError,
>
    decreases count,
{
    if count == 0 {
        Ok((Seq::empty(), at))
    } else {
        match parse_cell(bytes, at) {
            Err(e) => Err(e),
            Ok((cell, next)) => match parse_cells(bytes, next, (count - 1) as nat) {
                Err(e) => Err(e),
                Ok((rest, end)) => Ok((seq![cell] + rest, end)),
            },
        }
    }
}

/// What the bytes from `at` on begin with, read as what an entry holds.
pub open spec fn parse_value(bytes: Seq<u8>, at: int) -> Result<(Option<RowView>, int), DecodeError> {
    if at >= bytes.len() {
        Err(DecodeError::Truncated)
    } else if bytes[at] == 0 {
        Ok((None, at + 1))
    } else if bytes[at] == 1 {
        if at + 9 > bytes.len() {
            Err(DecodeError::Truncated)
        } else {
            match parse_cells(
                bytes,
                at + 9,
                from_be64(bytes.subrange(at + 1, at + 9)) as nat,
            ) {
                Err(e) => Err(e),
                Ok((row, end)) => Ok((Some(row), end)),
            }
        }
    } else {
        Err(DecodeError::BadTag)
    }
}

/// What the bytes from `at` on begin with, read as a timestamped key.
pub open spec fn parse_key(bytes: Seq<u8>, at: int) -> Result<(TimestampedView, int), DecodeError> {
    if at + 8 > bytes.len() {
        Err(DecodeError::Truncated)
    } else {
        let n = from_be64(bytes.subrange(at, at + 8));
        if at + 8 + n + 4 > bytes.len() {
            Err(DecodeError::Truncated)
        } else {
            Ok(
                (
                    TimestampedView {
                        ts: from_be32(bytes.subrange(at + 8 + n, at + 8 + n + 4)),
                        value: bytes.subrange(at + 8, at + 8 + n),
                    },
                    at + 8 + n + 4,
                ),
            )
        }
    }
}

/// What the bytes from `at` on begin with, read as a log record: the record and
/// the place where it ends, or why they are no record.
pub open spec fn parse_entry(bytes: Seq<u8>, at: int) -> Result<(EntryView, int), DecodeError> {
    match parse_key(bytes, at) {
        Err(e) => Err(e),
        Ok((key, next)) => match parse_value(bytes, next) {
            Err(e) => Err(e),
            Ok((value, end)) => Ok((EntryView { key, value }, end)),
        },
    }
}

/// The byte form of a column takes as many bytes as its size says, and is read
/// back as the column.
pub proof fn lemma_cell_round_trip(cell: Option<ValueView>, before: Seq<u8>, after: Seq<u8>)
    requires
        encodable_cell(cell),
    ensures
        encode_cell(cell).len() == cell_size(cell),
        parse_cell(before + encode_cell(cell) + after, before.len() as int) == Ok::<
            (Option<ValueView>, int),
            DecodeError,
        >((cell, (before.len() + encode_cell(cell).len()) as int)),
{
    let bytes = before + encode_cell(cell) + after;
    let at = before.len() as int;
    let code = encode_cell(cell);
    match cell {
        None => {
            assert(bytes[at] == code[0]);
        },
        Some(ValueView::Bool(b)) => {
            assert(bytes[at] == code[0]);
            assert(bytes[at + 1] == code[1]);
        },
        Some(ValueView::U32(n)) => {
            lemma_be32(n);
            assert(bytes[at] == code[0]);
            assert(bytes.subrange(at + 1, at + 5) =~= be32(n));
        },
        Some(ValueView::Bytes(b)) => {
            lemma_be64(b.len() as u64);
            assert(bytes[at] == code[0]);
            assert(bytes.subrange(at + 1, at + 9) =~= be64(b.len() as u64));
            assert(bytes.subrange(at + 9, at + 9 + b.len()) =~= b);
        },
    }
}

/// The byte form of the columns of a row takes as many bytes as their sizes
/// say, and is read back as the row.
pub proof fn lemma_cells_round_trip(row: RowView, before: Seq<u8>, after: Seq<u8>)
    requires
        forall|j: int| 0 <= j < row.len() ==> encodable_cell(#[trigger] row[j]),
    ensures
        encode_cells(row).len() == cells_size(row),
        parse_cells(before + encode_cells(row) + after, before.len() as int, row.len()) == Ok::<
            (RowView, int),
            DecodeError,
        >((row, (before.len() + encode_cells(row).len()) as int)),
    decreases row.len(),
{
    let at = before.len() as int;
    if row.len() == 0 {
        assert(cells_size(row) == 0);
        assert(row =~= Seq::<Option<ValueView>>::empty());
        assert(encode_cells(row).len() == 0);
    } else {
        let first = row[0];
        let rest = row.drop_first();
        let head = encode_cell(first);
        let tail = encode_cells(rest);
        let bytes = before + encode_cells(row) + after;
        assert(encode_cells(row) == head + tail);
        assert(bytes == before + head + (tail + after)) by {
            assert(before + (head + tail) + after =~= before + head + (tail + after));
        }
        assert(bytes == (before + head) + tail + after) by {
            assert(before + (head + tail) + after =~= (before + head) + tail + after);
        }
        lemma_cell_round_trip(first, before, tail + after);
        assert(parse_cell(bytes, at) == Ok::<(Option<ValueView>, int), DecodeError>(
            (first, at + head.len()),
        ));
        assert forall|j: int| 0 <= j < rest.len() implies encodable_cell(#[trigger] rest[j]) by {
            assert(rest[j] == row[j + 1]);
        }
        lemma_cells_round_trip(rest, before + head, after);
        assert(parse_cells(bytes, at + head.len(), rest.len()) == Ok::<(RowView, int), DecodeError>(
            (rest, at + head.len() + tail.len()),
        ));
        assert(seq![first] + rest =~= row);
        assert((row.len() - 1) as nat == rest.len());
        assert(parse_cells(bytes, at, row.len()) == Ok::<(RowView, int), DecodeError>(
            (seq![first] + rest, at + head.len() + tail.len()),
        ));
        lemma_cells_size_first(row);
    }
}

/// The size of the columns of a row is the size of the first and of the rest.
pub proof fn lemma_cells_size_first(row: RowView)
    requires
        row.len() > 0,
    ensures
        cells_size(row) == cell_size(row[0]) + cells_size(row.drop_first()),
    decreases row.len(),
{
    if row.len() == 1 {
        assert(row.drop_last() =~= Seq::<Option<ValueView>>::empty());
        assert(row.drop_first() =~= Seq::<Option<ValueView>>::empty());
        assert(cells_size(row.drop_last()) == 0);
    } else {
        let init = row.drop_last();
        lemma_cells_size_first(init);
        assert(init.drop_first() =~= row.drop_first().drop_last());
        assert(init[0] == row[0]);
        assert(row.drop_first().last() == row.last());
    }
}

/// The byte form of the first columns of a row and of the one after them.
pub proof fn lemma_encode_cells_push(row: RowView, cell: Option<ValueView>)
    ensures
        encode_cells(row.push(cell)) == encode_cells(row) + encode_cell(cell),
    decreases row.len(),
{
    let all = row.push(cell);
    if row.len() == 0 {
        assert(all.drop_first() =~= Seq::<Option<ValueView>>::empty());
        assert(encode_cells(all.drop_first()) =~= Seq::<u8>::empty());
        assert(all[0] == cell);
        assert(encode_cells(all) =~= encode_cell(cell));
        assert(encode_cells(row) + encode_cell(cell) =~= encode_cell(cell));
    } else {
        lemma_encode_cells_push(row.drop_first(), cell);
        assert(all.drop_first() =~= row.drop_first().push(cell));
        assert(all[0] == row[0]);
        assert(encode_cells(all) =~= encode_cells(row) + encode_cell(cell));
    }
}

/// The byte form of a timestamped key takes as many bytes as its size says, and
/// is read back as the key.
pub proof fn lemma_key_round_trip(key: TimestampedView, after: Seq<u8>)
    requires
        key.value.len() <= u64::MAX,
    ensures
        encode_key(key).len() == key_size(key),
        parse_key(encode_key(key) + after, 0) == Ok::<(TimestampedView, int), DecodeError>(
            (key, encode_key(key).len() as int),
        ),
{
    let bytes = encode_key(key) + after;
    let n = key.value.len() as int;
    lemma_be64(n as u64);
    lemma_be32(key.ts);
    assert(bytes.subrange(0, 8) =~= be64(n as u64));
    assert(bytes.subrange(8, 8 + n) =~= key.value);
    assert(bytes.subrange(8 + n, 8 + n + 4) =~= be32(key.ts));
}

/// The byte form of what an entry holds takes as many bytes as its size says,
/// and is read back as what the entry holds.
pub proof fn lemma_value_round_trip(value: Option<RowView>, before: Seq<u8>, after: Seq<u8>)
    requires
        value matches Some(row) ==> row.len() <= u64::MAX && forall|j: int|
            0 <= j < row.len() ==> encodable_cell(#[trigger] row[j]),
    ensures
        encode_value(value).len() == value_size(value),
        parse_value(before + encode_value(value) + after, before.len() as int) == Ok::<
            (Option<RowView>, int),
            DecodeError,
        >((value, (before.len() + encode_value(value).len()) as int)),
{
    let code = encode_value(value);
    let bytes = before + code + after;
    let at = before.len() as int;
    assert(bytes[at] == code[0]);
    match value {
        None => {},
        Some(row) => {
            lemma_be64(row.len() as u64);
            let count = be64(row.len() as u64);
            assert(bytes.subrange(at + 1, at + 9) =~= count);
            let head = before + seq![1u8] + count;
            lemma_cells_round_trip(row, head, after);
            assert(bytes == head + encode_cells(row) + after) by {
                assert(before + (seq![1u8] + count + encode_cells(row)) + after =~= head
                    + encode_cells(row) + after);
            }
            assert(head.len() == at + 9);
        },
    }
}

/// Encoding and then decoding a log record yields the record: its byte form,
/// whatever follows it, is read back as the record itself, and ends where the
/// size of the record says.
pub proof fn lemma_round_trip(e: EntryView, after: Seq<u8>)
    requires
        encodable(e),
    ensures
        encode_entry(e).len() == entry_size(e),
        parse_entry(encode_entry(e) + after, 0) == Ok::<(EntryView, int), DecodeError>(
            (e, encode_entry(e).len() as int),
        ),
{
    let key = encode_key(e.key);
    let value = encode_value(e.value);
    let bytes = encode_entry(e) + after;
    lemma_key_round_trip(e.key, value + after);
    assert(bytes == key + (value + after)) by {
        assert(key + value + after =~= key + (value + after));
    }
    lemma_value_round_trip(e.value, key, after);
}

/// The columns of a record in memory are of sizes that have a byte form.
pub proof fn lemma_value_encodable(value: Option<Row>)
    ensures
        value_view(value) matches Some(row) ==> row.len() <= u64::MAX && forall|j: int|
            0 <= j < row.len() ==> encodable_cell(#[trigger] row[j]),
{
    match value {
        Some(row) => {
            let r = row_view(row@);
            assert(row.len() == row@.len());
            assert forall|j: int| 0 <= j < r.len() implies encodable_cell(#[trigger] r[j]) by {
                match row@[j] {
                    Some(Value::Bytes(b)) => {
                        assert(b.len() == b@.len());
                    },
                    _ => {},
                }
            }
        },
        None => {},
    }
}

/// A log record, as it goes into the log and as it comes out of it.
#[derive(Debug, PartialEq, Eq)]
pub enum RecordEntry {
    /// A record to be written.
    Encode((Timestamped, Option<Row>)),
    /// A record that was read.
    Decode((Timestamped, Option<Row>)),
}

impl View for RecordEntry {
    type V = EntryView;

    /// The timestamped key and what was written under it.
    open spec fn view(&self) -> EntryView {
        match self {
            RecordEntry::Encode((key, value)) => EntryView { key: key@, value: value_view(*value) },
            RecordEntry::Decode((key, value)) => EntryView { key: key@, value: value_view(*value) },
        }
    }
}

/// Appends the four bytes of an integer.
fn put_be32(out: &mut Vec<u8>, x: u32)
    ensures
        final(out)@ == old(out)@ + be32(x),
{
    let ghost before = out@;
    proof {
        reveal(be32);
    }
    out.push((x / 0x1000000) as u8);
    out.push(((x / 0x10000) % 0x100) as u8);
    out.push(((x / 0x100) % 0x100) as u8);
    out.push((x % 0x100) as u8);
    assert(out@ =~= before + be32(x));
}

/// Appends the eight bytes of an integer.
fn put_be64(out: &mut Vec<u8>, x: u64)
    ensures
        final(out)@ == old(out)@ + be64(x),
{
    let ghost before = out@;
    proof {
        reveal(be64);
    }
    put_be32(out, (x / 0x100000000) as u32);
    put_be32(out, (x % 0x100000000) as u32);
    assert(out@ =~= before + be64(x));
}

/// Appends bytes.
fn put_bytes(out: &mut Vec<u8>, bytes: &Vec<u8>)
    ensures
        final(out)@ == old(out)@ + bytes@,
{
    let ghost before = out@;
    let mut i: usize = 0;
    while i < bytes.len()
        invariant
            i <= bytes.len(),
            out@ == before + bytes@.take(i as int),
        decreases bytes.len() - i,
    {
        out.push(bytes[i]);
        proof {
            assert(bytes@.take(i + 1) =~= bytes@.take(i as int).push(bytes[i as int]));
            assert(out@ =~= before + bytes@.take(i + 1));
        }
        i += 1;
    }
    assert(bytes@.take(i as int) =~= bytes@);
}

/// Reads the integer of the four bytes at `at`.
fn get_be32(bytes: &Vec<u8>, at: usize) -> (x: u32)
    requires
        at + 4 <= bytes.len(),
    ensures
        x == from_be32(bytes@.subrange(at as int, at + 4)),
{
    proof {
        reveal(from_be32);
    }
    let a = bytes[at] as u32;
    let b = bytes[at + 1] as u32;
    let c = bytes[at + 2] as u32;
    let d = bytes[at + 3] as u32;
    a * 0x1000000 + b * 0x10000 + c * 0x100 + d
}

/// Reads the integer of the eight bytes at `at`.
fn get_be64(bytes: &Vec<u8>, at: usize) -> (x: u64)
    requires
        at + 8 <= bytes.len(),
    ensures
        x == from_be64(bytes@.subrange(at as int, at + 8)),
{
    let hi = get_be32(bytes, at) as u64;
    let lo = get_be32(bytes, at + 4) as u64;
    proof {
        reveal(from_be64);
        let s = bytes@.subrange(at as int, at + 8);
        assert(s.subrange(0, 4) =~= bytes@.subrange(at as int, at + 4));
        assert(s.subrange(4, 8) =~= bytes@.subrange(at + 4, at + 8));
    }
    hi * 0x100000000 + lo
}

/// Copies the bytes from `from` up to `to`.
fn get_bytes(bytes: &Vec<u8>, from: usize, to: usize) -> (out: Vec<u8>)
    requires
        from <= to <= bytes.len(),
    ensures
        out@ == bytes@.subrange(from as int, to as int),
{
    let mut out: Vec<u8> = Vec::new();
    let mut i: usize = from;
    while i < to
        invariant
            from <= i <= to <= bytes.len(),
            out@ == bytes@.subrange(from as int, i as int),
        decreases to - i,
    {
        out.push(bytes[i]);
        proof {
            assert(bytes@.subrange(from as int, i + 1) =~= bytes@.subrange(
                from as int,
                i as int,
            ).push(bytes[i as int]));
        }
        i += 1;
    }
    out
}

/// Appends the byte form of a column.
fn put_cell(out: &mut Vec<u8>, cell: &Option<Value>)
    ensures
        final(out)@ == old(out)@ + encode_cell(cell_view(*cell)),
{
    let ghost before = out@;
    match cell {
        None => {
            out.push(0);
            assert(out@ =~= before + encode_cell(cell_view(*cell)));
        },
        Some(Value::Bool(b)) => {
            out.push(1);
            out.push(if *b {
                1
            } else {
                0
            });
            assert(out@ =~= before + encode_cell(cell_view(*cell)));
        },
        Some(Value::U32(n)) => {
            out.push(2);
            put_be32(out, *n);
            assert(out@ =~= before + encode_cell(cell_view(*cell)));
        },
        Some(Value::Bytes(b)) => {
            out.push(3);
            put_be64(out, b.len() as u64);
            put_bytes(out, b);
            assert(out@ =~= before + encode_cell(cell_view(*cell)));
        },
    }
}

/// Reads the column at `at`.
fn get_cell(bytes: &Vec<u8>, at: usize) -> (result: Result<(Option<Value>, usize), DecodeError>)
    requires
        at <= bytes.len(),
    ensures
        match parse_cell(bytes@, at as int) {
            Ok((cell, end)) => result matches Ok((c, e)) && cell_view(c) == cell && e == end && e
                <= bytes.len(),
            Err(error) => result == Err::<(Option<Value>, usize), DecodeError>(error),
        },
{
    let n = bytes.len();
    if at >= n {
        return Err(DecodeError::Truncated);
    }
    let tag = bytes[at];
    if tag == 0 {
        Ok((None, at + 1))
    } else if tag == 1 {
        if n - at < 2 {
            Err(DecodeError::Truncated)
        } else if bytes[at + 1] == 0 {
            Ok((Some(Value::Bool(false)), at + 2))
        } else if bytes[at + 1] == 1 {
            Ok((Some(Value::Bool(true)), at + 2))
        } else {
            Err(DecodeError::BadTag)
        }
    } else if tag == 2 {
        if n - at < 5 {
            Err(DecodeError::Truncated)
        } else {
            Ok((Some(Value::U32(get_be32(bytes, at + 1))), at + 5))
        }
    } else if tag == 3 {
        if n - at < 9 {
            Err(DecodeError::Truncated)
        } else {
            let len = get_be64(bytes, at + 1);
            if len > (n - at - 9) as u64 {
                Err(DecodeError::Truncated)
            } else {
                let end = at + 9 + len as usize;
                Ok((Some(Value::Bytes(get_bytes(bytes, at + 9, end))), end))
            }
        }
    } else {
        Err(DecodeError::BadTag)
    }
}

impl RecordEntry {
    /// Every record has a byte form: no length in it is more than eight bytes
    /// can tell.
    pub proof fn lemma_encodable(&self)
        ensures
            encodable(self@),
    {
        match self {
            RecordEntry::Encode((key, value)) => {
                assert(key.value.len() == key.value@.len());
                lemma_value_encodable(*value);
            },
            RecordEntry::Decode((key, value)) => {
                assert(key.value.len() == key.value@.len());
                lemma_value_encodable(*value);
            },
        }
    }

    /// A record to be written.
    pub fn new(key: Timestamped, value: Option<Row>) -> (entry: Self)
        ensures
            entry == RecordEntry::Encode((key, value)),
    {
        RecordEntry::Encode((key, value))
    }

    /// The byte form of a record that is to be written.
    pub fn encode(&self) -> (bytes: Vec<u8>)
        requires
            self is Encode,
        ensures
            bytes@ == encode_entry(self@),
    {
        let mut out: Vec<u8> = Vec::new();
        match self {
            RecordEntry::Encode((key, value)) => {
                put_be64(&mut out, key.value.len() as u64);
                put_bytes(&mut out, &key.value);
                put_be32(&mut out, key.ts);
                proof {
                    assert(out@ =~= encode_key(key@));
                }
                match value {
                    None => {
                        out.push(0);
                        proof {
                            assert(out@ =~= encode_entry(self@));
                        }
                    },
                    Some(row) => {
                        out.push(1);
                        put_be64(&mut out, row.len() as u64);
                        let ghost head = out@;
                        let ghost r = row_view(row@);
                        let mut j: usize = 0;
                        proof {
                            assert(out@ =~= head + encode_cells(r.take(0)));
                        }
                        while j < row.len()
                            invariant
                                j <= row.len(),
                                r == row_view(row@),
                                out@ == head + encode_cells(r.take(j as int)),
                            decreases row.len() - j,
                        {
                            proof {
                                lemma_encode_cells_push(r.take(j as int), r[j as int]);
                                assert(r.take(j + 1) =~= r.take(j as int).push(r[j as int]));
                            }
                            put_cell(&mut out, &row[j]);
                            proof {
                                assert(out@ =~= head + encode_cells(r.take(j + 1)));
                            }
                            j += 1;
                        }
                        proof {
                            assert(r.take(j as int) =~= r);
                            assert(out@ =~= encode_entry(self@));
                        }
                    },
                }
            },
            RecordEntry::Decode(_) => {},
        }
        out
    }

    /// Number of bytes that the byte form of a record that is to be written
    /// takes; the largest machine word where that is too small to tell.
    pub fn size(&self) -> (size: usize)
        requires
            self is Encode,
        ensures
            size == saturate(entry_size(self@) as int),
    {
        match self {
            RecordEntry::Encode((key, value)) => crate::stream::size_of_entry(key, value),
            RecordEntry::Decode(_) => 0,
        }
    }

    /// Reads the record that the bytes begin with, and tells where it ends.
    /// Fails exactly if the bytes do not begin with the byte form of a record.
    pub fn decode(bytes: &Vec<u8>) -> (result: Result<(Self, usize), DecodeError>)
        ensures
            match parse_entry(bytes@, 0) {
                Ok((entry, end)) => result matches Ok((read, e)) && read is Decode && read@
                    == entry && e == end,
                Err(error) => result == Err::<(RecordEntry, usize), DecodeError>(error),
            },
    {
        let n = bytes.len();
        if n < 8 {
            return Err(DecodeError::Truncated);
        }
        let key_len = get_be64(bytes, 0);
        if key_len > (n - 8) as u64 || (n - 8) as u64 - key_len < 4 {
            return Err(DecodeError::Truncated);
        }
        let key_end = 8 + key_len as usize;
        let user_key = get_bytes(bytes, 8, key_end);
        let ts = get_be32(bytes, key_end);
        let key = Timestamped { ts, value: user_key };
        let at = key_end + 4;
        if at >= n {
            return Err(DecodeError::Truncated);
        }
        let tag = bytes[at];
        if tag == 0 {
            return Ok((RecordEntry::Decode((key, None)), at + 1));
        }
        if tag != 1 {
            return Err(DecodeError::BadTag);
        }
        if n - at < 9 {
            return Err(DecodeError::Truncated);
        }
        let count = get_be64(bytes, at + 1);
        let ghost start = at + 9;
        let mut row: Row = Vec::new();
        let mut pos: usize = at + 9;
        let mut done: u64 = 0;
        let mut failure: Option<DecodeError> = None;
        while done < count && failure.is_none()
            invariant
                done <= count,
                pos <= bytes.len(),
                failure is None ==> match parse_cells(
                    bytes@,
                    pos as int,
                    (count - done) as nat,
                ) {
                    Ok((rest, end)) => parse_cells(bytes@, start as int, count as nat) == Ok::<
                        (RowView, int),
                        DecodeError,
                    >((row_view(row@) + rest, end)),
                    Err(e) => parse_cells(bytes@, start as int, count as nat) == Err::<
                        (RowView, int),
                        DecodeError,
                    >(e),
                },
                failure matches Some(e) ==> parse_cells(bytes@, start as int, count as nat) == Err::<
                    (RowView, int),
                    DecodeError,
                >(e),
            decreases count - done + if failure is None { 1int } else { 0int },
        {
            let ghost before = row_view(row@);
            match get_cell(bytes, pos) {
                Err(e) => {
                    failure = Some(e);
                },
                Ok((cell, end)) => {
                    proof {
                        let next = parse_cells(bytes@, end as int, (count - done - 1) as nat);
                        match next {
                            Ok((rest, last)) => {
                                assert(before + (seq![cell_view(cell)] + rest) =~= before.push(
                                    cell_view(cell),
                                ) + rest);
                            },
                            Err(_) => {},
                        }
                    }
                    row.push(cell);
                    proof {
                        assert(row_view(row@) =~= before.push(cell_view(cell)));
                    }
                    pos = end;
                    done += 1;
                },
            }
        }
        match failure {
            Some(e) => Err(e),
            None => {
                proof {
                    assert(row_view(row@) + Seq::<Option<ValueView>>::empty() =~= row_view(row@));
                }
                Ok((RecordEntry::Decode((key, Some(row))), pos))
            },
        }
    }
}

} // verus!
