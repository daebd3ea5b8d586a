//! The byte format of updates. Integers are written as bincode writes them
//! under its standard configuration; sequences are prefixed by their length;
//! an optional value and the kind of a content are told by one byte.

use vstd::prelude::*;
use vstd::bytes::{
    lemma_auto_spec_u16_to_from_le_bytes, lemma_auto_spec_u32_to_from_le_bytes,
    lemma_auto_spec_u64_to_from_le_bytes, spec_u16_from_le_bytes, spec_u16_to_le_bytes,
    spec_u32_from_le_bytes, spec_u32_to_le_bytes, spec_u64_from_le_bytes, spec_u64_to_le_bytes,
};
use vstd::slice::slice_subrange;
use crate::block::Item;
use crate::document::{BlockId, ClientId, Clock};
use std::ops::Range;
use crate::delete_set::DeleteSet;
use crate::update::{
    block_views, Content, ContentData, Update, UpdateBlock, UpdateBlockData, UpdateData,
};

verus! {

#[verifier::external_type_specification]
#[verifier::external_body]
pub struct ExEncodeError(bincode::error::EncodeError);

#[verifier::external_type_specification]
#[verifier::external_body]
pub struct ExDecodeError(bincode::error::DecodeError);

/// The variable-length form of an unsigned integer: one byte up to 250, else
/// a marker byte (251, 252, 253) and the value in 2, 4 or 8 bytes, low byte first.
pub open spec fn varint(value: u64) -> Seq<u8> {
    if value <= 250 {
        seq![value as u8]
    } else if value <= 0xffff {
        seq![251u8] + spec_u16_to_le_bytes(value as u16)
    } else if value <= 0xffff_ffff {
        seq![252u8] + spec_u32_to_le_bytes(value as u32)
    } else {
        seq![253u8] + spec_u64_to_le_bytes(value)
    }
}

/// The integer at the front of `bytes` and the number of bytes it takes. A
/// value need not be in its shortest form; the markers 254 and 255 are refused.
pub open spec fn parse_varint(bytes: Seq<u8>) -> Option<(u64, int)> {
    if bytes.len() == 0 {
        None
    } else if bytes[0] <= 250 {
        Some((bytes[0] as u64, 1))
    } else if bytes[0] == 251 {
        if bytes.len() >= 3 {
            Some((spec_u16_from_le_bytes(bytes.subrange(1, 3)) as u64, 3))
        } else {
            None
        }
    } else if bytes[0] == 252 {
        if bytes.len() >= 5 {
            Some((spec_u32_from_le_bytes(bytes.subrange(1, 5)) as u64, 5))
        } else {
            None
        }
    } else if bytes[0] == 253 {
        if bytes.len() >= 9 {
            Some((spec_u64_from_le_bytes(bytes.subrange(1, 9)), 9))
        } else {
            None
        }
    } else {
        None
    }
}

/// An integer that was written is read back, whatever follows it.
pub proof fn lemma_varint_round_trip(value: u64, rest: Seq<u8>)
    ensures
        1 <= varint(value).len() <= 9,
        parse_varint(varint(value) + rest) == Some((value, varint(value).len() as int)),
{
    lemma_auto_spec_u16_to_from_le_bytes();
    lemma_auto_spec_u32_to_from_le_bytes();
    lemma_auto_spec_u64_to_from_le_bytes();
    let bytes = varint(value) + rest;
    if value <= 250 {
    } else if value <= 0xffff {
        assert(bytes.subrange(1, 3) =~= spec_u16_to_le_bytes(value as u16));
    } else if value <= 0xffff_ffff {
        assert(bytes.subrange(1, 5) =~= spec_u32_to_le_bytes(value as u32));
    } else {
        assert(bytes.subrange(1, 9) =~= spec_u64_to_le_bytes(value));
    }
}

/// What is read never reaches beyond the bytes.
pub proof fn lemma_varint_bounds(bytes: Seq<u8>)
    ensures
        parse_varint(bytes) matches Some((_, used)) ==> 1 <= used <= bytes.len(),
{
}

/// `bincode::encode_to_vec` for a `u64` under `bincode::config::standard()`,
/// which is little endian with variable-length integers. The encoder writes
/// the form `varint`, and writing into a vector does not fail.
#[verifier::external_body]
fn encode_u64(value: u64) -> (result: Result<Vec<u8>, bincode::error::EncodeError>)
    ensures
        match result {
            Ok(bytes) => bytes@ == varint(value),
            Err(_) => false,
        },
{
    bincode::encode_to_vec(value, bincode::config::standard())
}

/// `bincode::decode_from_slice` for a `u64` under `bincode::config::standard()`.
/// The decoder reads what `parse_varint` describes and fails where that
/// gives nothing: on no bytes, on too few bytes after a marker, and on the
/// markers 254 and 255.
#[verifier::external_body]
fn decode_u64(bytes: &[u8]) -> (result: Result<(u64, usize), bincode::error::DecodeError>)
    ensures
        match result {
            Ok((value, used)) => parse_varint(bytes@) == Some((value, used as int)),
            Err(_) => parse_varint(bytes@) is None,
        },
{
    bincode::decode_from_slice(bytes, bincode::config::standard())
}

/// Appends the variable-length form of `value` to `out`.
pub fn write_u64(out: &mut Vec<u8>, value: u64)
    ensures
        final(out)@ == old(out)@ + varint(value),
{
    match encode_u64(value) {
        Ok(mut bytes) => {
            out.append(&mut bytes);
        },
        Err(_) => {},
    }
}

/// Reads an integer at position `at` of `bytes`; hands back the integer and
/// the position after it.
pub fn read_u64(bytes: &[u8], at: usize) -> (result: Option<(u64, usize)>)
    requires
        at <= bytes.len(),
    ensures
        match result {
            Some((value, end)) => at < end <= bytes.len() && parse_varint(bytes@.skip(at as int))
                == Some((value, end - at)),
            None => parse_varint(bytes@.skip(at as int)) is None,
        },
{
    let rest = slice_subrange(bytes, at, bytes.len());
    assert(rest@ =~= bytes@.skip(at as int));
    proof {
        lemma_varint_bounds(rest@);
    }
    match decode_u64(rest) {
        Ok((value, used)) => Some((value, at + used)),
        Err(_) => None,
    }
}

/// The bytes of `items` one after another, each written by `one`.
pub open spec fn wire_each<X>(items: Seq<X>, one: spec_fn(X) -> Seq<u8>) -> Seq<u8>
    decreases items.len(),
{
    if items.len() == 0 {
        Seq::empty()
    } else {
        wire_each(items.drop_last(), one) + one(items.last())
    }
}

/// A sequence: its length, then its items.
pub open spec fn wire_seq<X>(items: Seq<X>, one: spec_fn(X) -> Seq<u8>) -> Seq<u8> {
    varint(items.len() as u64) + wire_each(items, one)
}

/// The `count` items at the front of `bytes`, each read by `one`, and the
/// number of bytes they take.
pub open spec fn parse_each<X>(
    bytes: Seq<u8>,
    count: nat,
    one: spec_fn(Seq<u8>) -> Option<(X, int)>,
) -> Option<(Seq<X>, int)>
    decreases count,
{
    if count == 0 {
        Some((Seq::empty(), 0))
    } else {
        match parse_each(bytes, (count - 1) as nat, one) {
            Some((items, used)) => match one(bytes.skip(used)) {
                Some((item, more)) => Some((items.push(item), used + more)),
                None => None,
            },
            None => None,
        }
    }
}

/// The sequence at the front of `bytes`: a length that a machine can hold
/// and that many items.
pub open spec fn parse_seq<X>(bytes: Seq<u8>, one: spec_fn(Seq<u8>) -> Option<(X, int)>) -> Option<
    (Seq<X>, int),
> {
    match parse_varint(bytes) {
        Some((count, used)) => if count <= usize::MAX {
            match parse_each(bytes.skip(used), count as nat, one) {
                Some((items, more)) => Some((items, used + more)),
                None => None,
            }
        } else {
            None
        },
        None => None,
    }
}

/// Items whose writer and reader agree are read back one after another.
pub proof fn lemma_each_round_trip<X>(
    items: Seq<X>,
    write: spec_fn(X) -> Seq<u8>,
    read: spec_fn(Seq<u8>) -> Option<(X, int)>,
    rest: Seq<u8>,
)
    requires
        forall|i: int, tail: Seq<u8>|
            0 <= i < items.len() ==> #[trigger] read(write(items[i]) + tail) == Some(
                (items[i], write(items[i]).len() as int),
            ),
    ensures
        parse_each(wire_each(items, write) + rest, items.len(), read) == Some(
            (items, wire_each(items, write).len() as int),
        ),
    decreases items.len(),
{
    if items.len() > 0 {
        let front = items.drop_last();
        let last = items.last();
        let all = wire_each(items, write) + rest;
        assert forall|i: int, tail: Seq<u8>| 0 <= i < front.len() implies #[trigger] read(
            write(front[i]) + tail,
        ) == Some((front[i], write(front[i]).len() as int)) by {
            assert(front[i] == items[i]);
        }
        lemma_each_round_trip(front, write, read, write(last) + rest);
        assert(all =~= wire_each(front, write) + (write(last) + rest));
        assert(all.skip(wire_each(front, write).len() as int) =~= write(last) + rest);
        assert(read(write(items[items.len() - 1]) + rest) == Some(
            (last, write(last).len() as int),
        ));
        assert(front.push(last) =~= items);
    }
}

/// A sequence whose items are read back is read back.
pub proof fn lemma_seq_round_trip<X>(
    items: Seq<X>,
    write: spec_fn(X) -> Seq<u8>,
    read: spec_fn(Seq<u8>) -> Option<(X, int)>,
    rest: Seq<u8>,
)
    requires
        items.len() <= usize::MAX,
        forall|i: int, tail: Seq<u8>|
            0 <= i < items.len() ==> #[trigger] read(write(items[i]) + tail) == Some(
                (items[i], write(items[i]).len() as int),
            ),
    ensures
        parse_seq(wire_seq(items, write) + rest, read) == Some(
            (items, wire_seq(items, write).len() as int),
        ),
{
    let head = varint(items.len() as u64);
    let body = wire_each(items, write);
    lemma_varint_round_trip(items.len() as u64, body + rest);
    lemma_each_round_trip(items, write, read, rest);
    assert(wire_seq(items, write) + rest =~= head + (body + rest));
    assert((wire_seq(items, write) + rest).skip(head.len() as int) =~= body + rest);
}

/// An origin: one byte, 0 or 1, and after a 1 the replica and the clock.
pub open spec fn wire_origin(origin: Option<BlockId>) -> Seq<u8> {
    match origin {
        None => seq![0u8],
        Some(id) => seq![1u8] + varint(id.client_id) + varint(id.clock),
    }
}

pub open spec fn parse_origin(bytes: Seq<u8>) -> Option<(Option<BlockId>, int)> {
    if bytes.len() == 0 {
        None
    } else if bytes[0] == 0 {
        Some((None, 1))
    } else if bytes[0] == 1 {
        match parse_varint(bytes.skip(1)) {
            Some((client_id, used)) => match parse_varint(bytes.skip(1 + used)) {
                Some((clock, more)) => Some((Some(BlockId { client_id, clock }), 1 + used + more)),
                None => None,
            },
            None => None,
        }
    } else {
        None
    }
}

pub proof fn lemma_origin_round_trip(origin: Option<BlockId>, rest: Seq<u8>)
    ensures
        parse_origin(wire_origin(origin) + rest) == Some((origin, wire_origin(origin).len() as int)),
{
    match origin {
        None => {},
        Some(id) => {
            let all = wire_origin(origin) + rest;
            lemma_varint_round_trip(id.client_id, varint(id.clock) + rest);
            lemma_varint_round_trip(id.clock, rest);
            assert(all.skip(1) =~= varint(id.client_id) + (varint(id.clock) + rest));
            assert(all.skip((1 + varint(id.client_id).len()) as int) =~= varint(id.clock) + rest);
        },
    }
}

/// The writer of items of type `T`.
pub open spec fn item_writer<T: Item>() -> spec_fn(T::V) -> Seq<u8> {
    |value: T::V| T::wire(value)
}

/// The reader of items of type `T`.
pub open spec fn item_reader<T: Item>() -> spec_fn(Seq<u8>) -> Option<(T::V, int)> {
    |bytes: Seq<u8>| T::parse(bytes)
}

/// A content: one byte for its kind, 0 for items and 1 for a tombstone, then
/// the items as a sequence or the length of the tombstone.
pub open spec fn wire_content<T: Item>(content: ContentData<T::V>) -> Seq<u8> {
    match content {
        ContentData::Value(items) => seq![0u8] + wire_seq(items, item_writer::<T>()),
        ContentData::Deleted(length) => seq![1u8] + varint(length),
    }
}

pub open spec fn parse_content<T: Item>(bytes: Seq<u8>) -> Option<(ContentData<T::V>, int)> {
    if bytes.len() == 0 {
        None
    } else if bytes[0] == 0 {
        match parse_seq(bytes.skip(1), item_reader::<T>()) {
            Some((items, used)) => Some((ContentData::Value(items), 1 + used)),
            None => None,
        }
    } else if bytes[0] == 1 {
        match parse_varint(bytes.skip(1)) {
            Some((length, used)) => Some((ContentData::Deleted(length), 1 + used)),
            None => None,
        }
    } else {
        None
    }
}

/// Whether a content can be written: its items are no more than a machine
/// can hold, and each can be written.
pub open spec fn content_fits<T: Item>(content: ContentData<T::V>) -> bool {
    match content {
        ContentData::Value(items) => items.len() <= usize::MAX && forall|i: int|
            0 <= i < items.len() ==> T::fits(#[trigger] items[i]),
        ContentData::Deleted(_) => true,
    }
}

pub proof fn lemma_content_round_trip<T: Item>(content: ContentData<T::V>, rest: Seq<u8>)
    requires
        content_fits::<T>(content),
    ensures
        parse_content::<T>(wire_content::<T>(content) + rest) == Some(
            (content, wire_content::<T>(content).len() as int),
        ),
{
    let all = wire_content::<T>(content) + rest;
    match content {
        ContentData::Value(items) => {
            let write = item_writer::<T>();
            let read = item_reader::<T>();
            assert forall|i: int, tail: Seq<u8>| 0 <= i < items.len() implies #[trigger] read(
                write(items[i]) + tail,
            ) == Some((items[i], write(items[i]).len() as int)) by {
                T::lemma_round_trip(items[i], tail);
            }
            lemma_seq_round_trip(items, write, read, rest);
            assert(all.skip(1) =~= wire_seq(items, write) + rest);
        },
        ContentData::Deleted(length) => {
            lemma_varint_round_trip(length, rest);
            assert(all.skip(1) =~= varint(length) + rest);
        },
    }
}

/// An update block: its left origin, its right origin, its content.
pub open spec fn wire_block<T: Item>(block: UpdateBlockData<T::V>) -> Seq<u8> {
    wire_origin(block.origin_left) + wire_origin(block.origin_right) + wire_content::<T>(
        block.value,
    )
}

pub open spec fn parse_block<T: Item>(bytes: Seq<u8>) -> Option<(UpdateBlockData<T::V>, int)> {
    match parse_origin(bytes) {
        Some((origin_left, a)) => match parse_origin(bytes.skip(a)) {
            Some((origin_right, b)) => match parse_content::<T>(bytes.skip(a + b)) {
                Some((value, c)) => Some(
                    (UpdateBlockData { origin_left, origin_right, value }, a + b + c),
                ),
                None => None,
            },
            None => None,
        },
        None => None,
    }
}

pub proof fn lemma_block_round_trip<T: Item>(block: UpdateBlockData<T::V>, rest: Seq<u8>)
    requires
        content_fits::<T>(block.value),
    ensures
        parse_block::<T>(wire_block::<T>(block) + rest) == Some(
            (block, wire_block::<T>(block).len() as int),
        ),
{
    let all = wire_block::<T>(block) + rest;
    let a = wire_origin(block.origin_left);
    let b = wire_origin(block.origin_right);
    let c = wire_content::<T>(block.value);
    lemma_origin_round_trip(block.origin_left, b + c + rest);
    lemma_origin_round_trip(block.origin_right, c + rest);
    lemma_content_round_trip::<T>(block.value, rest);
    assert(all =~= a + (b + c + rest));
    assert(all.skip(a.len() as int) =~= b + (c + rest));
    assert(all.skip((a.len() + b.len()) as int) =~= c + rest);
}

pub open spec fn block_writer<T: Item>() -> spec_fn(UpdateBlockData<T::V>) -> Seq<u8> {
    |block: UpdateBlockData<T::V>| wire_block::<T>(block)
}

pub open spec fn block_reader<T: Item>() -> spec_fn(Seq<u8>) -> Option<
    (UpdateBlockData<T::V>, int),
> {
    |bytes: Seq<u8>| parse_block::<T>(bytes)
}

/// Whether a run of update blocks can be written.
pub open spec fn blocks_fit<T: Item>(blocks: Seq<UpdateBlockData<T::V>>) -> bool {
    blocks.len() <= usize::MAX && forall|j: int|
        0 <= j < blocks.len() ==> content_fits::<T>((#[trigger] blocks[j]).value)
}

/// An entry of blocks: the replica, then its blocks as a sequence.
pub open spec fn wire_entry<T: Item>(entry: (ClientId, Seq<UpdateBlockData<T::V>>)) -> Seq<u8> {
    varint(entry.0) + wire_seq(entry.1, block_writer::<T>())
}

pub open spec fn parse_entry<T: Item>(bytes: Seq<u8>) -> Option<
    ((ClientId, Seq<UpdateBlockData<T::V>>), int),
> {
    match parse_varint(bytes) {
        Some((client, used)) => match parse_seq(bytes.skip(used), block_reader::<T>()) {
            Some((blocks, more)) => Some(((client, blocks), used + more)),
            None => None,
        },
        None => None,
    }
}

pub proof fn lemma_entry_round_trip<T: Item>(
    entry: (ClientId, Seq<UpdateBlockData<T::V>>),
    rest: Seq<u8>,
)
    requires
        blocks_fit::<T>(entry.1),
    ensures
        parse_entry::<T>(wire_entry::<T>(entry) + rest) == Some(
            (entry, wire_entry::<T>(entry).len() as int),
        ),
{
    let all = wire_entry::<T>(entry) + rest;
    let write = block_writer::<T>();
    let read = block_reader::<T>();
    let body = wire_seq(entry.1, write);
    lemma_varint_round_trip(entry.0, body + rest);
    assert forall|i: int, tail: Seq<u8>| 0 <= i < entry.1.len() implies #[trigger] read(
        write(entry.1[i]) + tail,
    ) == Some((entry.1[i], write(entry.1[i]).len() as int)) by {
        lemma_block_round_trip::<T>(entry.1[i], tail);
    }
    lemma_seq_round_trip(entry.1, write, read, rest);
    assert(all =~= varint(entry.0) + (body + rest));
    assert(all.skip(varint(entry.0).len() as int) =~= body + rest);
}

pub open spec fn entry_writer<T: Item>() -> spec_fn((ClientId, Seq<UpdateBlockData<T::V>>)) -> Seq<
    u8,
> {
    |entry: (ClientId, Seq<UpdateBlockData<T::V>>)| wire_entry::<T>(entry)
}

pub open spec fn entry_reader<T: Item>() -> spec_fn(Seq<u8>) -> Option<
    ((ClientId, Seq<UpdateBlockData<T::V>>), int),
> {
    |bytes: Seq<u8>| parse_entry::<T>(bytes)
}

/// A declared range: the replica, the first clock, the clock after the last.
pub open spec fn wire_range(range: (ClientId, Clock, Clock)) -> Seq<u8> {
    varint(range.0) + varint(range.1) + varint(range.2)
}

pub open spec fn parse_range(bytes: Seq<u8>) -> Option<((ClientId, Clock, Clock), int)> {
    match parse_varint(bytes) {
        Some((client, a)) => match parse_varint(bytes.skip(a)) {
            Some((start, b)) => match parse_varint(bytes.skip(a + b)) {
                Some((end, c)) => Some(((client, start, end), a + b + c)),
                None => None,
            },
            None => None,
        },
        None => None,
    }
}

pub proof fn lemma_range_round_trip(range: (ClientId, Clock, Clock), rest: Seq<u8>)
    ensures
        parse_range(wire_range(range) + rest) == Some((range, wire_range(range).len() as int)),
{
    let all = wire_range(range) + rest;
    let a = varint(range.0);
    let b = varint(range.1);
    let c = varint(range.2);
    lemma_varint_round_trip(range.0, b + c + rest);
    lemma_varint_round_trip(range.1, c + rest);
    lemma_varint_round_trip(range.2, rest);
    assert(all =~= a + (b + c + rest));
    assert(all.skip(a.len() as int) =~= b + (c + rest));
    assert(all.skip((a.len() + b.len()) as int) =~= c + rest);
}

pub open spec fn range_writer() -> spec_fn((ClientId, Clock, Clock)) -> Seq<u8> {
    |range: (ClientId, Clock, Clock)| wire_range(range)
}

pub open spec fn range_reader() -> spec_fn(Seq<u8>) -> Option<((ClientId, Clock, Clock), int)> {
    |bytes: Seq<u8>| parse_range(bytes)
}

/// A run of tombstones: the first clock, then the number of clocks.
pub open spec fn wire_run(run: (Clock, usize)) -> Seq<u8> {
    varint(run.0) + varint(run.1 as u64)
}

pub open spec fn parse_run(bytes: Seq<u8>) -> Option<((Clock, usize), int)> {
    match parse_varint(bytes) {
        Some((start, a)) => match parse_varint(bytes.skip(a)) {
            Some((length, b)) => if length <= usize::MAX {
                Some(((start, length as usize), a + b))
            } else {
                None
            },
            None => None,
        },
        None => None,
    }
}

pub proof fn lemma_run_round_trip(run: (Clock, usize), rest: Seq<u8>)
    ensures
        parse_run(wire_run(run) + rest) == Some((run, wire_run(run).len() as int)),
{
    let all = wire_run(run) + rest;
    let a = varint(run.0);
    let b = varint(run.1 as u64);
    lemma_varint_round_trip(run.0, b + rest);
    lemma_varint_round_trip(run.1 as u64, rest);
    assert(all =~= a + (b + rest));
    assert(all.skip(a.len() as int) =~= b + rest);
}

pub open spec fn run_writer() -> spec_fn((Clock, usize)) -> Seq<u8> {
    |run: (Clock, usize)| wire_run(run)
}

pub open spec fn run_reader() -> spec_fn(Seq<u8>) -> Option<((Clock, usize), int)> {
    |bytes: Seq<u8>| parse_run(bytes)
}

/// The tombstones of one replica: the replica, then its runs as a sequence.
pub open spec fn wire_runs(entry: (ClientId, Seq<(Clock, usize)>)) -> Seq<u8> {
    varint(entry.0) + wire_seq(entry.1, run_writer())
}

pub open spec fn parse_runs(bytes: Seq<u8>) -> Option<((ClientId, Seq<(Clock, usize)>), int)> {
    match parse_varint(bytes) {
        Some((client, used)) => match parse_seq(bytes.skip(used), run_reader()) {
            Some((runs, more)) => Some(((client, runs), used + more)),
            None => None,
        },
        None => None,
    }
}

pub proof fn lemma_runs_round_trip(entry: (ClientId, Seq<(Clock, usize)>), rest: Seq<u8>)
    requires
        entry.1.len() <= usize::MAX,
    ensures
        parse_runs(wire_runs(entry) + rest) == Some((entry, wire_runs(entry).len() as int)),
{
    let all = wire_runs(entry) + rest;
    let write = run_writer();
    let read = run_reader();
    let body = wire_seq(entry.1, write);
    lemma_varint_round_trip(entry.0, body + rest);
    assert forall|i: int, tail: Seq<u8>| 0 <= i < entry.1.len() implies #[trigger] read(
        write(entry.1[i]) + tail,
    ) == Some((entry.1[i], write(entry.1[i]).len() as int)) by {
        lemma_run_round_trip(entry.1[i], tail);
    }
    lemma_seq_round_trip(entry.1, write, read, rest);
    assert(all =~= varint(entry.0) + (body + rest));
    assert(all.skip(varint(entry.0).len() as int) =~= body + rest);
}

pub open spec fn runs_writer() -> spec_fn((ClientId, Seq<(Clock, usize)>)) -> Seq<u8> {
    |entry: (ClientId, Seq<(Clock, usize)>)| wire_runs(entry)
}

pub open spec fn runs_reader() -> spec_fn(Seq<u8>) -> Option<
    ((ClientId, Seq<(Clock, usize)>), int),
> {
    |bytes: Seq<u8>| parse_runs(bytes)
}

/// An update: its declared ranges, its entries of blocks and its tombstones,
/// each as a sequence.
pub open spec fn wire_update<T: Item>(update: UpdateData<T::V>) -> Seq<u8> {
    wire_seq(update.dependency, range_writer()) + wire_seq(update.blocks, entry_writer::<T>())
        + wire_seq(update.deletes, runs_writer())
}

/// The update at the front of `bytes` and the number of bytes it takes.
pub open spec fn parse_update<T: Item>(bytes: Seq<u8>) -> Option<(UpdateData<T::V>, int)> {
    match parse_seq(bytes, range_reader()) {
        Some((dependency, a)) => match parse_seq(bytes.skip(a), entry_reader::<T>()) {
            Some((blocks, b)) => match parse_seq(bytes.skip(a + b), runs_reader()) {
                Some((deletes, c)) => Some((UpdateData { dependency, blocks, deletes }, a + b + c)),
                None => None,
            },
            None => None,
        },
        None => None,
    }
}

/// Whether an update can be written: none of its sequences is longer than a
/// machine can hold, and each of its items can be written.
pub open spec fn update_fits<T: Item>(update: UpdateData<T::V>) -> bool {
    &&& update.dependency.len() <= usize::MAX
    &&& update.blocks.len() <= usize::MAX
    &&& update.deletes.len() <= usize::MAX
    &&& forall|i: int| 0 <= i < update.blocks.len() ==> blocks_fit::<T>((#[trigger] update.blocks[i]).1)
    &&& forall|i: int|
        0 <= i < update.deletes.len() ==> (#[trigger] update.deletes[i]).1.len() <= usize::MAX
}

/// An update that was written is read back as it was, whatever follows it.
pub proof fn lemma_update_round_trip<T: Item>(update: UpdateData<T::V>, rest: Seq<u8>)
    requires
        update_fits::<T>(update),
    ensures
        parse_update::<T>(wire_update::<T>(update) + rest) == Some(
            (update, wire_update::<T>(update).len() as int),
        ),
{
    let all = wire_update::<T>(update) + rest;
    let a = wire_seq(update.dependency, range_writer());
    let b = wire_seq(update.blocks, entry_writer::<T>());
    let c = wire_seq(update.deletes, runs_writer());
    assert forall|i: int, tail: Seq<u8>| 0 <= i < update.dependency.len() implies #[trigger] range_reader()(
        range_writer()(update.dependency[i]) + tail,
    ) == Some((update.dependency[i], range_writer()(update.dependency[i]).len() as int)) by {
        lemma_range_round_trip(update.dependency[i], tail);
    }
    lemma_seq_round_trip(update.dependency, range_writer(), range_reader(), b + c + rest);
    assert forall|i: int, tail: Seq<u8>| 0 <= i < update.blocks.len() implies #[trigger] entry_reader::<
        T,
    >()(entry_writer::<T>()(update.blocks[i]) + tail) == Some(
        (update.blocks[i], entry_writer::<T>()(update.blocks[i]).len() as int),
    ) by {
        lemma_entry_round_trip::<T>(update.blocks[i], tail);
    }
    lemma_seq_round_trip(update.blocks, entry_writer::<T>(), entry_reader::<T>(), c + rest);
    assert forall|i: int, tail: Seq<u8>| 0 <= i < update.deletes.len() implies #[trigger] runs_reader()(
        runs_writer()(update.deletes[i]) + tail,
    ) == Some((update.deletes[i], runs_writer()(update.deletes[i]).len() as int)) by {
        lemma_runs_round_trip(update.deletes[i], tail);
    }
    lemma_seq_round_trip(update.deletes, runs_writer(), runs_reader(), rest);
    assert(all =~= a + (b + c + rest));
    assert(all.skip(a.len() as int) =~= b + (c + rest));
    assert(all.skip((a.len() + b.len()) as int) =~= c + rest);
}

/// Once an item cannot be read, no longer run of items can.
pub proof fn lemma_parse_each_stuck<X>(
    bytes: Seq<u8>,
    few: nat,
    many: nat,
    one: spec_fn(Seq<u8>) -> Option<(X, int)>,
)
    requires
        few <= many,
        parse_each(bytes, few, one) is None,
    ensures
        parse_each(bytes, many, one) is None,
    decreases many - few,
{
    if few < many {
        lemma_parse_each_stuck(bytes, few, (many - 1) as nat, one);
    }
}

/// The values of a run of items.
pub open spec fn item_views<T: Item>(items: Seq<T>) -> Seq<T::V> {
    Seq::new(items.len(), |i: int| items[i].deep_view())
}

/// The models of the entries of blocks.
pub open spec fn entry_views<T: Item>(entries: Seq<(ClientId, Vec<UpdateBlock<T>>)>) -> Seq<
    (ClientId, Seq<UpdateBlockData<T::V>>),
> {
    Seq::new(entries.len(), |i: int| (entries[i].0, block_views(entries[i].1@)))
}

/// The declared ranges as triples.
pub open spec fn range_views(ranges: Seq<(ClientId, Range<Clock>)>) -> Seq<(ClientId, Clock, Clock)> {
    Seq::new(ranges.len(), |i: int| (ranges[i].0, ranges[i].1.start, ranges[i].1.end))
}

/// Runs stand for themselves.
pub open spec fn run_views(runs: Seq<(Clock, usize)>) -> Seq<(Clock, usize)> {
    runs
}

/// The tombstones replica by replica.
pub open spec fn runs_views(entries: Seq<(ClientId, Vec<(Clock, usize)>)>) -> Seq<
    (ClientId, Seq<(Clock, usize)>),
> {
    Seq::new(entries.len(), |i: int| (entries[i].0, entries[i].1@))
}

fn write_origin(out: &mut Vec<u8>, origin: &Option<BlockId>)
    ensures
        final(out)@ == old(out)@ + wire_origin(*origin),
{
    match origin {
        None => {
            out.push(0);
            assert(out@ =~= old(out)@ + wire_origin(*origin));
        },
        Some(id) => {
            out.push(1);
            write_u64(out, id.client_id);
            write_u64(out, id.clock);
            assert(out@ =~= old(out)@ + wire_origin(*origin));
        },
    }
}

fn read_origin(bytes: &[u8], at: usize) -> (result: Option<(Option<BlockId>, usize)>)
    requires
        at <= bytes.len(),
    ensures
        match result {
            Some((origin, end)) => at <= end <= bytes.len() && parse_origin(bytes@.skip(at as int))
                == Some((origin, end - at)),
            None => parse_origin(bytes@.skip(at as int)) is None,
        },
{
    if at >= bytes.len() {
        return None;
    }
    let tag = bytes[at];
    if tag == 0 {
        Some((None, at + 1))
    } else if tag == 1 {
        let ghost input = bytes@.skip(at as int);
        assert(input.skip(1) =~= bytes@.skip(at + 1));
        let (client_id, middle) = match read_u64(bytes, at + 1) {
            Some(found) => found,
            None => {
                return None;
            },
        };
        assert(input.skip(1 + (middle - at - 1)) =~= bytes@.skip(middle as int));
        let (clock, end) = match read_u64(bytes, middle) {
            Some(found) => found,
            None => {
                return None;
            },
        };
        Some((Some(BlockId { client_id, clock }), end))
    } else {
        None
    }
}

fn write_item<T: Item>(out: &mut Vec<u8>, item: &T)
    ensures
        final(out)@ == old(out)@ + item_writer::<T>()(item.deep_view()),
        T::fits(item.deep_view()),
{
    item.write(out);
}

fn read_item<T: Item>(bytes: &[u8], at: usize) -> (result: Option<(T, usize)>)
    requires
        at <= bytes.len(),
    ensures
        match result {
            Some((item, end)) => at <= end <= bytes.len() && item_reader::<T>()(
                bytes@.skip(at as int),
            ) == Some((item.deep_view(), end - at)),
            None => item_reader::<T>()(bytes@.skip(at as int)) is None,
        },
{
    T::read(bytes, at)
}

/// Appends items to `out` as a sequence.
fn write_items<T: Item>(out: &mut Vec<u8>, items: &Vec<T>)
    ensures
        final(out)@ == old(out)@ + wire_seq(item_views::<T>(items@), item_writer::<T>()),
        item_views::<T>(items@).len() <= usize::MAX,
        forall|i: int| 0 <= i < items.len() ==> T::fits(#[trigger] item_views::<T>(items@)[i]),
{
    let ghost views = item_views::<T>(items@);
    write_u64(out, items.len() as u64);
    let ghost head = out@;
    let mut i: usize = 0;
    proof {
        assert(views.take(0) =~= Seq::empty());
    }
    while i < items.len()
        invariant
            i <= items.len(),
            views == item_views::<T>(items@),
            out@ == head + wire_each(views.take(i as int), item_writer::<T>()),
            forall|k: int| 0 <= k < i ==> T::fits(#[trigger] views[k]),
        decreases items.len() - i,
    {
        write_item(out, &items[i]);
        proof {
            assert(views.take(i + 1).drop_last() =~= views.take(i as int));
            assert(views.take(i + 1).last() == views[i as int]);
            assert(out@ =~= head + wire_each(views.take(i + 1), item_writer::<T>()));
        }
        i = i + 1;
    }
    proof {
        assert(views.take(items.len() as int) =~= views);
        assert(out@ =~= old(out)@ + wire_seq(views, item_writer::<T>()));
    }
}

/// Reads items at position `at` of `bytes`; hands back what was read and
/// the position after it.
fn read_items<T: Item>(bytes: &[u8], at: usize) -> (result: Option<(Vec<T>, usize)>)
    requires
        at <= bytes.len(),
    ensures
        match result {
            Some((items, end)) => at <= end <= bytes.len() && parse_seq(
                bytes@.skip(at as int),
                item_reader::<T>(),
            ) == Some((item_views::<T>(items@), end - at)),
            None => parse_seq(bytes@.skip(at as int), item_reader::<T>()) is None,
        },
{
    let (count, start) = match read_u64(bytes, at) {
        Some(found) => found,
        None => {
            return None;
        },
    };
    if count > usize::MAX as u64 {
        return None;
    }
    let ghost body = bytes@.skip(at as int).skip(start - at);
    let mut items: Vec<T> = Vec::new();
    let mut pos = start;
    let mut i: u64 = 0;
    proof {
        assert(body =~= bytes@.skip(start as int));
        assert(item_views::<T>(items@) =~= Seq::empty());
    }
    while i < count
        invariant
            i <= count <= usize::MAX,
            at <= start <= pos <= bytes.len(),
            parse_varint(bytes@.skip(at as int)) == Some((count, start - at)),
            body == bytes@.skip(at as int).skip(start - at),
            body == bytes@.skip(start as int),
            items.len() == i,
            parse_each(body, i as nat, item_reader::<T>()) == Some((item_views::<T>(items@), pos - start)),
        decreases count - i,
    {
        let ghost seen = item_views::<T>(items@);
        proof {
            assert(body.skip(pos - start) =~= bytes@.skip(pos as int));
        }
        match read_item::<T>(bytes, pos) {
            Some((item, end)) => {
                let ghost value = item.deep_view();
                items.push(item);
                pos = end;
                proof {
                    assert(item_views::<T>(items@) =~= seen.push(value));
                }
            },
            None => {
                proof {
                    lemma_parse_each_stuck(body, (i + 1) as nat, count as nat, item_reader::<T>());
                }
                return None;
            },
        }
        i = i + 1;
    }
    Some((items, pos))
}

fn write_content<T: Item>(out: &mut Vec<u8>, content: &Content<T>)
    ensures
        final(out)@ == old(out)@ + wire_content::<T>(content@),
        content_fits::<T>(content@),
{
    match content {
        Content::Value(items) => {
            out.push(0);
            write_items(out, items);
            proof {
                assert(item_views::<T>(items@) =~= items.deep_view());
                assert(out@ =~= old(out)@ + wire_content::<T>(content@));
            }
        },
        Content::Deleted(length) => {
            out.push(1);
            write_u64(out, *length);
            assert(out@ =~= old(out)@ + wire_content::<T>(content@));
        },
    }
}

fn read_content<T: Item>(bytes: &[u8], at: usize) -> (result: Option<(Content<T>, usize)>)
    requires
        at <= bytes.len(),
    ensures
        match result {
            Some((content, end)) => at <= end <= bytes.len() && parse_content::<T>(
                bytes@.skip(at as int),
            ) == Some((content@, end - at)),
            None => parse_content::<T>(bytes@.skip(at as int)) is None,
        },
{
    if at >= bytes.len() {
        return None;
    }
    let tag = bytes[at];
    assert(bytes@.skip(at as int).skip(1) =~= bytes@.skip(at + 1));
    if tag == 0 {
        match read_items::<T>(bytes, at + 1) {
            Some((items, end)) => {
                assert(item_views::<T>(items@) =~= items.deep_view());
                Some((Content::Value(items), end))
            },
            None => None,
        }
    } else if tag == 1 {
        match read_u64(bytes, at + 1) {
            Some((length, end)) => Some((Content::Deleted(length), end)),
            None => None,
        }
    } else {
        None
    }
}

fn write_block<T: Item>(out: &mut Vec<u8>, block: &UpdateBlock<T>)
    ensures
        final(out)@ == old(out)@ + block_writer::<T>()(block@),
        content_fits::<T>(block@.value),
{
    write_origin(out, &block.origin_left);
    write_origin(out, &block.origin_right);
    write_content(out, &block.value);
    assert(out@ =~= old(out)@ + wire_block::<T>(block@));
}

fn read_block<T: Item>(bytes: &[u8], at: usize) -> (result: Option<(UpdateBlock<T>, usize)>)
    requires
        at <= bytes.len(),
    ensures
        match result {
            Some((block, end)) => at <= end <= bytes.len() && block_reader::<T>()(
                bytes@.skip(at as int),
            ) == Some((block@, end - at)),
            None => block_reader::<T>()(bytes@.skip(at as int)) is None,
        },
{
    let ghost input = bytes@.skip(at as int);
    let (origin_left, first) = match read_origin(bytes, at) {
        Some(found) => found,
        None => {
            return None;
        },
    };
    assert(input.skip(first - at) =~= bytes@.skip(first as int));
    let (origin_right, second) = match read_origin(bytes, first) {
        Some(found) => found,
        None => {
            return None;
        },
    };
    assert(input.skip((first - at) + (second - first)) =~= bytes@.skip(second as int));
    let (value, end) = match read_content::<T>(bytes, second) {
        Some(found) => found,
        None => {
            return None;
        },
    };
    Some((UpdateBlock { origin_left, origin_right, value }, end))
}

/// Appends update blocks to `out` as a sequence.
fn write_blocks<T: Item>(out: &mut Vec<u8>, items: &Vec<UpdateBlock<T>>)
    ensures
        final(out)@ == old(out)@ + wire_seq(block_views::<T>(items@), block_writer::<T>()),
        block_views::<T>(items@).len() <= usize::MAX,
        blocks_fit::<T>(block_views::<T>(items@)),
{
    let ghost views = block_views::<T>(items@);
    write_u64(out, items.len() as u64);
    let ghost head = out@;
    let mut i: usize = 0;
    proof {
        assert(views.take(0) =~= Seq::empty());
    }
    while i < items.len()
        invariant
            i <= items.len(),
            views == block_views::<T>(items@),
            out@ == head + wire_each(views.take(i as int), block_writer::<T>()),
            forall|k: int| 0 <= k < i ==> content_fits::<T>((#[trigger] views[k]).value),
        decreases items.len() - i,
    {
        write_block(out, &items[i]);
        proof {
            assert(views.take(i + 1).drop_last() =~= views.take(i as int));
            assert(views.take(i + 1).last() == views[i as int]);
            assert(out@ =~= head + wire_each(views.take(i + 1), block_writer::<T>()));
        }
        i = i + 1;
    }
    proof {
        assert(views.take(items.len() as int) =~= views);
        assert(out@ =~= old(out)@ + wire_seq(views, block_writer::<T>()));
    }
}

/// Reads update blocks at position `at` of `bytes`; hands back what was read and
/// the position after it.
fn read_blocks<T: Item>(bytes: &[u8], at: usize) -> (result: Option<(Vec<UpdateBlock<T>>, usize)>)
    requires
        at <= bytes.len(),
    ensures
        match result {
            Some((items, end)) => at <= end <= bytes.len() && parse_seq(
                bytes@.skip(at as int),
                block_reader::<T>(),
            ) == Some((block_views::<T>(items@), end - at)),
            None => parse_seq(bytes@.skip(at as int), block_reader::<T>()) is None,
        },
{
    let (count, start) = match read_u64(bytes, at) {
        Some(found) => found,
        None => {
            return None;
        },
    };
    if count > usize::MAX as u64 {
        return None;
    }
    let ghost body = bytes@.skip(at as int).skip(start - at);
    let mut items: Vec<UpdateBlock<T>> = Vec::new();
    let mut pos = start;
    let mut i: u64 = 0;
    proof {
        assert(body =~= bytes@.skip(start as int));
        assert(block_views::<T>(items@) =~= Seq::empty());
    }
    while i < count
        invariant
            i <= count <= usize::MAX,
            at <= start <= pos <= bytes.len(),
            parse_varint(bytes@.skip(at as int)) == Some((count, start - at)),
            body == bytes@.skip(at as int).skip(start - at),
            body == bytes@.skip(start as int),
            items.len() == i,
            parse_each(body, i as nat, block_reader::<T>()) == Some((block_views::<T>(items@), pos - start)),
        decreases count - i,
    {
        let ghost seen = block_views::<T>(items@);
        proof {
            assert(body.skip(pos - start) =~= bytes@.skip(pos as int));
        }
        match read_block::<T>(bytes, pos) {
            Some((item, end)) => {
                let ghost value = item@;
                items.push(item);
                pos = end;
                proof {
                    assert(block_views::<T>(items@) =~= seen.push(value));
                }
            },
            None => {
                proof {
                    lemma_parse_each_stuck(body, (i + 1) as nat, count as nat, block_reader::<T>());
                }
                return None;
            },
        }
        i = i + 1;
    }
    Some((items, pos))
}

fn write_entry<T: Item>(out: &mut Vec<u8>, entry: &(ClientId, Vec<UpdateBlock<T>>))
    ensures
        final(out)@ == old(out)@ + entry_writer::<T>()((entry.0, block_views(entry.1@))),
        blocks_fit::<T>(block_views(entry.1@)),
{
    write_u64(out, entry.0);
    write_blocks(out, &entry.1);
    assert(out@ =~= old(out)@ + wire_entry::<T>((entry.0, block_views(entry.1@))));
}

fn read_entry<T: Item>(bytes: &[u8], at: usize) -> (result: Option<
    ((ClientId, Vec<UpdateBlock<T>>), usize),
>)
    requires
        at <= bytes.len(),
    ensures
        match result {
            Some((entry, end)) => at <= end <= bytes.len() && entry_reader::<T>()(
                bytes@.skip(at as int),
            ) == Some(((entry.0, block_views(entry.1@)), end - at)),
            None => entry_reader::<T>()(bytes@.skip(at as int)) is None,
        },
{
    let ghost input = bytes@.skip(at as int);
    let (client, middle) = match read_u64(bytes, at) {
        Some(found) => found,
        None => {
            return None;
        },
    };
    assert(input.skip(middle - at) =~= bytes@.skip(middle as int));
    match read_blocks::<T>(bytes, middle) {
        Some((blocks, end)) => Some(((client, blocks), end)),
        None => None,
    }
}

/// Appends entries of blocks to `out` as a sequence.
fn write_entries<T: Item>(out: &mut Vec<u8>, items: &Vec<(ClientId, Vec<UpdateBlock<T>>)>)
    ensures
        final(out)@ == old(out)@ + wire_seq(entry_views::<T>(items@), entry_writer::<T>()),
        entry_views::<T>(items@).len() <= usize::MAX,
        forall|i: int| 0 <= i < items.len() ==> blocks_fit::<T>((#[trigger] entry_views::<T>(items@)[i]).1),
{
    let ghost views = entry_views::<T>(items@);
    write_u64(out, items.len() as u64);
    let ghost head = out@;
    let mut i: usize = 0;
    proof {
        assert(views.take(0) =~= Seq::empty());
    }
    while i < items.len()
        invariant
            i <= items.len(),
            views == entry_views::<T>(items@),
            out@ == head + wire_each(views.take(i as int), entry_writer::<T>()),
            forall|k: int| 0 <= k < i ==> blocks_fit::<T>((#[trigger] views[k]).1),
        decreases items.len() - i,
    {
        write_entry(out, &items[i]);
        proof {
            assert(views.take(i + 1).drop_last() =~= views.take(i as int));
            assert(views.take(i + 1).last() == views[i as int]);
            assert(out@ =~= head + wire_each(views.take(i + 1), entry_writer::<T>()));
        }
        i = i + 1;
    }
    proof {
        assert(views.take(items.len() as int) =~= views);
        assert(out@ =~= old(out)@ + wire_seq(views, entry_writer::<T>()));
    }
}

/// Reads entries of blocks at position `at` of `bytes`; hands back what was read and
/// the position after it.
fn read_entries<T: Item>(bytes: &[u8], at: usize) -> (result: Option<(Vec<(ClientId, Vec<UpdateBlock<T>>)>, usize)>)
    requires
        at <= bytes.len(),
    ensures
        match result {
            Some((items, end)) => at <= end <= bytes.len() && parse_seq(
                bytes@.skip(at as int),
                entry_reader::<T>(),
            ) == Some((entry_views::<T>(items@), end - at)),
            None => parse_seq(bytes@.skip(at as int), entry_reader::<T>()) is None,
        },
{
    let (count, start) = match read_u64(bytes, at) {
        Some(found) => found,
        None => {
            return None;
        },
    };
    if count > usize::MAX as u64 {
        return None;
    }
    let ghost body = bytes@.skip(at as int).skip(start - at);
    let mut items: Vec<(ClientId, Vec<UpdateBlock<T>>)> = Vec::new();
    let mut pos = start;
    let mut i: u64 = 0;
    proof {
        assert(body =~= bytes@.skip(start as int));
        assert(entry_views::<T>(items@) =~= Seq::empty());
    }
    while i < count
        invariant
            i <= count <= usize::MAX,
            at <= start <= pos <= bytes.len(),
            parse_varint(bytes@.skip(at as int)) == Some((count, start - at)),
            body == bytes@.skip(at as int).skip(start - at),
            body == bytes@.skip(start as int),
            items.len() == i,
            parse_each(body, i as nat, entry_reader::<T>()) == Some((entry_views::<T>(items@), pos - start)),
        decreases count - i,
    {
        let ghost seen = entry_views::<T>(items@);
        proof {
            assert(body.skip(pos - start) =~= bytes@.skip(pos as int));
        }
        match read_entry::<T>(bytes, pos) {
            Some((item, end)) => {
                let ghost value = (item.0, block_views(item.1@));
                items.push(item);
                pos = end;
                proof {
                    assert(entry_views::<T>(items@) =~= seen.push(value));
                }
            },
            None => {
                proof {
                    lemma_parse_each_stuck(body, (i + 1) as nat, count as nat, entry_reader::<T>());
                }
                return None;
            },
        }
        i = i + 1;
    }
    Some((items, pos))
}

fn write_range(out: &mut Vec<u8>, range: &(ClientId, Range<Clock>))
    ensures
        final(out)@ == old(out)@ + range_writer()((range.0, range.1.start, range.1.end)),
{
    write_u64(out, range.0);
    write_u64(out, range.1.start);
    write_u64(out, range.1.end);
    assert(out@ =~= old(out)@ + wire_range((range.0, range.1.start, range.1.end)));
}

fn read_range(bytes: &[u8], at: usize) -> (result: Option<((ClientId, Range<Clock>), usize)>)
    requires
        at <= bytes.len(),
    ensures
        match result {
            Some((range, end)) => at <= end <= bytes.len() && range_reader()(
                bytes@.skip(at as int),
            ) == Some(((range.0, range.1.start, range.1.end), end - at)),
            None => range_reader()(bytes@.skip(at as int)) is None,
        },
{
    let ghost input = bytes@.skip(at as int);
    let (client, first) = match read_u64(bytes, at) {
        Some(found) => found,
        None => {
            return None;
        },
    };
    assert(input.skip(first - at) =~= bytes@.skip(first as int));
    let (start, second) = match read_u64(bytes, first) {
        Some(found) => found,
        None => {
            return None;
        },
    };
    assert(input.skip((first - at) + (second - first)) =~= bytes@.skip(second as int));
    let (end, after) = match read_u64(bytes, second) {
        Some(found) => found,
        None => {
            return None;
        },
    };
    Some(((client, start..end), after))
}

/// Appends declared ranges to `out` as a sequence.
fn write_ranges(out: &mut Vec<u8>, items: &Vec<(ClientId, Range<Clock>)>)
    ensures
        final(out)@ == old(out)@ + wire_seq(range_views(items@), range_writer()),
        range_views(items@).len() <= usize::MAX,
{
    let ghost views = range_views(items@);
    write_u64(out, items.len() as u64);
    let ghost head = out@;
    let mut i: usize = 0;
    proof {
        assert(views.take(0) =~= Seq::empty());
    }
    while i < items.len()
        invariant
            i <= items.len(),
            views == range_views(items@),
            out@ == head + wire_each(views.take(i as int), range_writer()),
        decreases items.len() - i,
    {
        write_range(out, &items[i]);
        proof {
            assert(views.take(i + 1).drop_last() =~= views.take(i as int));
            assert(views.take(i + 1).last() == views[i as int]);
            assert(out@ =~= head + wire_each(views.take(i + 1), range_writer()));
        }
        i = i + 1;
    }
    proof {
        assert(views.take(items.len() as int) =~= views);
        assert(out@ =~= old(out)@ + wire_seq(views, range_writer()));
    }
}

/// Reads declared ranges at position `at` of `bytes`; hands back what was read and
/// the position after it.
fn read_ranges(bytes: &[u8], at: usize) -> (result: Option<(Vec<(ClientId, Range<Clock>)>, usize)>)
    requires
        at <= bytes.len(),
    ensures
        match result {
            Some((items, end)) => at <= end <= bytes.len() && parse_seq(
                bytes@.skip(at as int),
                range_reader(),
            ) == Some((range_views(items@), end - at)),
            None => parse_seq(bytes@.skip(at as int), range_reader()) is None,
        },
{
    let (count, start) = match read_u64(bytes, at) {
        Some(found) => found,
        None => {
            return None;
        },
    };
    if count > usize::MAX as u64 {
        return None;
    }
    let ghost body = bytes@.skip(at as int).skip(start - at);
    let mut items: Vec<(ClientId, Range<Clock>)> = Vec::new();
    let mut pos = start;
    let mut i: u64 = 0;
    proof {
        assert(body =~= bytes@.skip(start as int));
        assert(range_views(items@) =~= Seq::empty());
    }
    while i < count
        invariant
            i <= count <= usize::MAX,
            at <= start <= pos <= bytes.len(),
            parse_varint(bytes@.skip(at as int)) == Some((count, start - at)),
            body == bytes@.skip(at as int).skip(start - at),
            body == bytes@.skip(start as int),
            items.len() == i,
            parse_each(body, i as nat, range_reader()) == Some((range_views(items@), pos - start)),
        decreases count - i,
    {
        let ghost seen = range_views(items@);
        proof {
            assert(body.skip(pos - start) =~= bytes@.skip(pos as int));
        }
        match read_range(bytes, pos) {
            Some((item, end)) => {
                let ghost value = (item.0, item.1.start, item.1.end);
                items.push(item);
                pos = end;
                proof {
                    assert(range_views(items@) =~= seen.push(value));
                }
            },
            None => {
                proof {
                    lemma_parse_each_stuck(body, (i + 1) as nat, count as nat, range_reader());
                }
                return None;
            },
        }
        i = i + 1;
    }
    Some((items, pos))
}

fn write_run(out: &mut Vec<u8>, run: &(Clock, usize))
    ensures
        final(out)@ == old(out)@ + run_writer()(*run),
{
    write_u64(out, run.0);
    write_u64(out, run.1 as u64);
    assert(out@ =~= old(out)@ + wire_run(*run));
}

fn read_run(bytes: &[u8], at: usize) -> (result: Option<((Clock, usize), usize)>)
    requires
        at <= bytes.len(),
    ensures
        match result {
            Some((run, end)) => at <= end <= bytes.len() && run_reader()(bytes@.skip(at as int))
                == Some((run, end - at)),
            None => run_reader()(bytes@.skip(at as int)) is None,
        },
{
    let ghost input = bytes@.skip(at as int);
    let (start, middle) = match read_u64(bytes, at) {
        Some(found) => found,
        None => {
            return None;
        },
    };
    assert(input.skip(middle - at) =~= bytes@.skip(middle as int));
    let (length, end) = match read_u64(bytes, middle) {
        Some(found) => found,
        None => {
            return None;
        },
    };
    if length > usize::MAX as u64 {
        return None;
    }
    Some(((start, length as usize), end))
}

/// Appends runs of tombstones to `out` as a sequence.
fn write_runs(out: &mut Vec<u8>, items: &Vec<(Clock, usize)>)
    ensures
        final(out)@ == old(out)@ + wire_seq(run_views(items@), run_writer()),
        run_views(items@).len() <= usize::MAX,
{
    let ghost views = run_views(items@);
    write_u64(out, items.len() as u64);
    let ghost head = out@;
    let mut i: usize = 0;
    proof {
        assert(views.take(0) =~= Seq::empty());
    }
    while i < items.len()
        invariant
            i <= items.len(),
            views == run_views(items@),
            out@ == head + wire_each(views.take(i as int), run_writer()),
        decreases items.len() - i,
    {
        write_run(out, &items[i]);
        proof {
            assert(views.take(i + 1).drop_last() =~= views.take(i as int));
            assert(views.take(i + 1).last() == views[i as int]);
            assert(out@ =~= head + wire_each(views.take(i + 1), run_writer()));
        }
        i = i + 1;
    }
    proof {
        assert(views.take(items.len() as int) =~= views);
        assert(out@ =~= old(out)@ + wire_seq(views, run_writer()));
    }
}

/// Reads runs of tombstones at position `at` of `bytes`; hands back what was read and
/// the position after it.
fn read_runs(bytes: &[u8], at: usize) -> (result: Option<(Vec<(Clock, usize)>, usize)>)
    requires
        at <= bytes.len(),
    ensures
        match result {
            Some((items, end)) => at <= end <= bytes.len() && parse_seq(
                bytes@.skip(at as int),
                run_reader(),
            ) == Some((run_views(items@), end - at)),
            None => parse_seq(bytes@.skip(at as int), run_reader()) is None,
        },
{
    let (count, start) = match read_u64(bytes, at) {
        Some(found) => found,
        None => {
            return None;
        },
    };
    if count > usize::MAX as u64 {
        return None;
    }
    let ghost body = bytes@.skip(at as int).skip(start - at);
    let mut items: Vec<(Clock, usize)> = Vec::new();
    let mut pos = start;
    let mut i: u64 = 0;
    proof {
        assert(body =~= bytes@.skip(start as int));
        assert(run_views(items@) =~= Seq::empty());
    }
    while i < count
        invariant
            i <= count <= usize::MAX,
            at <= start <= pos <= bytes.len(),
            parse_varint(bytes@.skip(at as int)) == Some((count, start - at)),
            body == bytes@.skip(at as int).skip(start - at),
            body == bytes@.skip(start as int),
            items.len() == i,
            parse_each(body, i as nat, run_reader()) == Some((run_views(items@), pos - start)),
        decreases count - i,
    {
        let ghost seen = run_views(items@);
        proof {
            assert(body.skip(pos - start) =~= bytes@.skip(pos as int));
        }
        match read_run(bytes, pos) {
            Some((item, end)) => {
                let ghost value = item;
                items.push(item);
                pos = end;
                proof {
                    assert(run_views(items@) =~= seen.push(value));
                }
            },
            None => {
                proof {
                    lemma_parse_each_stuck(body, (i + 1) as nat, count as nat, run_reader());
                }
                return None;
            },
        }
        i = i + 1;
    }
    Some((items, pos))
}

fn write_tombstones(out: &mut Vec<u8>, entry: &(ClientId, Vec<(Clock, usize)>))
    ensures
        final(out)@ == old(out)@ + runs_writer()((entry.0, entry.1@)),
        entry.1@.len() <= usize::MAX,
{
    write_u64(out, entry.0);
    write_runs(out, &entry.1);
    assert(out@ =~= old(out)@ + wire_runs((entry.0, entry.1@)));
}

fn read_tombstones(bytes: &[u8], at: usize) -> (result: Option<
    ((ClientId, Vec<(Clock, usize)>), usize),
>)
    requires
        at <= bytes.len(),
    ensures
        match result {
            Some((entry, end)) => at <= end <= bytes.len() && runs_reader()(bytes@.skip(at as int))
                == Some(((entry.0, entry.1@), end - at)),
            None => runs_reader()(bytes@.skip(at as int)) is None,
        },
{
    let ghost input = bytes@.skip(at as int);
    let (client, middle) = match read_u64(bytes, at) {
        Some(found) => found,
        None => {
            return None;
        },
    };
    assert(input.skip(middle - at) =~= bytes@.skip(middle as int));
    match read_runs(bytes, middle) {
        Some((runs, end)) => Some(((client, runs), end)),
        None => None,
    }
}

/// Appends the tombstones of all replicas to `out` as a sequence.
fn write_deletes(out: &mut Vec<u8>, items: &Vec<(ClientId, Vec<(Clock, usize)>)>)
    ensures
        final(out)@ == old(out)@ + wire_seq(runs_views(items@), runs_writer()),
        runs_views(items@).len() <= usize::MAX,
        forall|i: int| 0 <= i < items.len() ==> (#[trigger] runs_views(items@)[i]).1.len() <= usize::MAX,
{
    let ghost views = runs_views(items@);
    write_u64(out, items.len() as u64);
    let ghost head = out@;
    let mut i: usize = 0;
    proof {
        assert(views.take(0) =~= Seq::empty());
    }
    while i < items.len()
        invariant
            i <= items.len(),
            views == runs_views(items@),
            out@ == head + wire_each(views.take(i as int), runs_writer()),
            forall|k: int| 0 <= k < i ==> (#[trigger] views[k]).1.len() <= usize::MAX,
        decreases items.len() - i,
    {
        write_tombstones(out, &items[i]);
        proof {
            assert(views.take(i + 1).drop_last() =~= views.take(i as int));
            assert(views.take(i + 1).last() == views[i as int]);
            assert(out@ =~= head + wire_each(views.take(i + 1), runs_writer()));
        }
        i = i + 1;
    }
    proof {
        assert(views.take(items.len() as int) =~= views);
        assert(out@ =~= old(out)@ + wire_seq(views, runs_writer()));
    }
}

/// Reads the tombstones of all replicas at position `at` of `bytes`; hands back what was read and
/// the position after it.
fn read_deletes(bytes: &[u8], at: usize) -> (result: Option<(Vec<(ClientId, Vec<(Clock, usize)>)>, usize)>)
    requires
        at <= bytes.len(),
    ensures
        match result {
            Some((items, end)) => at <= end <= bytes.len() && parse_seq(
                bytes@.skip(at as int),
                runs_reader(),
            ) == Some((runs_views(items@), end - at)),
            None => parse_seq(bytes@.skip(at as int), runs_reader()) is None,
        },
{
    let (count, start) = match read_u64(bytes, at) {
        Some(found) => found,
        None => {
            return None;
        },
    };
    if count > usize::MAX as u64 {
        return None;
    }
    let ghost body = bytes@.skip(at as int).skip(start - at);
    let mut items: Vec<(ClientId, Vec<(Clock, usize)>)> = Vec::new();
    let mut pos = start;
    let mut i: u64 = 0;
    proof {
        assert(body =~= bytes@.skip(start as int));
        assert(runs_views(items@) =~= Seq::empty());
    }
    while i < count
        invariant
            i <= count <= usize::MAX,
            at <= start <= pos <= bytes.len(),
            parse_varint(bytes@.skip(at as int)) == Some((count, start - at)),
            body == bytes@.skip(at as int).skip(start - at),
            body == bytes@.skip(start as int),
            items.len() == i,
            parse_each(body, i as nat, runs_reader()) == Some((runs_views(items@), pos - start)),
        decreases count - i,
    {
        let ghost seen = runs_views(items@);
        proof {
            assert(body.skip(pos - start) =~= bytes@.skip(pos as int));
        }
        match read_tombstones(bytes, pos) {
            Some((item, end)) => {
                let ghost value = (item.0, item.1@);
                items.push(item);
                pos = end;
                proof {
                    assert(runs_views(items@) =~= seen.push(value));
                }
            },
            None => {
                proof {
                    lemma_parse_each_stuck(body, (i + 1) as nat, count as nat, runs_reader());
                }
                return None;
            },
        }
        i = i + 1;
    }
    Some((items, pos))
}

/// The bytes did not hold an update.
#[derive(Debug, Clone, Copy, PartialEq, Eq)]
pub struct MalformedEncoding;

/// The bytes of `update`. Reading them gives the update back.
pub fn encode<T: Item>(update: &Update<T>) -> (bytes: Vec<u8>)
    ensures
        bytes@ == wire_update::<T>(update@),
        update_fits::<T>(update@),
        parse_update::<T>(bytes@) == Some((update@, bytes@.len() as int)),
{
    let mut out: Vec<u8> = Vec::new();
    write_ranges(&mut out, &update.dependency);
    write_entries(&mut out, &update.blocks);
    write_deletes(&mut out, &update.deletes.deletes);
    proof {
        assert(range_views(update.dependency@) =~= update@.dependency);
        assert(entry_views::<T>(update.blocks@) =~= update@.blocks);
        assert(runs_views(update.deletes.deletes@) =~= update@.deletes) by {
            assert forall|i: int| 0 <= i < update.deletes.deletes@.len() implies runs_views(
                update.deletes.deletes@,
            )[i] == update@.deletes[i] by {
                assert(update.deletes.deletes@[i].1.deep_view() =~= update.deletes.deletes@[i].1@);
            }
        }
        assert(out@ =~= wire_update::<T>(update@));
        lemma_update_round_trip::<T>(update@, Seq::empty());
        assert(out@ + Seq::<u8>::empty() =~= out@);
    }
    out
}

/// Reads an update at the front of `bytes`; hands back the update and the
/// number of bytes it took, or fails if the bytes do not begin with an update.
pub fn decode<T: Item>(bytes: &[u8]) -> (result: Result<(Update<T>, usize), MalformedEncoding>)
    ensures
        match result {
            Ok((update, used)) => used <= bytes.len() && parse_update::<T>(bytes@) == Some(
                (update@, used as int),
            ),
            Err(_) => parse_update::<T>(bytes@) is None,
        },
{
    assert(bytes@.skip(0) =~= bytes@);
    let (dependency, first) = match read_ranges(bytes, 0) {
        Some(found) => found,
        None => {
            return Err(MalformedEncoding);
        },
    };
    let (blocks, second) = match read_entries::<T>(bytes, first) {
        Some(found) => found,
        None => {
            return Err(MalformedEncoding);
        },
    };
    let (deletes, end) = match read_deletes(bytes, second) {
        Some(found) => found,
        None => {
            return Err(MalformedEncoding);
        },
    };
    let update = Update { dependency, blocks, deletes: DeleteSet { deletes } };
    proof {
        assert(range_views(update.dependency@) =~= update@.dependency);
        assert(entry_views::<T>(update.blocks@) =~= update@.blocks);
        assert(runs_views(update.deletes.deletes@) =~= update@.deletes) by {
            assert forall|i: int| 0 <= i < update.deletes.deletes@.len() implies runs_views(
                update.deletes.deletes@,
            )[i] == update@.deletes[i] by {
                assert(update.deletes.deletes@[i].1.deep_view() =~= update.deletes.deletes@[i].1@);
            }
        }
    }
    Ok((update, end))
}

} // verus!
