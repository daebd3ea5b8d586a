use vstd::prelude::*;
use crate::document::{BlockId, ClientId, Clock};
use crate::model::BlockData;
use crate::wire::{lemma_varint_round_trip, parse_varint, read_u64, varint, write_u64};
use vstd::slice::{slice_subrange, slice_to_vec};
use vstd::utf8::{
    decode_utf8, encode_utf8, encode_utf8_decode_utf8, encode_utf8_valid_utf8, valid_utf8,
};

verus! {

/// What the list can hold. An item has a mathematical value, its deep view;
/// it can be copied, and it can be written to bytes and read back.
pub trait Item: Clone + DeepView + Sized {
    /// Whether a value is one that can be written.
    spec fn fits(value: Self::V) -> bool;

    /// The bytes that stand for a value.
    spec fn wire(value: Self::V) -> Seq<u8>;

    /// The value at the front of `bytes` and the number of bytes it takes,
    /// if the bytes begin with a value.
    spec fn parse(bytes: Seq<u8>) -> Option<(Self::V, int)>;

    /// A value that was written is read back, whatever follows it.
    proof fn lemma_round_trip(value: Self::V, rest: Seq<u8>)
        requires
            Self::fits(value),
        ensures
            Self::parse(Self::wire(value) + rest) == Some((value, Self::wire(value).len() as int)),
    ;

    /// A copy with the same value.
    fn duplicate(&self) -> (copy: Self)
        ensures
            copy.deep_view() == self.deep_view(),
    ;

    /// Appends the bytes of the item to `out`.
    fn write(&self, out: &mut Vec<u8>)
        ensures
            Self::fits(self.deep_view()),
            final(out)@ == old(out)@ + Self::wire(self.deep_view()),
    ;

    /// Reads an item at position `at` of `bytes`; hands back the item and
    /// the position after it.
    fn read(bytes: &[u8], at: usize) -> (result: Option<(Self, usize)>)
        requires
            at <= bytes.len(),
        ensures
            match result {
                Some((item, end)) => at <= end <= bytes.len() && Self::parse(
                    bytes@.skip(at as int),
                ) == Some((item.deep_view(), end - at)),
                None => Self::parse(bytes@.skip(at as int)) is None,
            },
    ;
}

/// `String::from_utf8`: the string that `bytes` encode in UTF-8, or nothing
/// if they are not valid UTF-8.
#[verifier::external_body]
fn string_from_utf8(bytes: Vec<u8>) -> (result: Option<String>)
    ensures
        match result {
            Some(text) => valid_utf8(bytes@) && text@ == decode_utf8(bytes@),
            None => !valid_utf8(bytes@),
        },
{
    match String::from_utf8(bytes) {
        Ok(text) => Some(text),
        Err(_) => None,
    }
}

/// A string is written as the length of its UTF-8 encoding and the encoding.
impl Item for String {
    open spec fn fits(value: Seq<char>) -> bool {
        encode_utf8(value).len() <= usize::MAX
    }

    open spec fn wire(value: Seq<char>) -> Seq<u8> {
        varint(encode_utf8(value).len() as u64) + encode_utf8(value)
    }

    open spec fn parse(bytes: Seq<u8>) -> Option<(Seq<char>, int)> {
        match parse_varint(bytes) {
            Some((length, used)) => if used + length <= bytes.len() && valid_utf8(
                bytes.subrange(used, used + length),
            ) {
                Some((decode_utf8(bytes.subrange(used, used + length)), used + length))
            } else {
                None
            },
            None => None,
        }
    }

    proof fn lemma_round_trip(value: Seq<char>, rest: Seq<u8>) {
        let text = encode_utf8(value);
        let head = varint(text.len() as u64);
        lemma_varint_round_trip(text.len() as u64, text + rest);
        assert(Self::wire(value) + rest =~= head + (text + rest));
        assert((Self::wire(value) + rest).subrange(
            head.len() as int,
            (head.len() + text.len()) as int,
        ) =~= text);
        encode_utf8_valid_utf8(value);
        encode_utf8_decode_utf8(value);
    }

    fn duplicate(&self) -> (copy: String) {
        self.clone()
    }

    fn write(&self, out: &mut Vec<u8>) {
        let bytes = self.as_str().as_bytes();
        write_u64(out, bytes.len() as u64);
        let ghost head = out@;
        let mut i: usize = 0;
        while i < bytes.len()
            invariant
                i <= bytes.len(),
                out@ == head + bytes@.take(i as int),
            decreases bytes.len() - i,
        {
            out.push(bytes[i]);
            assert(bytes@.take(i + 1) =~= bytes@.take(i as int).push(bytes[i as int]));
            i = i + 1;
        }
        assert(bytes@.take(bytes.len() as int) =~= bytes@);
    }

    fn read(bytes: &[u8], at: usize) -> (result: Option<(String, usize)>) {
        let (length, start) = match read_u64(bytes, at) {
            Some(found) => found,
            None => {
                return None;
            },
        };
        let ghost rest = bytes@.skip(at as int);
        if length > (bytes.len() - start) as u64 {
            return None;
        }
        let end = start + length as usize;
        let text = slice_to_vec(slice_subrange(bytes, start, end));
        assert(text@ =~= rest.subrange(start - at, start - at + length));
        match string_from_utf8(text) {
            Some(text) => Some((text, end)),
            None => None,
        }
    }
}

/// An optional item is written as one byte, 0 or 1, and after a 1 the item.
impl<T: Item> Item for Option<T> {
    open spec fn fits(value: Option<T::V>) -> bool {
        match value {
            Some(inner) => T::fits(inner),
            None => true,
        }
    }

    open spec fn wire(value: Option<T::V>) -> Seq<u8> {
        match value {
            Some(inner) => seq![1u8] + T::wire(inner),
            None => seq![0u8],
        }
    }

    open spec fn parse(bytes: Seq<u8>) -> Option<(Option<T::V>, int)> {
        if bytes.len() == 0 {
            None
        } else if bytes[0] == 0 {
            Some((None, 1))
        } else if bytes[0] == 1 {
            match T::parse(bytes.skip(1)) {
                Some((inner, used)) => Some((Some(inner), 1 + used)),
                None => None,
            }
        } else {
            None
        }
    }

    proof fn lemma_round_trip(value: Option<T::V>, rest: Seq<u8>) {
        match value {
            Some(inner) => {
                T::lemma_round_trip(inner, rest);
                assert((Self::wire(value) + rest).skip(1) =~= T::wire(inner) + rest);
            },
            None => {},
        }
    }

    fn duplicate(&self) -> (copy: Option<T>) {
        match self {
            Some(item) => Some(item.duplicate()),
            None => None,
        }
    }

    fn write(&self, out: &mut Vec<u8>) {
        match self {
            Some(item) => {
                out.push(1);
                item.write(out);
                assert(out@ =~= old(out)@ + Self::wire(self.deep_view()));
            },
            None => {
                out.push(0);
                assert(out@ =~= old(out)@ + Self::wire(self.deep_view()));
            },
        }
    }

    fn read(bytes: &[u8], at: usize) -> (result: Option<(Option<T>, usize)>) {
        if at >= bytes.len() {
            return None;
        }
        let tag = bytes[at];
        if tag == 0 {
            Some((None, at + 1))
        } else if tag == 1 {
            assert(bytes@.skip(at as int).skip(1) =~= bytes@.skip(at + 1));
            match T::read(bytes, at + 1) {
                Some((item, end)) => Some((Some(item), end)),
                None => None,
            }
        } else {
            None
        }
    }
}

/// An element of the list: a run of items with the neighbours it was produced
/// between and the neighbours it has now.
#[derive(Debug, Eq, PartialEq, Clone)]
pub struct Block<T: Clone> {
    /// The clock at which the block stands on its replica.
    pub id: Clock,
    /// Left neighbour when the block was produced.
    pub origin_left: Option<BlockId>,
    /// Current left neighbour.
    pub left: Option<BlockId>,
    /// Right neighbour when the block was produced.
    pub origin_right: Option<BlockId>,
    /// Current right neighbour.
    pub right: Option<BlockId>,
    pub value: Vec<T>,
    /// Number of positions the block occupies; kept when the block is deleted.
    pub length: u64,
    pub deleted: bool,
}

impl<T: Item> View for Block<T> {
    type V = BlockData<T::V>;

    open spec fn view(&self) -> BlockData<T::V> {
        BlockData {
            origin_left: self.origin_left,
            origin_right: self.origin_right,
            value: self.value.deep_view(),
            length: self.length as nat,
            deleted: self.deleted,
        }
    }
}

impl<T: Item> Block<T> {
    /// Marks the block deleted and drops its payload; its length stays.
    pub fn delete(&mut self)
        ensures
            final(self)@ == old(self)@.tombstone(),
            final(self).id == old(self).id,
            final(self).left == old(self).left,
            final(self).right == old(self).right,
    {
        if !self.deleted {
            self.deleted = true;
            self.value = Vec::new();
            assert(self.value.deep_view() =~= Seq::empty());
        }
    }

    /// A block for one item that follows `left` and has nothing to its right.
    pub fn with_value(id: Clock, left: Option<BlockId>, value: T) -> (block: Block<T>)
        ensures
            block@ == BlockData::single(left, None, value.deep_view()),
            block.id == id,
            block.left == left,
            block.right == None::<BlockId>,
    {
        let mut items = Vec::new();
        items.push(value);
        assert(items.deep_view() =~= seq![value.deep_view()]);
        Block {
            id,
            origin_left: left,
            left,
            origin_right: None,
            right: None,
            value: items,
            length: 1,
            deleted: false,
        }
    }

    /// A block for one item that stands between `left` and `right`.
    pub fn with_value_and_right(
        id: Clock,
        left: Option<BlockId>,
        right: Option<BlockId>,
        value: T,
    ) -> (block: Block<T>)
        ensures
            block@ == BlockData::single(left, right, value.deep_view()),
            block.id == id,
            block.left == left,
            block.right == right,
    {
        let mut items = Vec::new();
        items.push(value);
        assert(items.deep_view() =~= seq![value.deep_view()]);
        Block {
            id,
            origin_left: left,
            origin_right: right,
            left,
            right,
            value: items,
            length: 1,
            deleted: false,
        }
    }

    /// The block that holds what `self` and its right neighbour `next` hold
    /// together: it stands where `self` stands, keeps the origins and links of
    /// `self`, and is as long as both.
    pub fn merge_with_right(self, next: Block<T>) -> (merged: Block<T>)
        requires
            self.length + next.length <= u64::MAX,
        ensures
            merged.id == self.id,
            merged.left == self.left,
            merged.right == self.right,
            merged@ == (BlockData {
                value: if self.deleted {
                    self@.value
                } else {
                    self@.value + next@.value
                },
                length: self@.length + next@.length,
                ..self@
            }),
    {
        let mut value = self.value;
        if !self.deleted {
            let mut more = next.value;
            value.append(&mut more);
            assert(value.deep_view() =~= self@.value + next@.value);
        }
        Block {
            id: self.id,
            origin_left: self.origin_left,
            origin_right: self.origin_right,
            left: self.left,
            right: self.right,
            value,
            length: self.length + next.length,
            deleted: self.deleted,
        }
    }

    /// The two blocks that a block of replica `client_id` falls into when it
    /// is cut before its `index`-th position. The first keeps the clock and the
    /// origins; the second begins `index` clocks later and has the first as
    /// its left origin and left neighbour.
    pub fn split_at(self, client_id: ClientId, index: Clock) -> (halves: (Block<T>, Block<T>))
        requires
            self@.wf(),
            index <= self.length,
            self.id + index <= u64::MAX,
        ensures
            halves.0.id == self.id,
            halves.0.left == self.left,
            halves.0.right == Some(BlockId { client_id, clock: (self.id + index) as u64 }),
            halves.0@ == (BlockData {
                value: if self.deleted {
                    Seq::empty()
                } else {
                    self@.value.take(index as int)
                },
                length: index as nat,
                ..self@
            }),
            halves.1.id == self.id + index,
            halves.1.left == Some(BlockId { client_id, clock: self.id }),
            halves.1.right == self.right,
            halves.1@ == (BlockData {
                origin_left: Some(BlockId { client_id, clock: self.id }),
                value: if self.deleted {
                    Seq::empty()
                } else {
                    self@.value.skip(index as int)
                },
                length: (self.length - index) as nat,
                ..self@
            }),
    {
        let mut left_value = self.value;
        let right_value = if self.deleted {
            left_value = Vec::new();
            Vec::new()
        } else {
            // reading the length tells the verifier that the index fits a `usize`
            let _held = left_value.len();
            left_value.split_off(index as usize)
        };
        proof {
            if self.deleted {
                assert(left_value.deep_view() =~= Seq::empty());
                assert(right_value.deep_view() =~= Seq::empty());
            } else {
                assert(left_value.deep_view() =~= self@.value.take(index as int));
                assert(right_value.deep_view() =~= self@.value.skip(index as int));
            }
        }
        let left_block_id = Some(BlockId::new(client_id, self.id));
        let right_block_id = Some(BlockId::new(client_id, self.id + index));
        (
            Block {
                id: self.id,
                origin_left: self.origin_left,
                origin_right: self.origin_right,
                left: self.left,
                right: right_block_id,
                value: left_value,
                length: index,
                deleted: self.deleted,
            },
            Block {
                id: self.id + index,
                origin_left: left_block_id,
                origin_right: self.origin_right,
                left: left_block_id,
                right: self.right,
                value: right_value,
                length: self.length - index,
                deleted: self.deleted,
            },
        )
    }
}

} // verus!
