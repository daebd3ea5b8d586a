use vstd::prelude::*;
use std::collections::HashMap;
use std::ops::Range;
use crate::block::{Block, Item};
use crate::delete_set::{covered_by, entries_cover, run_covers, runs_cover, DeleteSet};
use crate::document::{BlockId, ClientId, Clock, Document};
use crate::model::{BlockData, ListState};

verus! {

broadcast use vstd::std_specs::hash::group_hash_axioms;

/// What an update block carries: live items, or the length of a tombstone.
#[derive(Eq, PartialEq, Debug, Clone)]
pub enum Content<T: Item> {
    Value(Vec<T>),
    Deleted(u64),
}

/// The model of [`Content`].
pub enum ContentData<V> {
    Value(Seq<V>),
    Deleted(u64),
}

impl<T: Item> View for Content<T> {
    type V = ContentData<T::V>;

    open spec fn view(&self) -> ContentData<T::V> {
        match self {
            Content::Value(items) => ContentData::Value(items.deep_view()),
            Content::Deleted(length) => ContentData::Deleted(*length),
        }
    }
}

impl<V> ContentData<V> {
    /// The number of positions the content occupies.
    pub open spec fn length(self) -> nat {
        match self {
            ContentData::Value(items) => items.len(),
            ContentData::Deleted(length) => length as nat,
        }
    }

    /// Whether both contents are of the same kind.
    pub open spec fn same_kind(self, other: Self) -> bool {
        (self is Value) == (other is Value)
    }

    /// The content of two adjacent blocks as one: the items of both, or the
    /// sum of the tombstone lengths. Next to live items a tombstone adds nothing.
    pub open spec fn merged(self, other: Self) -> Self {
        match (self, other) {
            (ContentData::Value(a), ContentData::Value(b)) => ContentData::Value(a + b),
            (ContentData::Value(a), ContentData::Deleted(_)) => ContentData::Value(a),
            (ContentData::Deleted(_), ContentData::Value(b)) => ContentData::Value(b),
            (ContentData::Deleted(a), ContentData::Deleted(b)) => ContentData::Deleted(
                (a + b) as u64,
            ),
        }
    }
}

impl<T: Item> Content<T> {
    /// The content of `self` followed by `other` as one.
    pub fn merge(self, other: Self) -> (merged: Self)
        requires
            self is Deleted && other is Deleted ==> self@.length() + other@.length() <= u64::MAX,
        ensures
            merged@ == self@.merged(other@),
    {
        match (self, other) {
            (Content::Value(mut value), Content::Value(mut value2)) => {
                let ghost first = value.deep_view();
                let ghost second = value2.deep_view();
                value.append(&mut value2);
                assert(value.deep_view() =~= first + second);
                Content::Value(value)
            },
            (Content::Value(value), Content::Deleted(_)) => Content::Value(value),
            (Content::Deleted(_), Content::Value(value)) => Content::Value(value),
            (Content::Deleted(deleted), Content::Deleted(deleted2)) => Content::Deleted(
                deleted + deleted2,
            ),
        }
    }
}

/// The outcome of an attempt to merge two values.
pub enum MergeResult<T> {
    Merged(T),
    NotMerged(T, T),
}

/// A block as an update carries it: its origins and its content. Its clock
/// follows from its position in the update.
#[derive(Eq, PartialEq, Debug, Clone)]
pub struct UpdateBlock<T: Item> {
    pub origin_left: Option<BlockId>,
    pub origin_right: Option<BlockId>,
    pub value: Content<T>,
}

/// The model of [`UpdateBlock`].
pub struct UpdateBlockData<V> {
    pub origin_left: Option<BlockId>,
    pub origin_right: Option<BlockId>,
    pub value: ContentData<V>,
}

impl<T: Item> View for UpdateBlock<T> {
    type V = UpdateBlockData<T::V>;

    open spec fn view(&self) -> UpdateBlockData<T::V> {
        UpdateBlockData {
            origin_left: self.origin_left,
            origin_right: self.origin_right,
            value: self.value@,
        }
    }
}

impl<V> UpdateBlockData<V> {
    /// The block that stands for this update block in a store: live with its
    /// items, or a tombstone of its length.
    pub open spec fn hydrated(self) -> BlockData<V> {
        match self.value {
            ContentData::Value(items) => BlockData {
                origin_left: self.origin_left,
                origin_right: self.origin_right,
                value: items,
                length: items.len(),
                deleted: false,
            },
            ContentData::Deleted(length) => BlockData {
                origin_left: self.origin_left,
                origin_right: self.origin_right,
                value: Seq::empty(),
                length: length as nat,
                deleted: true,
            },
        }
    }

    /// The update block that stands for a block of a store.
    pub open spec fn of_block(block: BlockData<V>) -> Self {
        UpdateBlockData {
            origin_left: block.origin_left,
            origin_right: block.origin_right,
            value: if block.deleted {
                ContentData::Deleted(block.length as u64)
            } else {
                ContentData::Value(block.value)
            },
        }
    }

    /// Whether `self`, standing at `self_id`, and `other`, standing at
    /// `other_id`, can be carried as one block: same replica, adjacent clocks,
    /// `other` produced right after `self` before the same right neighbour,
    /// and contents of the same kind.
    pub open spec fn merges_with(self, self_id: BlockId, other: Self, other_id: BlockId) -> bool {
        &&& self.origin_right == other.origin_right
        &&& Some(self_id) == other.origin_left
        &&& self_id.client_id == other_id.client_id
        &&& self_id.clock + self.value.length() == other_id.clock
        &&& self.value.same_kind(other.value)
    }
}

/// The copies of `items`, in order.
fn duplicate_all<T: Item>(items: &Vec<T>) -> (copies: Vec<T>)
    ensures
        copies.deep_view() == items.deep_view(),
{
    let mut copies: Vec<T> = Vec::new();
    let mut i: usize = 0;
    while i < items.len()
        invariant
            i <= items.len(),
            copies.deep_view() == items.deep_view().take(i as int),
        decreases items.len() - i,
    {
        let ghost seen = copies.deep_view();
        copies.push(items[i].duplicate());
        assert(copies.deep_view() =~= seen.push(items[i as int].deep_view()));
        i = i + 1;
    }
    assert(items.deep_view().take(items.len() as int) =~= items.deep_view());
    copies
}

impl<T: Item> UpdateBlock<T> {
    /// The block that stands for `self` in a store, at clock `id` and not yet linked.
    pub fn hydrate(self, id: Clock) -> (block: Block<T>)
        ensures
            block@ == self@.hydrated(),
            block@.wf(),
            block.id == id,
            block.left == None::<BlockId>,
            block.right == None::<BlockId>,
    {
        let (length, value, deleted) = match self.value {
            Content::Value(value) => (value.len() as u64, value, false),
            Content::Deleted(size) => {
                let none: Vec<T> = Vec::new();
                assert(none.deep_view() =~= Seq::empty());
                (size, none, true)
            },
        };
        Block {
            id,
            origin_left: self.origin_left,
            origin_right: self.origin_right,
            value,
            left: None,
            right: None,
            deleted,
            length,
        }
    }

    /// The update block that stands for `block`: its items if it is live, its
    /// length if it is a tombstone.
    pub fn from_block(block: &Block<T>) -> (update_block: UpdateBlock<T>)
        ensures
            update_block@ == UpdateBlockData::of_block(block@),
    {
        let value = if block.deleted {
            Content::Deleted(block.length)
        } else {
            Content::Value(duplicate_all(&block.value))
        };
        UpdateBlock { origin_left: block.origin_left, origin_right: block.origin_right, value }
    }

    /// A live update block for one item between `left` and `right`.
    pub fn with_value(left: Option<BlockId>, right: Option<BlockId>, value: T) -> (update_block:
        UpdateBlock<T>)
        ensures
            update_block@ == (UpdateBlockData {
                origin_left: left,
                origin_right: right,
                value: ContentData::Value(seq![value.deep_view()]),
            }),
    {
        let mut items = Vec::new();
        items.push(value);
        assert(items.deep_view() =~= seq![value.deep_view()]);
        UpdateBlock { origin_left: left, origin_right: right, value: Content::Value(items) }
    }

    /// The number of positions the block occupies.
    pub fn length(&self) -> (length: u64)
        ensures
            length == self@.value.length(),
    {
        match &self.value {
            Content::Value(v) => v.len() as u64,
            Content::Deleted(v) => *v,
        }
    }

    /// Merges `self` and `other` where they can be carried as one block and
    /// the merged tombstone length fits; hands both back otherwise.
    pub fn try_merge(self, self_id: BlockId, other: Self, other_id: BlockId) -> (result:
        MergeResult<UpdateBlock<T>>)
        ensures
            match result {
                MergeResult::Merged(merged) => {
                    &&& self@.merges_with(self_id, other@, other_id)
                    &&& merged@ == (UpdateBlockData {
                        value: self@.value.merged(other@.value),
                        ..self@
                    })
                },
                MergeResult::NotMerged(first, second) => {
                    &&& first == self
                    &&& second == other
                    &&& !self@.merges_with(self_id, other@, other_id) || self@.value.length()
                        + other@.value.length() > u64::MAX
                },
            },
    {
        let length = self.length();
        let other_length = other.length();
        let adjacent = self_id.clock <= other_id.clock && other_id.clock - self_id.clock == length;
        let same_kind = match (&self.value, &other.value) {
            (Content::Value(_), Content::Value(_)) => true,
            (Content::Deleted(_), Content::Deleted(_)) => true,
            _ => false,
        };
        let can_merge = self.origin_right == other.origin_right && Some(self_id)
            == other.origin_left && self_id.client_id == other_id.client_id && adjacent
            && same_kind && length <= u64::MAX - other_length;
        if can_merge {
            MergeResult::Merged(
                UpdateBlock {
                    origin_left: self.origin_left,
                    origin_right: self.origin_right,
                    value: self.value.merge(other.value),
                },
            )
        } else {
            MergeResult::NotMerged(self, other)
        }
    }
}

impl<T: Item> From<Block<T>> for UpdateBlock<T> {
    /// The update block that stands for `block`, which is used up.
    fn from(block: Block<T>) -> (update_block: Self) {
        let value = if block.deleted {
            Content::Deleted(block.length)
        } else {
            Content::Value(block.value)
        };
        UpdateBlock { origin_left: block.origin_left, origin_right: block.origin_right, value }
    }
}

impl<T: Item> vstd::std_specs::convert::FromSpecImpl<Block<T>> for UpdateBlock<T> {
    open spec fn obeys_from_spec() -> bool {
        true
    }

    open spec fn from_spec(block: Block<T>) -> Self {
        UpdateBlock {
            origin_left: block.origin_left,
            origin_right: block.origin_right,
            value: if block.deleted {
                Content::Deleted(block.length)
            } else {
                Content::Value(block.value)
            },
        }
    }
}

/// A causal diff between replicas: the clock ranges it holds, the blocks of
/// those ranges replica by replica, and the tombstones its sender knew.
#[derive(Eq, PartialEq, Clone, Debug)]
pub struct Update<T: Item> {
    pub dependency: Vec<(ClientId, Range<Clock>)>,
    pub blocks: Vec<(ClientId, Vec<UpdateBlock<T>>)>,
    pub deletes: DeleteSet,
}

/// The model of [`Update`].
pub struct UpdateData<V> {
    /// For each replica named, the first clock that the update holds and the
    /// clock after the last.
    pub dependency: Seq<(ClientId, Clock, Clock)>,
    pub blocks: Seq<(ClientId, Seq<UpdateBlockData<V>>)>,
    pub deletes: Seq<(ClientId, Seq<(Clock, usize)>)>,
}

/// The models of a run of update blocks.
pub open spec fn block_views<T: Item>(blocks: Seq<UpdateBlock<T>>) -> Seq<UpdateBlockData<T::V>> {
    Seq::new(blocks.len(), |j: int| blocks[j]@)
}

impl<T: Item> View for Update<T> {
    type V = UpdateData<T::V>;

    open spec fn view(&self) -> UpdateData<T::V> {
        UpdateData {
            dependency: Seq::new(
                self.dependency@.len(),
                |i: int|
                    (self.dependency@[i].0, self.dependency@[i].1.start, self.dependency@[i].1.end),
            ),
            blocks: Seq::new(
                self.blocks@.len(),
                |i: int| (self.blocks@[i].0, block_views(self.blocks@[i].1@)),
            ),
            deletes: self.deletes.deletes.deep_view(),
        }
    }
}

/// Why an update is not well formed.
#[derive(PartialEq, Eq, Debug, Clone, Copy)]
pub enum ValidationError {
    /// The update holds blocks of a replica for which it declares no range.
    ClientDoesNotExist(ClientId),
    /// A block names an origin outside every declared range.
    UpdateOutsideRange(BlockId),
    /// The range declared for a replica is not as long as its run of blocks.
    InvalidUpdateRange(ClientId),
}

impl<V> UpdateData<V> {
    /// The first range declared for `client` from entry `i` on.
    pub open spec fn range_from(self, i: int, client: ClientId) -> Option<(Clock, Clock)>
        decreases self.dependency.len() - i,
    {
        if i < 0 || i >= self.dependency.len() {
            None
        } else if self.dependency[i].0 == client {
            Some((self.dependency[i].1, self.dependency[i].2))
        } else {
            self.range_from(i + 1, client)
        }
    }

    /// The range declared for `client`: the first one, if it is declared more than once.
    pub open spec fn range_of(self, client: ClientId) -> Option<(Clock, Clock)> {
        self.range_from(0, client)
    }

    /// Whether an origin lies within what the update declares: there is no
    /// origin, or a range is declared for its replica and its clock is not
    /// beyond the end of that range.
    pub open spec fn declares(self, origin: Option<BlockId>) -> bool {
        match origin {
            None => true,
            Some(id) => match self.range_of(id.client_id) {
                Some((_, end)) => id.clock <= end,
                None => false,
            },
        }
    }

    /// The first origin among the blocks from `j` on that the update does not
    /// declare, left origin before right origin.
    pub open spec fn stray_origin(self, blocks: Seq<UpdateBlockData<V>>, j: int) -> Option<BlockId>
        decreases blocks.len() - j,
    {
        if j < 0 || j >= blocks.len() {
            None
        } else if !self.declares(blocks[j].origin_left) {
            blocks[j].origin_left
        } else if !self.declares(blocks[j].origin_right) {
            blocks[j].origin_right
        } else {
            self.stray_origin(blocks, j + 1)
        }
    }

    /// What is wrong with the run `blocks` of replica `client`, if anything:
    /// a stray origin, else a missing range, else a range of the wrong length.
    pub open spec fn entry_error(
        self,
        client: ClientId,
        blocks: Seq<UpdateBlockData<V>>,
    ) -> Option<ValidationError> {
        match self.stray_origin(blocks, 0) {
            Some(id) => Some(ValidationError::UpdateOutsideRange(id)),
            None => match self.range_of(client) {
                None => Some(ValidationError::ClientDoesNotExist(client)),
                Some((start, end)) => if span(start, end) != blocks.len() {
                    Some(ValidationError::InvalidUpdateRange(client))
                } else {
                    None
                },
            },
        }
    }

    /// The first error among the entries from `i` on.
    pub open spec fn error_from(self, i: int) -> Option<ValidationError>
        decreases self.blocks.len() - i,
    {
        if i < 0 || i >= self.blocks.len() {
            None
        } else {
            match self.entry_error(self.blocks[i].0, self.blocks[i].1) {
                Some(error) => Some(error),
                None => self.error_from(i + 1),
            }
        }
    }

    /// The outcome of validation: the first error in the order of the entries, if any.
    pub open spec fn validated(self) -> Result<(), ValidationError> {
        match self.error_from(0) {
            Some(error) => Err(error),
            None => Ok(()),
        }
    }
}

/// The number of clocks from `start` up to `end`, none if `end` lies before `start`.
pub open spec fn span(start: Clock, end: Clock) -> nat {
    if start <= end {
        (end - start) as nat
    } else {
        0
    }
}

impl<T: Item> Update<T> {
    /// The range that the update declares for `client_id`.
    pub fn get_version_range(&self, client_id: ClientId) -> (range: Option<Range<Clock>>)
        ensures
            match range {
                Some(r) => self@.range_of(client_id) == Some((r.start, r.end)),
                None => self@.range_of(client_id) is None,
            },
    {
        let mut i: usize = 0;
        while i < self.dependency.len()
            invariant
                i <= self.dependency.len(),
                self@.range_of(client_id) == self@.range_from(i as int, client_id),
            decreases self.dependency.len() - i,
        {
            if self.dependency[i].0 == client_id {
                return Some(self.dependency[i].1.start..self.dependency[i].1.end);
            }
            i = i + 1;
        }
        None
    }

    /// Whether `block` lies within what the update declares.
    pub fn does_clock_exist(&self, block: Option<BlockId>) -> (exists: bool)
        ensures
            exists == self@.declares(block),
    {
        if let Some(block) = block {
            if let Some(range) = self.get_version_range(block.client_id) {
                if block.clock > range.end {
                    return false;
                }
            } else {
                return false;
            }
        }
        true
    }

    /// Checks the update against itself: every origin lies within a declared
    /// range, and every run of blocks has a declared range of its length.
    pub fn validate(&self) -> (result: Result<(), ValidationError>)
        ensures
            result == self@.validated(),
    {
        let mut i: usize = 0;
        while i < self.blocks.len()
            invariant
                i <= self.blocks.len(),
                self@.error_from(0) == self@.error_from(i as int),
            decreases self.blocks.len() - i,
        {
            let client = self.blocks[i].0;
            let blocks = &self.blocks[i].1;
            let ghost run = self@.blocks[i as int].1;
            let mut j: usize = 0;
            while j < blocks.len()
                invariant
                    j <= blocks.len(),
                    i < self.blocks.len(),
                    self@.error_from(0) == self@.error_from(i as int),
                    client == self@.blocks[i as int].0,
                    run == self@.blocks[i as int].1,
                    run == block_views(blocks@),
                    self@.stray_origin(run, 0) == self@.stray_origin(run, j as int),
                decreases blocks.len() - j,
            {
                let block = &blocks[j];
                if !self.does_clock_exist(block.origin_left) {
                    return Err(ValidationError::UpdateOutsideRange(block.origin_left.unwrap()));
                }
                if !self.does_clock_exist(block.origin_right) {
                    return Err(ValidationError::UpdateOutsideRange(block.origin_right.unwrap()));
                }
                j = j + 1;
            }
            if let Some(range) = self.get_version_range(client) {
                let declared = if range.start <= range.end {
                    range.end - range.start
                } else {
                    0
                };
                if declared != blocks.len() as u64 {
                    return Err(ValidationError::InvalidUpdateRange(client));
                }
            } else {
                return Err(ValidationError::ClientDoesNotExist(client));
            }
            i = i + 1;
        }
        Ok(())
    }

    /// The update as it is: no pass that merges adjacent blocks is made.
    pub fn compact(self) -> (compacted: Self)
        ensures
            compacted == self,
    {
        self
    }
}

impl<V> UpdateData<V> {
    /// The update blocks that stand for the blocks `blocks` of a store.
    pub open spec fn of_blocks(blocks: Seq<BlockData<V>>) -> Seq<UpdateBlockData<V>> {
        Seq::new(blocks.len(), |j: int| UpdateBlockData::of_block(blocks[j]))
    }

    /// The full state `state` as an update that lists the replicas in the
    /// order of `replicas`: every replica's range starts at clock 0 and holds
    /// all its blocks.
    pub open spec fn snapshot(state: ListState<V>, replicas: Seq<ClientId>) -> Self {
        UpdateData {
            dependency: Seq::new(
                replicas.len(),
                |i: int| (replicas[i], 0u64, state.clock_of(replicas[i]) as u64),
            ),
            blocks: Seq::new(
                replicas.len(),
                |i: int| (replicas[i], Self::of_blocks(state.blocks_of(replicas[i]))),
            ),
            deletes: state.tombstones(replicas),
        }
    }
}

impl<T: Item> Update<T> {
    /// The full state of `document` as an update; the replicas come in
    /// ascending order.
    pub fn from_document(document: &Document<T>) -> (update: Update<T>)
        ensures
            update@ == UpdateData::snapshot(document@, document@.replicas()),
    {
        let replicas = document.store.replicas();
        let mut dependency: Vec<(ClientId, Range<Clock>)> = Vec::new();
        let mut blocks: Vec<(ClientId, Vec<UpdateBlock<T>>)> = Vec::new();
        let ghost state = document@;
        let ghost target = UpdateData::snapshot(state, replicas@);
        let mut i: usize = 0;
        while i < replicas.len()
            invariant
                i <= replicas.len(),
                state == document@,
                target == UpdateData::snapshot(state, replicas@),
                dependency.len() == i,
                blocks.len() == i,
                forall|k: int|
                    0 <= k < i ==> (#[trigger] dependency[k]).0 == replicas[k] && dependency[k].1.start
                        == 0 && dependency[k].1.end == state.clock_of(replicas[k]),
                forall|k: int|
                    0 <= k < i ==> (#[trigger] blocks[k]).0 == replicas[k] && block_views(
                        blocks[k].1@,
                    ) == UpdateData::of_blocks(state.blocks_of(replicas[k])),
            decreases replicas.len() - i,
        {
            let client = replicas[i];
            let mut run: Vec<UpdateBlock<T>> = Vec::new();
            let ghost held = state.blocks_of(client);
            let mut count: u64 = 0;
            match document.store.blocks_of(client) {
                Some(stored) => {
                    let mut j: usize = 0;
                    while j < stored.len()
                        invariant
                            j <= stored.len() == held.len(),
                            forall|t: int|
                                0 <= t < stored.len() ==> (#[trigger] stored[t])@ == held[t],
                            run.len() == j,
                            forall|t: int|
                                0 <= t < j ==> (#[trigger] run[t])@ == UpdateBlockData::of_block(
                                    held[t],
                                ),
                        decreases stored.len() - j,
                    {
                        run.push(UpdateBlock::from_block(&stored[j]));
                        j = j + 1;
                    }
                    count = stored.len() as u64;
                },
                None => {},
            }
            proof {
                assert(block_views(run@) =~= UpdateData::of_blocks(held));
            }
            dependency.push((client, 0..count));
            blocks.push((client, run));
            i = i + 1;
        }
        let deletes = DeleteSet::for_replicas(document, &replicas);
        let update = Update { dependency, blocks, deletes };
        proof {
            assert(update@.dependency =~= target.dependency);
            assert(update@.blocks =~= target.blocks);
        }
        update
    }

    /// An update that holds `blocks` as the run of replica `client_id`,
    /// declares `dependency` and names no tombstones.
    pub fn from_blocks(
        client_id: ClientId,
        blocks: Vec<Block<T>>,
        dependency: Vec<(ClientId, Range<Clock>)>,
    ) -> (update: Update<T>)
        ensures
            update.dependency == dependency,
            update@.blocks == seq![
                (client_id, UpdateData::of_blocks(crate::store::payloads(blocks@))),
            ],
            update@.deletes == Seq::<(ClientId, Seq<(Clock, usize)>)>::empty(),
    {
        let mut update_blocks: Vec<UpdateBlock<T>> = Vec::new();
        let ghost target = UpdateData::of_blocks(crate::store::payloads(blocks@));
        for block in it: blocks.into_iter()
            invariant
                it.seq() == blocks@,
                target == UpdateData::of_blocks(crate::store::payloads(blocks@)),
                update_blocks.len() == it.index(),
                forall|t: int| 0 <= t < it.index() ==> (#[trigger] update_blocks[t])@ == target[t],
        {
            let update_block = UpdateBlock::from(block);
            update_blocks.push(update_block);
        }
        let mut entries: Vec<(ClientId, Vec<UpdateBlock<T>>)> = Vec::new();
        proof {
            assert(block_views(update_blocks@) =~= target);
        }
        entries.push((client_id, update_blocks));
        let update = Update { blocks: entries, dependency, deletes: DeleteSet::empty() };
        proof {
            assert(update@.blocks =~= seq![(client_id, target)]);
            assert(update@.deletes =~= Seq::empty());
        }
        update
    }
}

/// Why an update was not applied.
#[derive(PartialEq, Eq, Debug, Clone, Copy)]
pub enum ApplyError {
    /// The update builds on a state that the document has not seen: a range
    /// starts beyond the document's clock, a block to integrate has a left
    /// origin that is not there, or a tombstone names a block that is not there.
    MissingDependency,
    /// The update is not well formed.
    Invalid(ValidationError),
}

/// The blocks that stand for a run of update blocks in a store.
pub open spec fn hydrate_all<V>(blocks: Seq<UpdateBlockData<V>>) -> Seq<BlockData<V>> {
    Seq::new(blocks.len(), |j: int| blocks[j].hydrated())
}

/// Whether `state` holds the block that `origin` names, if it names one.
pub open spec fn known<V>(state: ListState<V>, origin: Option<BlockId>) -> bool {
    match origin {
        None => true,
        Some(id) => state.has(id),
    }
}

/// Whether the `t`-th block of `news` finds its left origin in the state in
/// which it is integrated: `state` with the blocks before it integrated.
pub open spec fn left_known_at<V>(
    state: ListState<V>,
    client: ClientId,
    news: Seq<BlockData<V>>,
    t: int,
) -> bool {
    known(state.integrate_all(client, news.take(t)), news[t].origin_left)
}

/// Whether each block of `news` finds its left origin in the state in which
/// it is integrated.
pub open spec fn lefts_known<V>(
    state: ListState<V>,
    client: ClientId,
    news: Seq<BlockData<V>>,
) -> bool {
    forall|t: int| 0 <= t < news.len() ==> #[trigger] left_known_at(state, client, news, t)
}

impl<V> UpdateData<V> {
    /// Every declared range starts at or before the clock that `state` has
    /// for its replica.
    pub open spec fn depends_ok(self, state: ListState<V>) -> bool {
        forall|i: int|
            0 <= i < self.dependency.len() ==> (#[trigger] self.dependency[i]).1 <= state.clock_of(
                self.dependency[i].0,
            )
    }

    /// The clock of the first block in the run of `client`.
    pub open spec fn first_clock(self, client: ClientId) -> Clock {
        match self.range_of(client) {
            Some((start, _)) => start,
            None => 0,
        }
    }

    /// How many blocks at the front of entry `i` the state `state` holds already.
    pub open spec fn held(self, state: ListState<V>, i: int) -> int {
        let client = self.blocks[i].0;
        let first = self.first_clock(client);
        if state.clock_of(client) <= first {
            0
        } else if state.clock_of(client) - first >= self.blocks[i].1.len() {
            self.blocks[i].1.len() as int
        } else {
            state.clock_of(client) - first
        }
    }

    /// The blocks of entry `i` that `state` does not hold yet, as the store
    /// will hold them.
    pub open spec fn fresh(self, state: ListState<V>, i: int) -> Seq<BlockData<V>> {
        hydrate_all(self.blocks[i].1.skip(self.held(state, i)))
    }

    /// The state after the first `n` entries: of each entry in turn, the blocks
    /// that the state does not hold yet are integrated.
    pub open spec fn after_entries(self, state: ListState<V>, n: int) -> ListState<V>
        decreases n,
    {
        if n <= 0 || n > self.blocks.len() {
            state
        } else {
            let prev = self.after_entries(state, n - 1);
            prev.integrate_all(self.blocks[n - 1].0, self.fresh(prev, n - 1))
        }
    }

    /// Whether, in the first `n` entries, every block that is integrated finds
    /// its left origin.
    pub open spec fn entries_ok(self, state: ListState<V>, n: int) -> bool {
        forall|i: int|
            0 <= i < n && i < self.blocks.len() ==> lefts_known(
                #[trigger] self.after_entries(state, i),
                self.blocks[i].0,
                self.fresh(self.after_entries(state, i), i),
            )
    }

    /// Whether `state` holds every block that the update names as a tombstone.
    pub open spec fn deletes_known(self, state: ListState<V>) -> bool {
        forall|id: BlockId| covered_by(self.deletes).contains(id) ==> state.has(id)
    }

    /// What applying the update to `state` gives. It fails, in this order, if
    /// a range starts beyond the state's clock, if the update is not well
    /// formed, or if a left origin or a tombstone names a block that is not
    /// there when it is needed. Else the blocks are integrated entry by entry
    /// and the tombstones are set.
    pub open spec fn applied(self, state: ListState<V>) -> Result<ListState<V>, ApplyError> {
        let n = self.blocks.len() as int;
        let fed = self.after_entries(state, n);
        if !self.depends_ok(state) {
            Err(ApplyError::MissingDependency)
        } else if self.validated() is Err {
            Err(ApplyError::Invalid(self.validated()->Err_0))
        } else if !self.entries_ok(state, n) || !self.deletes_known(fed) {
            Err(ApplyError::MissingDependency)
        } else {
            Ok(fed.with_deleted(covered_by(self.deletes)))
        }
    }

    /// An entry of a well-formed update has a declared range of its length.
    pub proof fn lemma_validated_entry(self, i: int, k: int)
        requires
            self.error_from(i) is None,
            0 <= i <= k < self.blocks.len(),
        ensures
            self.entry_error(self.blocks[k].0, self.blocks[k].1) is None,
        decreases k - i,
    {
        if i < k {
            self.lemma_validated_entry(i + 1, k);
        }
    }
}

/// The clock that the table records for `client`, or that of `state` if it
/// records none.
pub open spec fn projected<V>(
    table: Map<ClientId, Clock>,
    state: ListState<V>,
    client: ClientId,
) -> nat {
    if table.contains_key(client) {
        table[client] as nat
    } else {
        state.clock_of(client)
    }
}

fn lookup<T: Item>(table: &HashMap<ClientId, Clock>, document: &Document<T>, client: ClientId) -> (clock:
    Clock)
    ensures
        clock == projected(table@, document@, client),
{
    match table.get(&client) {
        Some(clock) => *clock,
        None => document.clock(client),
    }
}

impl<T: Item> Update<T> {
    /// Whether every declared range starts at or before the document's clock.
    fn depends_met(&self, document: &Document<T>) -> (met: bool)
        ensures
            met == self@.depends_ok(document@),
    {
        let mut i: usize = 0;
        while i < self.dependency.len()
            invariant
                i <= self.dependency.len(),
                forall|k: int|
                    0 <= k < i ==> (#[trigger] self@.dependency[k]).1 <= document@.clock_of(
                        self@.dependency[k].0,
                    ),
            decreases self.dependency.len() - i,
        {
            let start = document.clock(self.dependency[i].0);
            if self.dependency[i].1.start > start {
                assert(!(self@.dependency[i as int].1 <= document@.clock_of(
                    self@.dependency[i as int].0,
                )));
                return false;
            }
            i = i + 1;
        }
        true
    }

    /// How many blocks at the front of entry `k` a document holds already
    /// whose clock for the entry's replica is `held`.
    fn held_of(&self, k: usize, held: Clock) -> (skip: usize)
        requires
            k < self.blocks.len(),
        ensures
            skip <= self.blocks[k as int].1.len(),
            forall|state: ListState<T::V>|
                state.clock_of(self.blocks[k as int].0) == held ==> skip == #[trigger] self@.held(
                    state,
                    k as int,
                ),
    {
        let client = self.blocks[k].0;
        let first = match self.get_version_range(client) {
            Some(range) => range.start,
            None => 0,
        };
        let length = self.blocks[k].1.len();
        if held <= first {
            0
        } else if held - first >= length as u64 {
            length
        } else {
            (held - first) as usize
        }
    }

    /// Goes through the entries without touching the document and tells
    /// whether every block that would be integrated finds its left origin;
    /// if so, hands back the clocks that the document would have afterwards.
    fn check_entries(&self, document: &Document<T>) -> (clocks: Option<
        (HashMap<ClientId, Clock>, Vec<usize>),
    >)
        requires
            self@.validated() is Ok,
        ensures
            match clocks {
                Some((table, skips)) => {
                    &&& self@.entries_ok(document@, self@.blocks.len() as int)
                    &&& forall|c: ClientId|
                        #[trigger] projected(table@, document@, c) == self@.after_entries(
                            document@,
                            self@.blocks.len() as int,
                        ).clock_of(c)
                    &&& skips.len() == self.blocks.len()
                    &&& forall|i: int|
                        0 <= i < skips.len() ==> {
                            &&& #[trigger] skips[i] == self@.held(
                                self@.after_entries(document@, i),
                                i,
                            )
                            &&& self@.after_entries(document@, i + 1).clock_of(self.blocks[i].0)
                                <= u64::MAX
                        }
                },
                None => !self@.entries_ok(document@, self@.blocks.len() as int),
            },
    {
        let ghost state = document@;
        let mut table: HashMap<ClientId, Clock> = HashMap::new();
        let mut skips: Vec<usize> = Vec::new();
        let mut k: usize = 0;
        while k < self.blocks.len()
            invariant
                k <= self.blocks.len(),
                state == document@,
                self@.validated() is Ok,
                self@.entries_ok(state, k as int),
                skips.len() == k,
                forall|i: int|
                    0 <= i < skips.len() ==> {
                        &&& #[trigger] skips[i] == self@.held(self@.after_entries(state, i), i)
                        &&& self@.after_entries(state, i + 1).clock_of(self.blocks[i].0)
                            <= u64::MAX
                    },
                forall|c: ClientId|
                    #[trigger] projected(table@, state, c) == self@.after_entries(
                        state,
                        k as int,
                    ).clock_of(c),
            decreases self.blocks.len() - k,
        {
            let client = self.blocks[k].0;
            let run = &self.blocks[k].1;
            let held = lookup(&table, document, client);
            let skip = self.held_of(k, held);
            let ghost g = self@.after_entries(state, k as int);
            let ghost news = self@.fresh(g, k as int);
            proof {
                assert(projected(table@, state, client) == g.clock_of(client));
                assert(skip == self@.held(g, k as int));
                assert(news.len() == run.len() - skip);
                assert forall|t: int| 0 <= t < news.len() implies (#[trigger] news[t]).origin_left
                    == run[skip + t].origin_left by {
                    assert(news[t] == run[skip + t]@.hydrated());
                }
            }
            if !check_run(run, skip, client, held, &table, document, Ghost(g), Ghost(news)) {
                return None;
            }
            proof {
                self@.lemma_validated_entry(0, k as int);
                let next = self@.after_entries(state, k + 1);
                assert(next == g.integrate_all(client, news));
                g.lemma_integrate_all_clocks(client, news, client);
            }
            let added = (run.len() - skip) as u64;
            let ghost before = table@;
            table.insert(client, held + added);
            skips.push(skip);
            proof {
                let next = self@.after_entries(state, k + 1);
                assert forall|c: ClientId| #[trigger]
                    projected(table@, state, c) == next.clock_of(c) by {
                    g.lemma_integrate_all_clocks(client, news, c);
                    assert(projected(before, state, c) == g.clock_of(c));
                }
            }
            k = k + 1;
        }
        Some((table, skips))
    }

    /// Whether every block that the update names as a tombstone lies below
    /// the clock that `table` gives for its replica.
    fn check_deletes(&self, document: &Document<T>, table: &HashMap<ClientId, Clock>) -> (found:
        bool)
        ensures
            found == (forall|id: BlockId|
                covered_by(self@.deletes).contains(id) ==> id.clock < projected(
                    table@,
                    document@,
                    id.client_id,
                )),
    {
        let ghost entries = self@.deletes;
        let mut i: usize = 0;
        while i < self.deletes.deletes.len()
            invariant
                i <= self.deletes.deletes.len(),
                entries == self.deletes.deletes.deep_view(),
                forall|id: BlockId|
                    entries_cover(entries, i as int, id) ==> id.clock < projected(
                        table@,
                        document@,
                        id.client_id,
                    ),
            decreases self.deletes.deletes.len() - i,
        {
            let client = self.deletes.deletes[i].0;
            let runs = &self.deletes.deletes[i].1;
            let limit = lookup(table, document, client);
            proof {
                assert(entries[i as int].1 =~= runs@);
            }
            let mut j: usize = 0;
            while j < runs.len()
                invariant
                    j <= runs.len(),
                    i < self.deletes.deletes.len(),
                    entries == self.deletes.deletes.deep_view(),
                    entries[i as int] == (client, runs@),
                    limit == projected(table@, document@, client),
                    forall|id: BlockId|
                        runs_cover(client, runs@.take(j as int), id) ==> id.clock < limit,
                decreases runs.len() - j,
            {
                let (start, length) = runs[j];
                let within = length == 0 || (length as u64 <= limit && start <= limit
                    - length as u64);
                if !within {
                    proof {
                        let stray = BlockId {
                            client_id: client,
                            clock: if start >= limit {
                                start
                            } else {
                                limit
                            },
                        };
                        assert(run_covers(client, runs@[j as int], stray));
                        assert(runs_cover(client, entries[i as int].1, stray));
                        assert(entries_cover(entries, entries.len() as int, stray));
                        assert(covered_by(entries).contains(stray));
                        assert(entries == self@.deletes);
                        assert(!(stray.clock < projected(table@, document@, stray.client_id)));
                    }
                    return false;
                }
                proof {
                    let shorter = runs@.take(j as int);
                    let longer = runs@.take(j + 1);
                    assert forall|id: BlockId| runs_cover(client, longer, id) implies id.clock
                        < limit by {
                        let t = choose|t: int|
                            0 <= t < longer.len() && run_covers(client, #[trigger] longer[t], id);
                        if t < j {
                            assert(shorter[t] == longer[t]);
                            assert(runs_cover(client, shorter, id));
                        }
                    }
                }
                j = j + 1;
            }
            proof {
                assert(runs@.take(runs.len() as int) =~= runs@);
                assert forall|id: BlockId| entries_cover(entries, i + 1, id) implies id.clock
                    < projected(table@, document@, id.client_id) by {
                    let t = choose|t: int|
                        0 <= t < i + 1 && t < entries.len() && runs_cover(
                            (#[trigger] entries[t]).0,
                            entries[t].1,
                            id,
                        );
                    if t < i {
                        assert(entries_cover(entries, i as int, id));
                    }
                }
            }
            i = i + 1;
        }
        true
    }

    /// Applies the update to `document`: integrates, entry by entry, the
    /// blocks that the document does not hold yet, then sets the tombstones.
    /// If the update cannot be applied, the document stays as it is.
    pub fn apply(self, document: &mut Document<T>) -> (result: Result<(), ApplyError>)
        requires
            old(document).wf(),
        ensures
            final(document).wf(),
            final(document).client_id == old(document).client_id,
            old(document)@.evolves_to(final(document)@),
            match result {
                Ok(()) => self@.applied(old(document)@) == Ok::<ListState<T::V>, ApplyError>(
                    final(document)@,
                ),
                Err(error) => self@.applied(old(document)@) == Err::<ListState<T::V>, ApplyError>(
                    error,
                ) && final(document)@ == old(document)@,
            },
    {
        let ghost update = self@;
        let ghost state = document@;
        let ghost n = update.blocks.len() as int;
        proof {
            state.lemma_evolves_refl();
        }
        if !self.depends_met(document) {
            return Err(ApplyError::MissingDependency);
        }
        if let Err(error) = self.validate() {
            return Err(ApplyError::Invalid(error));
        }
        let skips = match self.check_entries(document) {
            Some((table, skips)) => {
                if !self.check_deletes(document, &table) {
                    proof {
                        let stray = choose|id: BlockId|
                            covered_by(update.deletes).contains(id) && !(id.clock < projected(
                                table@,
                                state,
                                id.client_id,
                            ));
                        assert(!update.after_entries(state, n).has(stray));
                    }
                    return Err(ApplyError::MissingDependency);
                }
                proof {
                    assert forall|id: BlockId|
                        covered_by(update.deletes).contains(id) implies update.after_entries(
                        state,
                        n,
                    ).has(id) by {
                        assert(id.clock < projected(table@, state, id.client_id));
                    }
                }
                skips
            },
            None => {
                return Err(ApplyError::MissingDependency);
            },
        };
        let Update { dependency: _, blocks, deletes } = self;
        let mut at: usize = 0;
        for entry in it: blocks.into_iter()
            invariant
                it.seq() == blocks@,
                at == it.index(),
                n == blocks.len(),
                update.blocks.len() == n,
                forall|i: int|
                    0 <= i < n ==> #[trigger] update.blocks[i] == (
                        blocks[i].0,
                        block_views(blocks[i].1@),
                    ),
                skips.len() == n,
                forall|i: int|
                    0 <= i < n ==> {
                        &&& #[trigger] skips[i] == update.held(update.after_entries(state, i), i)
                        &&& update.after_entries(state, i + 1).clock_of(blocks[i].0) <= u64::MAX
                    },
                document.wf(),
                document.client_id == old(document).client_id,
                document@ == update.after_entries(state, it.index() as int),
                state.evolves_to(document@),
        {
            let ghost k = it.index() as int;
            let ghost g = document@;
            let (client, run) = entry;
            let skip = skips[at];
            let base = document.clock(client);
            let ghost news = update.fresh(g, k);
            proof {
                assert(update.blocks[k] == (client, block_views(run@)));
                g.lemma_integrate_all_clocks(client, news, client);
                assert(update.after_entries(state, k + 1) == g.integrate_all(client, news));
            }
            let mut hydrated: Vec<Block<T>> = Vec::new();
            let mut j: usize = 0;
            for update_block in inner: run.into_iter()
                invariant
                    inner.seq() == run@,
                    j == inner.index(),
                    skip <= run.len(),
                    news.len() == run.len() - skip,
                    forall|t: int|
                        0 <= t < news.len() ==> #[trigger] news[t] == run[skip + t]@.hydrated(),
                    base + news.len() <= u64::MAX,
                    hydrated.len() == (if inner.index() <= skip {
                        0
                    } else {
                        inner.index() - skip
                    }),
                    forall|t: int|
                        0 <= t < hydrated.len() ==> (#[trigger] hydrated[t])@ == news[t]
                            && hydrated[t]@.wf(),
            {
                if j >= skip {
                    hydrated.push(update_block.hydrate(base + (j - skip) as u64));
                }
                j = j + 1;
            }
            proof {
                assert(crate::store::payloads(hydrated@) =~= news);
            }
            document.store.integrate(client, hydrated);
            proof {
                state.lemma_evolves_trans(g, document@);
            }
            at = at + 1;
        }
        let ghost fed = document@;
        deletes.apply(document);
        proof {
            state.lemma_evolves_trans(fed, document@);
            assert(deletes.covered() == covered_by(update.deletes));
        }
        Ok(())
    }
}

/// Whether each block of `run` from the `skip`-th on finds its left origin,
/// given the clocks at the time.
fn check_run<T: Item>(
    run: &Vec<UpdateBlock<T>>,
    skip: usize,
    client: ClientId,
    held: Clock,
    table: &HashMap<ClientId, Clock>,
    document: &Document<T>,
    g: Ghost<ListState<T::V>>,
    news: Ghost<Seq<BlockData<T::V>>>,
) -> (found: bool)
    requires
        skip <= run.len(),
        news@.len() == run.len() - skip,
        forall|t: int|
            0 <= t < news@.len() ==> (#[trigger] news@[t]).origin_left == run[skip + t].origin_left,
        held == g@.clock_of(client),
        forall|c: ClientId| #[trigger] projected(table@, document@, c) == g@.clock_of(c),
    ensures
        found == lefts_known(g@, client, news@),
{
    let mut j: usize = skip;
    while j < run.len()
        invariant
            skip <= j <= run.len(),
            news@.len() == run.len() - skip,
            forall|t: int|
                0 <= t < news@.len() ==> (#[trigger] news@[t]).origin_left == run[skip
                    + t].origin_left,
            held == g@.clock_of(client),
            forall|c: ClientId| #[trigger] projected(table@, document@, c) == g@.clock_of(c),
            forall|t: int| 0 <= t < j - skip ==> #[trigger] left_known_at(g@, client, news@, t),
        decreases run.len() - j,
    {
        let ghost t = j - skip;
        proof {
            assert(news@[t].origin_left == run[skip + t].origin_left);
        }
        let found = match run[j].origin_left {
            None => true,
            Some(origin) => {
                proof {
                    g@.lemma_integrate_all_clocks(client, news@.take(t), origin.client_id);
                }
                if origin.client_id == client {
                    origin.clock < held || origin.clock - held < (j - skip) as u64
                } else {
                    let limit = lookup(table, document, origin.client_id);
                    assert(limit == g@.clock_of(origin.client_id));
                    origin.clock < limit
                }
            },
        };
        if !found {
            assert(!left_known_at(g@, client, news@, t));
            return false;
        }
        assert(left_known_at(g@, client, news@, t));
        j = j + 1;
    }
    true
}

} // verus!
