use vstd::prelude::*;
use vstd::std_specs::iter::IteratorSpec;
use std::collections::HashMap;
use crate::block::{Block, Item};
use crate::document::{BlockId, ClientId, Clock};
use crate::model::{ascending, BlockData, ListState};

verus! {

broadcast use vstd::std_specs::hash::group_hash_axioms;

/// The blocks a replica holds and the list they form. Blocks are found by id
/// in per-replica vectors; the list runs through their `left` and `right` fields.
pub struct Store<T: Item> {
    start: Option<BlockId>,
    end: Option<BlockId>,
    client_id: ClientId,
    data: HashMap<ClientId, Vec<Block<T>>>,
    order: Ghost<Seq<BlockId>>,
}

/// A block of the store together with its id.
pub struct BlockWithClientId<'a, T: Item> {
    pub block: &'a Block<T>,
    pub block_id: BlockId,
}

impl<T: Item> View for Store<T> {
    type V = ListState<T::V>;

    closed spec fn view(&self) -> ListState<T::V> {
        ListState {
            client_id: self.client_id,
            blocks: Map::new(
                |c: ClientId| self.data@.contains_key(c),
                |c: ClientId| Seq::new(self.data@[c]@.len(), |i: int| self.data@[c]@[i]@),
            ),
            order: self.order@,
        }
    }
}

impl<T: Item> Store<T> {
    /// The block held under `id`, links included.
    pub closed spec fn block(&self, id: BlockId) -> Block<T> {
        self.data@[id.client_id]@[id.clock as int]
    }

    /// The head of the list as the store records it.
    pub closed spec fn first(&self) -> Option<BlockId> {
        self.start
    }

    /// The tail of the list as the store records it.
    pub closed spec fn last(&self) -> Option<BlockId> {
        self.end
    }

    spec fn cells_of(&self, c: ClientId) -> Seq<Block<T>> {
        if self.data@.contains_key(c) {
            self.data@[c]@
        } else {
            Seq::empty()
        }
    }

    spec fn present(&self, id: BlockId) -> bool {
        self.data@.contains_key(id.client_id) && id.clock < self.data@[id.client_id]@.len()
    }

    /// Same replicas with as many blocks each, same ends, same list.
    spec fn same_frame(&self, other: &Self) -> bool {
        &&& self.start == other.start
        &&& self.end == other.end
        &&& self.client_id == other.client_id
        &&& self.order@ == other.order@
        &&& self.data@.dom() == other.data@.dom()
        &&& forall|c: ClientId| #[trigger]
            self.data@.contains_key(c) ==> self.data@[c]@.len() == other.data@[c]@.len()
    }

    /// The invariant of the store: the model is well formed, every block stands
    /// at its clock, and the `left` and `right` fields spell out the list from
    /// `start` to `end`.
    pub closed spec fn wf(&self) -> bool {
        &&& self@.wf()
        &&& self.start == self@.head()
        &&& self.end == self@.tail()
        &&& forall|id: BlockId| self.present(id) ==> (#[trigger] self.block(id)).id == id.clock
        &&& forall|j: int|
            0 <= j < self.order@.len() ==> {
                &&& (#[trigger] self.block(self.order@[j])).left == self@.at(j - 1)
                &&& self.block(self.order@[j]).right == self@.at(j + 1)
            }
    }

    /// What the invariant says: the model is well formed; `first` and `last`
    /// are the ends of the list; every block stands at its clock; and every
    /// block of the list has the block before it as `left` and the block after
    /// it as `right`, so that following `right` from `first` runs through the
    /// list in order, every block once, and following `left` from `last` runs
    /// through it in reverse.
    pub proof fn lemma_list_integrity(&self)
        requires
            self.wf(),
        ensures
            self@.wf(),
            self.first() == self@.head(),
            self.last() == self@.tail(),
            forall|id: BlockId| self@.has(id) ==> (#[trigger] self.block(id)).id == id.clock,
            forall|id: BlockId| self@.has(id) ==> (#[trigger] self.block(id))@ == self@.get(id),
            forall|j: int|
                0 <= j < self@.order.len() ==> {
                    &&& (#[trigger] self.block(self@.order[j])).left == self@.at(j - 1)
                    &&& self.block(self@.order[j]).right == self@.at(j + 1)
                },
    {
        assert forall|id: BlockId| self@.has(id) implies (#[trigger] self.block(id)).id
            == id.clock by {
            assert(self.present(id));
        }
    }

    /// The blocks met on the way from `from` along the `right` fields, at
    /// most `steps` of them.
    pub open spec fn walk_right(&self, from: Option<BlockId>, steps: nat) -> Seq<BlockId>
        decreases steps,
    {
        match from {
            Some(id) if steps > 0 => seq![id] + self.walk_right(
                self.block(id).right,
                (steps - 1) as nat,
            ),
            _ => Seq::empty(),
        }
    }

    /// The blocks met on the way from `from` along the `left` fields, at most
    /// `steps` of them.
    pub open spec fn walk_left(&self, from: Option<BlockId>, steps: nat) -> Seq<BlockId>
        decreases steps,
    {
        match from {
            Some(id) if steps > 0 => seq![id] + self.walk_left(
                self.block(id).left,
                (steps - 1) as nat,
            ),
            _ => Seq::empty(),
        }
    }

    /// Following `right` from the head runs through the list and ends behind
    /// the tail; following `left` from the tail runs through it in reverse
    /// and ends before the head. However many steps are allowed, no more
    /// blocks are met than the list holds, and the list holds each block once.
    pub proof fn lemma_walks(&self, steps: nat)
        requires
            self.wf(),
            steps >= self@.order.len(),
        ensures
            self.walk_right(self.first(), steps) == self@.order,
            self.walk_left(self.last(), steps) == self@.order.reverse(),
            self@.order.no_duplicates(),
            forall|id: BlockId| self@.order.contains(id) <==> self@.has(id),
    {
        self.lemma_list_integrity();
        self.lemma_walk_right_from(0, steps);
        assert(self@.order.skip(0) =~= self@.order);
        let n = self@.order.len() as int;
        self.lemma_walk_left_from(n - 1, steps);
        assert(self@.order.take(n) =~= self@.order);
    }

    proof fn lemma_walk_right_from(&self, j: int, steps: nat)
        requires
            self.wf(),
            0 <= j <= self@.order.len(),
            steps >= self@.order.len() - j,
        ensures
            self.walk_right(self@.at(j), steps) == self@.order.skip(j),
        decreases self@.order.len() - j,
    {
        self.lemma_list_integrity();
        if j < self@.order.len() {
            self.lemma_walk_right_from(j + 1, (steps - 1) as nat);
            assert(self.block(self@.order[j]).right == self@.at(j + 1));
            assert(seq![self@.order[j]] + self@.order.skip(j + 1) =~= self@.order.skip(j));
        } else {
            assert(self@.order.skip(j) =~= Seq::empty());
        }
    }

    proof fn lemma_walk_left_from(&self, j: int, steps: nat)
        requires
            self.wf(),
            -1 <= j < self@.order.len(),
            steps >= j + 1,
        ensures
            self.walk_left(self@.at(j), steps) == self@.order.take(j + 1).reverse(),
        decreases j + 1,
    {
        self.lemma_list_integrity();
        if j >= 0 {
            self.lemma_walk_left_from(j - 1, (steps - 1) as nat);
            assert(self.block(self@.order[j]).left == self@.at(j - 1));
            assert(seq![self@.order[j]] + self@.order.take(j).reverse() =~= self@.order.take(
                j + 1,
            ).reverse());
        } else {
            assert(self@.order.take(j + 1).reverse() =~= Seq::empty());
        }
    }

    /// An empty store owned by replica `client_id`.
    pub fn new(client_id: u64) -> (store: Store<T>)
        ensures
            store.wf(),
            store@ == ListState::<T::V>::empty(client_id),
    {
        let store = Store {
            data: HashMap::new(),
            start: None,
            end: None,
            client_id,
            order: Ghost(Seq::empty()),
        };
        assert(store@.blocks =~= Map::empty());
        store
    }

    /// Whether the store holds a block under `id`.
    pub fn contains(&self, id: BlockId) -> (found: bool)
        ensures
            found == self@.has(id),
    {
        match self.data.get(&id.client_id) {
            Some(blocks) => id.clock < blocks.len() as u64,
            None => false,
        }
    }

    /// The number of blocks held for `client`, which is its next clock.
    pub fn clock_of(&self, client: ClientId) -> (clock: Clock)
        ensures
            clock == self@.clock_of(client),
    {
        match self.data.get(&client) {
            Some(blocks) => blocks.len() as u64,
            None => 0,
        }
    }

    fn block_ref(&self, id: BlockId) -> (b: &Block<T>)
        requires
            self.present(id),
        ensures
            *b == self.block(id),
    {
        let blocks = self.data.get(&id.client_id).unwrap();
        // reading the length tells the verifier that the clock fits a `usize`
        let _held = blocks.len();
        &blocks[id.clock as usize]
    }

    fn set_left(&mut self, id: BlockId, left: Option<BlockId>)
        requires
            old(self).present(id),
        ensures
            final(self).same_frame(old(self)),
            final(self).block(id) == (Block { left, ..old(self).block(id) }),
            forall|x: BlockId|
                old(self).present(x) && x != id ==> #[trigger] final(self).block(x) == old(
                    self,
                ).block(x),
    {
        let mut blocks = self.data.remove(&id.client_id).unwrap();
        // reading the length tells the verifier that the clock fits a `usize`
        let _held = blocks.len();
        blocks[id.clock as usize].left = left;
        self.data.insert(id.client_id, blocks);
        assert(self.data@.dom() =~= old(self).data@.dom());
    }

    fn set_right(&mut self, id: BlockId, right: Option<BlockId>)
        requires
            old(self).present(id),
        ensures
            final(self).same_frame(old(self)),
            final(self).block(id) == (Block { right, ..old(self).block(id) }),
            forall|x: BlockId|
                old(self).present(x) && x != id ==> #[trigger] final(self).block(x) == old(
                    self,
                ).block(x),
    {
        let mut blocks = self.data.remove(&id.client_id).unwrap();
        // reading the length tells the verifier that the clock fits a `usize`
        let _held = blocks.len();
        blocks[id.clock as usize].right = right;
        self.data.insert(id.client_id, blocks);
        assert(self.data@.dom() =~= old(self).data@.dom());
    }

    fn mark_deleted(&mut self, id: BlockId)
        requires
            old(self).present(id),
        ensures
            final(self).same_frame(old(self)),
            final(self).block(id)@ == old(self).block(id)@.tombstone(),
            final(self).block(id).id == old(self).block(id).id,
            final(self).block(id).left == old(self).block(id).left,
            final(self).block(id).right == old(self).block(id).right,
            forall|x: BlockId|
                old(self).present(x) && x != id ==> #[trigger] final(self).block(x) == old(
                    self,
                ).block(x),
    {
        let mut blocks = self.data.remove(&id.client_id).unwrap();
        // reading the length tells the verifier that the clock fits a `usize`
        let _held = blocks.len();
        blocks[id.clock as usize].delete();
        self.data.insert(id.client_id, blocks);
        assert(self.data@.dom() =~= old(self).data@.dom());
    }

    fn push_block(&mut self, client: ClientId, block: Block<T>)
        ensures
            final(self).start == old(self).start,
            final(self).end == old(self).end,
            final(self).client_id == old(self).client_id,
            final(self).order@ == old(self).order@,
            final(self).data@.dom() == old(self).data@.dom().insert(client),
            final(self).data@[client]@ == old(self).cells_of(client).push(block),
            final(self).data@[client]@.len() <= usize::MAX,
            forall|c: ClientId|
                c != client && old(self).data@.contains_key(c) ==> #[trigger] final(self).data@[c]
                    == old(self).data@[c],
    {
        let mut blocks = match self.data.remove(&client) {
            Some(blocks) => blocks,
            None => Vec::new(),
        };
        blocks.push(block);
        // reading the length tells the verifier that the clock fits a `usize`
        let _held = blocks.len();
        self.data.insert(client, blocks);
        assert(self.data@.dom() =~= old(self).data@.dom().insert(client));
    }

    /// Stores `block` as the next block of `client` and links it into the list
    /// right before `before`, or at the tail if there is no `before`.
    fn link(&mut self, client: ClientId, block: Block<T>, before: Option<BlockId>, p: Ghost<int>)
        requires
            old(self).wf(),
            0 <= p@ <= old(self)@.order.len(),
            before == old(self)@.at(p@),
            block@.wf(),
        ensures
            final(self).wf(),
            final(self)@ == old(self)@.placed(client, block@, p@),
    {
        let ghost entered = *self;
        let ghost initial = self@;
        let ghost o = self.order@;
        let clock = self.clock_of(client);
        let id = BlockId { client_id: client, clock };
        let mut block = block;
        let ghost payload = block@;
        proof {
            initial.lemma_placed(client, payload, p@);
            if p@ < o.len() {
                assert(o.contains(o[p@]));
            }
            if 0 < p@ {
                assert(o.contains(o[p@ - 1]));
            }
        }
        let prev = match before {
            Some(next) => self.block_ref(next).left,
            None => self.end,
        };
        assert(prev == initial.at(p@ - 1));
        block.id = clock;
        block.left = prev;
        block.right = before;
        match before {
            Some(next) => {
                self.set_left(next, Some(id));
            },
            None => {
                self.end = Some(id);
            },
        }
        let ghost left_set = *self;
        match prev {
            Some(prev_id) => {
                self.set_right(prev_id, Some(id));
            },
            None => {
                self.start = Some(id);
            },
        }
        let ghost right_set = *self;
        self.push_block(client, block);
        proof {
            self.order@ = o.insert(p@, id);
            let after = initial.placed(client, payload, p@);
            assert forall|x: BlockId| entered.present(x) implies self.present(x) && self.block(x)
                == right_set.block(x) && right_set.block(x)@ == entered.block(x)@ && right_set.block(x).id == entered.block(
                x,
            ).id by {
                assert(left_set.present(x));
                assert(right_set.present(x));
                if before == Some(x) {
                } else {
                    assert(left_set.block(x) == entered.block(x));
                }
                if prev == Some(x) {
                } else {
                    assert(right_set.block(x) == left_set.block(x));
                }
            }
            assert(self@.blocks =~= after.blocks) by {
                assert forall|c: ClientId| self@.blocks.contains_key(c) implies #[trigger] self@.blocks[c]
                    =~= after.blocks[c] by {
                    assert forall|i: int| 0 <= i < self@.blocks[c].len() implies self@.blocks[c][i]
                        == after.blocks[c][i] by {
                        if c != client || i < initial.clock_of(client) {
                            assert(entered.data@.contains_key(c));
                            assert(initial.blocks.contains_key(c));
                            let x = BlockId { client_id: c, clock: i as u64 };
                            assert(entered.present(x));
                            assert(self.block(x)@ == entered.block(x)@);
                        }
                    }
                }
            }
            assert(self@ == after);
            initial.lemma_placed_wf(client, payload, p@);
            assert forall|x: BlockId| self.present(x) implies (#[trigger] self.block(x)).id
                == x.clock by {
                if x != id {
                    assert(after.has(x));
                    assert(entered.present(x));
                }
            }
            assert forall|j: int| 0 <= j < self.order@.len() implies {
                &&& (#[trigger] self.block(self.order@[j])).left == self@.at(j - 1)
                &&& self.block(self.order@[j]).right == self@.at(j + 1)
            } by {
                let x = self.order@[j];
                if j != p@ {
                    let k = if j < p@ {
                        j
                    } else {
                        j - 1
                    };
                    assert(x == o[k]);
                    assert(o.contains(x));
                    assert(entered.present(x));
                    assert(entered.block(o[k]).left == initial.at(k - 1));
                    assert(entered.block(o[k]).right == initial.at(k + 1));
                    if before == Some(x) {
                        assert(k == p@);
                    } else {
                        assert(left_set.block(x) == entered.block(x));
                    }
                    if prev == Some(x) {
                        assert(k == p@ - 1);
                    } else {
                        assert(right_set.block(x) == left_set.block(x));
                    }
                }
            }
        }
    }

    /// The block before which a block of `client_id` with origins `left` and
    /// `right` is to be inserted, or `None` if it goes to the tail.
    pub fn find_insertion_point(
        &self,
        client_id: ClientId,
        left: Option<BlockId>,
        right: Option<BlockId>,
    ) -> (point: Option<BlockId>)
        requires
            self.wf(),
        ensures
            point == self@.at(self@.insertion_index(client_id, left, right)),
    {
        let ghost o = self.order@;
        let ghost from = self@.scan_start(left);
        let mut current = match left {
            Some(l) => {
                if !self.contains(l) {
                    return None;
                }
                assert(o.contains(l));
                self.block_ref(l).right
            },
            None => self.start,
        };
        let ghost mut j = from;
        loop
            invariant
                self.wf(),
                o == self.order@,
                from == self@.scan_start(left),
                0 <= from <= j <= o.len(),
                current == self@.at(j),
                self@.first_stop(from, client_id, left, right) == self@.first_stop(
                    j,
                    client_id,
                    left,
                    right,
                ),
            decreases o.len() - j,
        {
            let candidate = match current {
                Some(candidate) => candidate,
                None => {
                    return None;
                },
            };
            assert(o.contains(o[j]));
            let block = self.block_ref(candidate);
            if current == right {
                return current;
            }
            if block.left == left && candidate.client_id > client_id {
                return current;
            }
            current = block.right;
            proof {
                j = j + 1;
            }
        }
    }

    /// Integrates the blocks of replica `client_id`, first to last: each is
    /// stored under the next clock of that replica and linked in at its
    /// insertion point.
    pub fn integrate(&mut self, client_id: ClientId, blocks: Vec<Block<T>>)
        requires
            old(self).wf(),
            forall|i: int| 0 <= i < blocks.len() ==> (#[trigger] blocks[i])@.wf(),
        ensures
            final(self).wf(),
            final(self)@ == old(self)@.integrate_all(client_id, payloads(blocks@)),
            old(self)@.evolves_to(final(self)@),
    {
        let ghost all = payloads(blocks@);
        proof {
            assert(all.take(0) =~= Seq::empty());
            old(self)@.lemma_evolves_refl();
        }
        for block in it: blocks.into_iter()
            invariant
                it.seq() == blocks@,
                all == payloads(blocks@),
                forall|i: int| 0 <= i < blocks.len() ==> (#[trigger] blocks[i])@.wf(),
                self.wf(),
                self@ == old(self)@.integrate_all(client_id, all.take(it.index() as int)),
                old(self)@.evolves_to(self@),
        {
            let ghost k = it.index() as int;
            let ghost before_state = self@;
            assert(block == blocks[k]);
            let point = self.find_insertion_point(client_id, block.origin_left, block.origin_right);
            let ghost p = self@.insertion_index(client_id, block.origin_left, block.origin_right);
            proof {
                self@.lemma_first_stop_bounds(
                    self@.scan_start(block.origin_left),
                    client_id,
                    block.origin_left,
                    block.origin_right,
                );
                assert(all.take(k + 1).drop_last() =~= all.take(k));
                assert(all.take(k + 1).last() == block@);
            }
            self.link(client_id, block, point, Ghost(p));
            proof {
                before_state.lemma_placed_evolves(client_id, block@, p);
                old(self)@.lemma_evolves_trans(before_state, self@);
            }
        }
        proof {
            assert(all.take(blocks.len() as int) =~= all);
        }
    }

    /// The block held under `id`, if there is one.
    pub fn get(&self, id: BlockId) -> (found: Option<&Block<T>>)
        ensures
            found is Some == self@.has(id),
            found matches Some(b) ==> *b == self.block(id),
    {
        if self.contains(id) {
            Some(self.block_ref(id))
        } else {
            None
        }
    }

    /// The blocks of the list from `start` on, `start` included; the whole
    /// list if there is no `start`, and nothing if `start` is not in the list.
    pub fn iter_blocks_with_offset(&self, start: Option<BlockId>) -> (found: Vec<
        BlockWithClientId<'_, T>,
    >)
        requires
            self.wf(),
        ensures
            found.len() == self@.order.len() - self@.position(start),
            forall|i: int|
                0 <= i < found.len() ==> {
                    &&& (#[trigger] found[i]).block_id == self@.order[self@.position(start) + i]
                    &&& *found[i].block == self.block(found[i].block_id)
                },
    {
        let ghost o = self.order@;
        let ghost from = self@.position(start);
        let mut found: Vec<BlockWithClientId<'_, T>> = Vec::new();
        let mut current = match start {
            Some(id) => {
                if !self.contains(id) {
                    return found;
                }
                assert(o.contains(id));
                start
            },
            None => self.start,
        };
        let ghost mut j = from;
        loop
            invariant
                self.wf(),
                o == self.order@,
                from == self@.position(start),
                0 <= from <= j <= o.len(),
                current == self@.at(j),
                found.len() == j - from,
                forall|i: int|
                    0 <= i < found.len() ==> {
                        &&& (#[trigger] found[i]).block_id == o[from + i]
                        &&& *found[i].block == self.block(found[i].block_id)
                    },
            decreases o.len() - j,
        {
            let block_id = match current {
                Some(block_id) => block_id,
                None => {
                    return found;
                },
            };
            assert(o.contains(o[j]));
            let block = self.block_ref(block_id);
            found.push(BlockWithClientId { block, block_id });
            current = block.right;
            proof {
                j = j + 1;
            }
        }
    }

    /// The blocks of the list, head first.
    pub fn iter_blocks(&self) -> (found: Vec<BlockWithClientId<'_, T>>)
        requires
            self.wf(),
        ensures
            found.len() == self@.order.len(),
            forall|i: int|
                0 <= i < found.len() ==> {
                    &&& (#[trigger] found[i]).block_id == self@.order[i]
                    &&& *found[i].block == self.block(found[i].block_id)
                },
    {
        self.iter_blocks_with_offset(None)
    }

    /// The blocks of the list that are not deleted, in list order.
    pub fn iter_live_blocks(&self) -> (found: Vec<BlockWithClientId<'_, T>>)
        requires
            self.wf(),
        ensures
            found.len() == self@.live().len(),
            forall|i: int|
                0 <= i < found.len() ==> {
                    &&& (#[trigger] found[i]).block_id == self@.live()[i]
                    &&& *found[i].block == self.block(found[i].block_id)
                },
    {
        let all = self.iter_blocks();
        let mut found: Vec<BlockWithClientId<'_, T>> = Vec::new();
        let mut j: usize = 0;
        while j < all.len()
            invariant
                self.wf(),
                j <= all.len() == self@.order.len(),
                forall|i: int|
                    0 <= i < all.len() ==> {
                        &&& (#[trigger] all[i]).block_id == self@.order[i]
                        &&& *all[i].block == self.block(all[i].block_id)
                    },
                found.len() == self@.live_upto(j as int).len(),
                forall|i: int|
                    0 <= i < found.len() ==> {
                        &&& (#[trigger] found[i]).block_id == self@.live_upto(j as int)[i]
                        &&& *found[i].block == self.block(found[i].block_id)
                    },
            decreases all.len() - j,
        {
            let block = all[j].block;
            let block_id = all[j].block_id;
            proof {
                assert(self.order@.contains(self.order@[j as int]));
                assert(self@.get(block_id) == block@);
            }
            if !block.deleted {
                found.push(BlockWithClientId { block, block_id });
            }
            j = j + 1;
        }
        found
    }

    /// The items of the list in list order; tombstones hold none.
    pub fn iter_values(&self) -> (items: Vec<&T>)
        requires
            self.wf(),
        ensures
            items.deep_view() == self@.values(),
    {
        let all = self.iter_blocks();
        let mut items: Vec<&T> = Vec::new();
        let mut j: usize = 0;
        assert(items.deep_view() =~= self@.values_upto(0));
        while j < all.len()
            invariant
                self.wf(),
                j <= all.len() == self@.order.len(),
                forall|i: int|
                    0 <= i < all.len() ==> {
                        &&& (#[trigger] all[i]).block_id == self@.order[i]
                        &&& *all[i].block == self.block(all[i].block_id)
                    },
                items.deep_view() == self@.values_upto(j as int),
            decreases all.len() - j,
        {
            let block = all[j].block;
            let ghost done = items.deep_view();
            proof {
                assert(self.order@.contains(self.order@[j as int]));
                assert(self@.get(all[j as int].block_id) == block@);
                assert(done + block@.value.take(0) =~= done);
            }
            let mut k: usize = 0;
            while k < block.value.len()
                invariant
                    k <= block.value.len(),
                    items.deep_view() == done + block@.value.take(k as int),
                decreases block.value.len() - k,
            {
                let ghost seen = items.deep_view();
                items.push(&block.value[k]);
                proof {
                    assert(items.deep_view() =~= seen.push(block.value[k as int].deep_view()));
                    assert(block@.value.take(k + 1) =~= block@.value.take(k as int).push(
                        block@.value[k as int],
                    ));
                    assert(items.deep_view() =~= done + block@.value.take(k + 1));
                }
                k = k + 1;
            }
            proof {
                assert(block@.value.take(block.value.len() as int) =~= block@.value);
            }
            j = j + 1;
        }
        items
    }

    /// Adds a block for `value` that the local replica produced between
    /// `previous` and `next`.
    fn add_block(&mut self, previous: Option<BlockId>, next: Option<BlockId>, value: T)
        requires
            old(self).wf(),
            next == old(self)@.at(old(self)@.scan_start(previous)),
        ensures
            final(self).wf(),
            final(self)@ == old(self)@.integrate_one(
                old(self)@.client_id,
                BlockData::single(previous, next, value.deep_view()),
            ),
            old(self)@.evolves_to(final(self)@),
    {
        let ghost p = self@.scan_start(previous);
        let block = Block::with_value_and_right(0, previous, next, value);
        proof {
            self@.lemma_slot_index(self.client_id, previous);
            self@.lemma_placed_evolves(self.client_id, block@, p);
        }
        self.link(self.client_id, block, next, Ghost(p));
    }

    /// Inserts `value` at the tail of the list.
    pub fn append(&mut self, value: T)
        requires
            old(self).wf(),
        ensures
            final(self).wf(),
            final(self)@ == old(self)@.appended(value.deep_view()),
            final(self)@.values() == old(self)@.values().push(value.deep_view()),
            old(self)@.evolves_to(final(self)@),
    {
        proof {
            if self.order@.len() > 0 {
                self@.lemma_index_of(self.order@.len() - 1);
            }
            self@.lemma_appended(value.deep_view());
        }
        self.add_block(self.end, None, value);
    }

    /// Inserts `value` before the `index`-th live block; at the head if
    /// `index` is 0 or lies past the live blocks.
    pub fn insert(&mut self, index: usize, value: T)
        requires
            old(self).wf(),
        ensures
            final(self).wf(),
            final(self)@ == old(self)@.inserted(index as int, value.deep_view()),
            final(self)@.values() == ({
                let at = old(self)@.scan_start(old(self)@.slot(index as int).0);
                old(self)@.values_upto(at) + seq![value.deep_view()] + old(self)@.values_from(at)
            }),
            old(self)@.evolves_to(final(self)@),
    {
        proof {
            self.lemma_list_integrity();
            self@.lemma_inserted(index as int, value.deep_view());
        }
        let live = self.iter_live_blocks();
        let (previous, next) = if 0 < index && index <= live.len() {
            let before = &live[index - 1];
            proof {
                self@.lemma_live_members(self.order@.len() as int);
                let l = self@.live()[index - 1];
                assert(self.order@.contains(l));
                assert(self.order@[self.order@.index_of(l)] == l);
            }
            (Some(before.block_id), before.block.right)
        } else {
            (None, self.start)
        };
        self.add_block(previous, next, value);
    }

    /// Turns the block under `id` into a tombstone; nothing happens if the
    /// store holds no such block.
    pub fn delete_block(&mut self, id: BlockId)
        requires
            old(self).wf(),
        ensures
            final(self).wf(),
            final(self)@ == old(self)@.with_deleted(set![id]),
            old(self)@.evolves_to(final(self)@),
    {
        let ghost initial = self@;
        let ghost entered = *self;
        proof {
            initial.lemma_with_deleted(set![id]);
        }
        if !self.contains(id) {
            proof {
                let after = initial.with_deleted(set![id]);
                assert(after.blocks =~= initial.blocks) by {
                    assert forall|c: ClientId| after.blocks.contains_key(c) implies #[trigger] after.blocks[c]
                        =~= initial.blocks[c] by {
                        assert forall|i: int| 0 <= i < after.blocks[c].len() implies after.blocks[c][i]
                            == initial.blocks[c][i] by {
                            let x = BlockId { client_id: c, clock: i as u64 };
                            assert(initial.has(x));
                        }
                    }
                }
            }
            return ;
        }
        self.mark_deleted(id);
        proof {
            let after = initial.with_deleted(set![id]);
            assert(self@.blocks =~= after.blocks) by {
                assert forall|c: ClientId| self@.blocks.contains_key(c) implies #[trigger] self@.blocks[c]
                    =~= after.blocks[c] by {
                    assert(initial.blocks.contains_key(c));
                    assert forall|i: int| 0 <= i < self@.blocks[c].len() implies self@.blocks[c][i]
                        == after.blocks[c][i] by {
                        let x = BlockId { client_id: c, clock: i as u64 };
                        assert(entered.present(x));
                        if x != id {
                            assert(self.block(x) == entered.block(x));
                        }
                    }
                }
            }
            assert(self@ == after);
            assert forall|x: BlockId| self.present(x) implies (#[trigger] self.block(x)).id
                == x.clock by {
                assert(entered.present(x));
                if x != id {
                    assert(self.block(x) == entered.block(x));
                }
            }
            assert forall|j: int| 0 <= j < self.order@.len() implies {
                &&& (#[trigger] self.block(self.order@[j])).left == self@.at(j - 1)
                &&& self.block(self.order@[j]).right == self@.at(j + 1)
            } by {
                let x = self.order@[j];
                assert(self.order@.contains(x));
                assert(entered.present(x));
                assert(entered.block(entered.order@[j]).left == initial.at(j - 1));
                if x != id {
                    assert(self.block(x) == entered.block(x));
                }
            }
        }
    }

    /// Deletes `count` live blocks from the `index`-th live block on, fewer if
    /// the list ends before. The blocks keep their place and their length.
    pub fn delete_range(&mut self, index: usize, count: usize)
        requires
            old(self).wf(),
        ensures
            final(self).wf(),
            final(self)@ == old(self)@.deleted_range(index as int, count as int),
            old(self)@.evolves_to(final(self)@),
    {
        let ghost initial = self@;
        let live = self.iter_live_blocks();
        let mut block_ids: Vec<BlockId> = Vec::new();
        let stop = if index < live.len() && count < live.len() - index {
            index + count
        } else {
            live.len()
        };
        let mut k = index;
        while k < stop
            invariant
                self@ == initial,
                stop <= live.len() == initial.live().len(),
                stop == (if index < live.len() && count < live.len() - index {
                    index + count
                } else {
                    live.len() as int
                }),
                index <= k,
                k <= stop || block_ids.len() == 0,
                index <= stop ==> k <= stop,
                k <= stop ==> block_ids.len() == k - index,
                forall|i: int| 0 <= i < live.len() ==> (#[trigger] live[i]).block_id == initial.live()[i],
                forall|t: int|
                    0 <= t < block_ids.len() ==> #[trigger] block_ids[t] == initial.live()[index + t],
            decreases stop - k,
        {
            block_ids.push(live[k].block_id);
            k = k + 1;
        }
        let ghost live_len = initial.live().len() as int;
        let ghost taken = if index < live_len {
            if count < live_len - index {
                count as int
            } else {
                live_len - index
            }
        } else {
            0
        };
        proof {
            initial.lemma_with_deleted_none();
            initial.lemma_evolves_refl();
            assert(block_ids@.take(0).to_set() =~= Set::empty());
            assert(block_ids.len() == taken);
        }
        let mut done: usize = 0;
        while done < block_ids.len()
            invariant
                done <= block_ids.len() == taken,
                index + taken <= initial.live().len() || taken == 0,
                taken == count || index + taken >= initial.live().len(),
                forall|t: int|
                    0 <= t < block_ids.len() ==> #[trigger] block_ids[t] == initial.live()[index + t],
                self.wf(),
                initial.wf(),
                self@ == initial.with_deleted(block_ids@.take(done as int).to_set()),
                initial.evolves_to(self@),
            decreases block_ids.len() - done,
        {
            let ghost before = self@;
            let ghost deleted = block_ids@.take(done as int).to_set();
            self.delete_block(block_ids[done]);
            proof {
                let one = block_ids[done as int];
                let longer = block_ids@.take(done + 1);
                let shorter = block_ids@.take(done as int);
                initial.lemma_with_deleted_twice(deleted, set![one]);
                assert(longer.to_set() =~= deleted.union(set![one])) by {
                    assert forall|x: BlockId|
                        longer.to_set().contains(x) <==> deleted.union(set![one]).contains(x) by {
                        if longer.contains(x) {
                            let t = choose|t: int| 0 <= t < longer.len() && longer[t] == x;
                            if t < done {
                                assert(shorter[t] == x);
                            }
                        }
                        if shorter.contains(x) {
                            let t = choose|t: int| 0 <= t < shorter.len() && shorter[t] == x;
                            assert(longer[t] == x);
                        }
                        if x == one {
                            assert(longer[done as int] == x);
                        }
                    }
                }
                initial.lemma_evolves_trans(before, self@);
            }
            done = done + 1;
        }
        proof {
            assert(block_ids@.take(block_ids.len() as int) =~= block_ids@);
            assert(block_ids@.to_set() =~= initial.live_range(index as int, count as int)) by {
                assert forall|x: BlockId|
                    block_ids@.to_set().contains(x) <==> initial.live_range(
                        index as int,
                        count as int,
                    ).contains(x) by {
                    if block_ids@.contains(x) {
                        let t = choose|t: int| 0 <= t < block_ids.len() && block_ids[t] == x;
                        assert(initial.live()[index + t] == x);
                    }
                    if initial.live_range(index as int, count as int).contains(x) {
                        let l = choose|l: int|
                            index <= l < index + count && 0 <= l < initial.live().len() && initial.live()[l]
                                == x;
                        assert(block_ids[l - index] == x);
                    }
                }
            }
        }
    }

    /// Deletes the `index`-th live block, if there is one.
    pub fn delete(&mut self, index: usize)
        requires
            old(self).wf(),
        ensures
            final(self).wf(),
            final(self)@ == old(self)@.deleted_range(index as int, 1),
            old(self)@.evolves_to(final(self)@),
    {
        self.delete_range(index, 1);
    }

    /// The replicas of which the store holds blocks, in ascending order.
    pub fn replicas(&self) -> (found: Vec<ClientId>)
        ensures
            found@ == self@.replicas(),
            self@.listed_by(found@),
    {
        let mut found: Vec<ClientId> = Vec::new();
        let keys = self.data.keys();
        let ghost all = keys.remaining();
        proof {
            vstd::std_specs::hash::axiom_spec_keys_iter(&self.data);
            assert(all.unref().take(0).to_set() =~= Set::empty());
        }
        for key in it: keys
            invariant
                it.seq() == all,
                all.no_duplicates(),
                all.unref().to_set() == self.data@.dom(),
                ascending(found@),
                found@.to_set() == all.unref().take(it.index() as int).to_set(),
        {
            let ghost seen = all.unref().take(it.index() as int);
            let ghost sorted = found@;
            proof {
                assert(!seen.contains(*key)) by {
                    if seen.contains(*key) {
                        let t = choose|t: int| 0 <= t < seen.len() && seen[t] == *key;
                        assert(*all[t] == *all[it.index() as int]);
                        assert(all[t] == all[it.index() as int]);
                    }
                }
                assert(!sorted.to_set().contains(*key));
                assert(!sorted.contains(*key));
            }
            let mut at: usize = 0;
            while at < found.len() && found[at] < *key
                invariant
                    at <= found.len(),
                    found@ == sorted,
                    forall|t: int| 0 <= t < at ==> sorted[t] < *key,
                decreases found.len() - at,
            {
                at = at + 1;
            }
            found.insert(at, *key);
            proof {
                let longer = all.unref().take(it.index() + 1);
                assert(longer =~= seen.push(*key));
                assert forall|i: int, j: int| 0 <= i < j < found@.len() implies found@[i]
                    < found@[j] by {
                    if j == at {
                    } else if i == at {
                        assert(sorted.contains(sorted[j - 1]));
                        assert(sorted[at as int] != *key);
                    }
                }
                assert(found@.to_set() =~= longer.to_set()) by {
                    assert forall|x: ClientId|
                        found@.to_set().contains(x) <==> longer.to_set().contains(x) by {
                        if found@.contains(x) {
                            let t = choose|t: int| 0 <= t < found@.len() && found@[t] == x;
                            if t < at {
                                assert(sorted[t] == x);
                                assert(sorted.to_set().contains(x));
                                assert(seen.contains(x));
                            } else if t > at {
                                assert(sorted[t - 1] == x);
                                assert(sorted.to_set().contains(x));
                                assert(seen.contains(x));
                            }
                            if seen.contains(x) {
                                let u = choose|u: int| 0 <= u < seen.len() && seen[u] == x;
                                assert(longer[u] == x);
                            } else {
                                assert(longer[seen.len() as int] == x);
                            }
                        }
                        if longer.contains(x) {
                            let t = choose|t: int| 0 <= t < longer.len() && longer[t] == x;
                            if t < seen.len() {
                                assert(seen[t] == x);
                                assert(seen.to_set().contains(x));
                                assert(sorted.contains(x));
                                let u = choose|u: int| 0 <= u < sorted.len() && sorted[u] == x;
                                if u < at {
                                    assert(found@[u] == x);
                                } else {
                                    assert(found@[u + 1] == x);
                                }
                            } else {
                                assert(found@[at as int] == x);
                            }
                        }
                    }
                }
            }
        }
        proof {
            assert(all.unref().take(all.len() as int) =~= all.unref());
            assert(self@.blocks.dom() =~= self.data@.dom());
            self@.lemma_replicas(found@);
        }
        found
    }

    /// The blocks held for `client`, in clock order.
    pub fn blocks_of(&self, client: ClientId) -> (found: Option<&Vec<Block<T>>>)
        ensures
            found is Some == self@.blocks.contains_key(client),
            found matches Some(blocks) ==> payloads(blocks@) == self@.blocks[client] && forall|
                i: int,
            |
                0 <= i < blocks.len() ==> #[trigger] blocks[i] == self.block(
                    BlockId { client_id: client, clock: i as u64 },
                ),
    {
        let found = self.data.get(&client);
        proof {
            if let Some(blocks) = found {
                assert(payloads(blocks@) =~= self@.blocks[client]);
            }
        }
        found
    }
}

/// The payloads of a run of blocks.
pub open spec fn payloads<T: Item>(blocks: Seq<Block<T>>) -> Seq<BlockData<T::V>> {
    Seq::new(blocks.len(), |i: int| blocks[i]@)
}

} // verus!
