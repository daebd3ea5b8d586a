//! The mathematical model of the block list. A replica's state is the blocks it
//! holds, per replica in clock order, together with the order in which they stand
//! in the list. Every operation of the store is a function on this state.

use vstd::prelude::*;
use crate::document::{BlockId, ClientId};

verus! {

/// What a block carries besides its place in the list.
pub struct BlockData<V> {
    /// Left neighbour when the block was produced.
    pub origin_left: Option<BlockId>,
    /// Right neighbour when the block was produced.
    pub origin_right: Option<BlockId>,
    /// The items of the block; empty once it is deleted.
    pub value: Seq<V>,
    /// Number of positions the block occupies, kept when it is deleted.
    pub length: nat,
    /// Tombstone bit.
    pub deleted: bool,
}

impl<V> BlockData<V> {
    /// A live block holds as many items as its length says; a deleted one holds none.
    pub open spec fn wf(self) -> bool {
        if self.deleted {
            self.value.len() == 0
        } else {
            self.length == self.value.len()
        }
    }

    /// The block after a delete: marked, payload dropped, length kept.
    pub open spec fn tombstone(self) -> Self {
        if self.deleted {
            self
        } else {
            BlockData { value: Seq::empty(), deleted: true, ..self }
        }
    }

    /// A block produced locally for one item.
    pub open spec fn single(left: Option<BlockId>, right: Option<BlockId>, item: V) -> Self {
        BlockData {
            origin_left: left,
            origin_right: right,
            value: seq![item],
            length: 1,
            deleted: false,
        }
    }
}

/// Whether each element of `s` is smaller than the next.
pub open spec fn ascending(s: Seq<ClientId>) -> bool {
    forall|i: int, j: int| 0 <= i < j < s.len() ==> s[i] < s[j]
}

/// The state of one replica's list.
pub struct ListState<V> {
    /// The replica that owns this state and mints the clocks of local edits.
    pub client_id: ClientId,
    /// The blocks of each replica; a block's position is its clock.
    pub blocks: Map<ClientId, Seq<BlockData<V>>>,
    /// The list, head first.
    pub order: Seq<BlockId>,
}

impl<V> ListState<V> {
    pub open spec fn empty(client_id: ClientId) -> Self {
        ListState { client_id, blocks: Map::empty(), order: Seq::empty() }
    }

    /// The blocks held for replica `c`, none if it is unknown.
    pub open spec fn blocks_of(self, c: ClientId) -> Seq<BlockData<V>> {
        if self.blocks.contains_key(c) {
            self.blocks[c]
        } else {
            Seq::empty()
        }
    }

    /// The smallest clock of replica `c` that is not held yet.
    pub open spec fn clock_of(self, c: ClientId) -> nat {
        self.blocks_of(c).len()
    }

    pub open spec fn has(self, id: BlockId) -> bool {
        id.clock < self.clock_of(id.client_id)
    }

    pub open spec fn get(self, id: BlockId) -> BlockData<V> {
        self.blocks_of(id.client_id)[id.clock as int]
    }

    /// The id that the next block of replica `c` gets.
    pub open spec fn next_id(self, c: ClientId) -> BlockId {
        BlockId { client_id: c, clock: self.clock_of(c) as u64 }
    }

    /// The list holds every block exactly once, every replica present holds at
    /// least one block, and every block is well formed.
    pub open spec fn wf(self) -> bool {
        &&& self.order.no_duplicates()
        &&& forall|id: BlockId| #[trigger] self.order.contains(id) <==> self.has(id)
        &&& forall|id: BlockId| self.has(id) ==> (#[trigger] self.get(id)).wf()
        &&& forall|c: ClientId| #[trigger]
            self.blocks.contains_key(c) ==> 0 < self.blocks[c].len() <= u64::MAX
    }

    /// The block at position `j` of the list, if there is one.
    pub open spec fn at(self, j: int) -> Option<BlockId> {
        if 0 <= j < self.order.len() {
            Some(self.order[j])
        } else {
            None
        }
    }

    pub open spec fn head(self) -> Option<BlockId> {
        self.at(0)
    }

    pub open spec fn tail(self) -> Option<BlockId> {
        self.at(self.order.len() - 1)
    }

    /// The position of `from` in the list: 0 for none, the length of the list
    /// for a block that is not in it.
    pub open spec fn position(self, from: Option<BlockId>) -> int {
        match from {
            None => 0,
            Some(id) => if self.order.contains(id) {
                self.order.index_of(id)
            } else {
                self.order.len() as int
            },
        }
    }

    /// Where the scan for an insertion point begins: just after `left`, at the
    /// head if there is no `left`, and past the tail if `left` is not in the list.
    pub open spec fn scan_start(self, left: Option<BlockId>) -> int {
        match left {
            None => 0,
            Some(l) => if self.order.contains(l) {
                self.order.index_of(l) + 1
            } else {
                self.order.len() as int
            },
        }
    }

    /// Whether a block of replica `client` with the given origins goes right
    /// before position `j`: the candidate there is the right origin, or it stands
    /// directly after the left origin and belongs to a larger replica.
    pub open spec fn stops(
        self,
        j: int,
        client: ClientId,
        left: Option<BlockId>,
        right: Option<BlockId>,
    ) -> bool {
        &&& 0 <= j < self.order.len()
        &&& (Some(self.order[j]) == right || (self.at(j - 1) == left && self.order[j].client_id
            > client))
    }

    /// The first position from `j` on at which the scan stops, or the length of
    /// the list if it runs off the tail.
    pub open spec fn first_stop(
        self,
        j: int,
        client: ClientId,
        left: Option<BlockId>,
        right: Option<BlockId>,
    ) -> int
        decreases self.order.len() - j,
    {
        if j < 0 || j >= self.order.len() {
            self.order.len() as int
        } else if self.stops(j, client, left, right) {
            j
        } else {
            self.first_stop(j + 1, client, left, right)
        }
    }

    /// The position in the list at which a block of replica `client` with the
    /// given origins is inserted.
    pub open spec fn insertion_index(
        self,
        client: ClientId,
        left: Option<BlockId>,
        right: Option<BlockId>,
    ) -> int {
        self.first_stop(self.scan_start(left), client, left, right)
    }

    /// The state with `b` stored as the next block of `client` and standing at
    /// position `p` of the list.
    pub open spec fn placed(self, client: ClientId, b: BlockData<V>, p: int) -> Self {
        ListState {
            client_id: self.client_id,
            blocks: self.blocks.insert(client, self.blocks_of(client).push(b)),
            order: self.order.insert(p, self.next_id(client)),
        }
    }

    /// Integration of one block of replica `client`.
    pub open spec fn integrate_one(self, client: ClientId, b: BlockData<V>) -> Self {
        self.placed(client, b, self.insertion_index(client, b.origin_left, b.origin_right))
    }

    /// Integration of a run of blocks of replica `client`, first to last.
    pub open spec fn integrate_all(self, client: ClientId, bs: Seq<BlockData<V>>) -> Self
        decreases bs.len(),
    {
        if bs.len() == 0 {
            self
        } else {
            self.integrate_all(client, bs.drop_last()).integrate_one(client, bs.last())
        }
    }

    /// The live blocks among the first `n` of the list, in list order.
    pub open spec fn live_upto(self, n: int) -> Seq<BlockId>
        decreases n,
    {
        if n <= 0 || n > self.order.len() {
            Seq::empty()
        } else if self.get(self.order[n - 1]).deleted {
            self.live_upto(n - 1)
        } else {
            self.live_upto(n - 1).push(self.order[n - 1])
        }
    }

    /// The live blocks in list order.
    pub open spec fn live(self) -> Seq<BlockId> {
        self.live_upto(self.order.len() as int)
    }

    /// The origins of a local insert before the `index`-th live block: the live
    /// block before that position, or none at position 0 or past the live
    /// blocks, and the block that stands right of it in the list.
    pub open spec fn slot(self, index: int) -> (Option<BlockId>, Option<BlockId>) {
        let left = if 0 < index <= self.live().len() {
            Some(self.live()[index - 1])
        } else {
            None
        };
        (left, self.at(self.scan_start(left)))
    }

    /// The state after a local append of `item`.
    pub open spec fn appended(self, item: V) -> Self {
        self.integrate_one(self.client_id, BlockData::single(self.tail(), None, item))
    }

    /// The state after a local insert of `item` before the `index`-th live block.
    pub open spec fn inserted(self, index: int, item: V) -> Self {
        let (left, right) = self.slot(index);
        self.integrate_one(self.client_id, BlockData::single(left, right, item))
    }

    /// The state in which the blocks named by `ids` are tombstones.
    pub open spec fn with_deleted(self, ids: Set<BlockId>) -> Self {
        ListState {
            client_id: self.client_id,
            blocks: Map::new(
                |c: ClientId| self.blocks.contains_key(c),
                |c: ClientId|
                    Seq::new(
                        self.blocks[c].len(),
                        |i: int|
                            if ids.contains(BlockId { client_id: c, clock: i as u64 }) {
                                self.blocks[c][i].tombstone()
                            } else {
                                self.blocks[c][i]
                            },
                    ),
            ),
            order: self.order,
        }
    }

    /// The live blocks at positions `index .. index + count` among the live blocks.
    pub open spec fn live_range(self, index: int, count: int) -> Set<BlockId> {
        Set::new(
            |id: BlockId|
                exists|k: int|
                    index <= k < index + count && 0 <= k < self.live().len() && self.live()[k]
                        == id,
        )
    }

    /// The state after deleting `count` live blocks from the `index`-th on.
    pub open spec fn deleted_range(self, index: int, count: int) -> Self {
        self.with_deleted(self.live_range(index, count))
    }

    /// The items of the first `n` blocks of the list, in list order.
    pub open spec fn values_upto(self, n: int) -> Seq<V>
        decreases n,
    {
        if n <= 0 || n > self.order.len() {
            Seq::empty()
        } else {
            self.values_upto(n - 1) + self.get(self.order[n - 1]).value
        }
    }

    /// The items of the blocks from position `n` of the list on, in list order.
    pub open spec fn values_from(self, n: int) -> Seq<V>
        decreases self.order.len() - n,
    {
        if n < 0 || n >= self.order.len() {
            Seq::empty()
        } else {
            self.get(self.order[n]).value + self.values_from(n + 1)
        }
    }

    /// The items of the list in list order; deleted blocks hold none.
    pub open spec fn values(self) -> Seq<V> {
        self.values_upto(self.order.len() as int)
    }

    /// The runs that name the tombstones among the first `n` of `blocks`, one
    /// run of length 1 for each, in clock order.
    pub open spec fn tombstone_runs(blocks: Seq<BlockData<V>>, n: int) -> Seq<(u64, usize)>
        decreases n,
    {
        if n <= 0 || n > blocks.len() {
            Seq::empty()
        } else if blocks[n - 1].deleted {
            Self::tombstone_runs(blocks, n - 1).push(((n - 1) as u64, 1usize))
        } else {
            Self::tombstone_runs(blocks, n - 1)
        }
    }

    /// The tombstones of the state, replica by replica in the order of `replicas`.
    pub open spec fn tombstones(self, replicas: Seq<ClientId>) -> Seq<(ClientId, Seq<(u64, usize)>)> {
        Seq::new(
            replicas.len(),
            |i: int|
                (
                    replicas[i],
                    Self::tombstone_runs(
                        self.blocks_of(replicas[i]),
                        self.blocks_of(replicas[i]).len() as int,
                    ),
                ),
        )
    }

    /// `replicas` names each replica of which the state holds blocks, in
    /// ascending order.
    pub open spec fn listed_by(self, replicas: Seq<ClientId>) -> bool {
        ascending(replicas) && replicas.to_set() == self.blocks.dom()
    }

    /// The replicas of which the state holds blocks, in ascending order.
    pub open spec fn replicas(self) -> Seq<ClientId> {
        choose|replicas: Seq<ClientId>| self.listed_by(replicas)
    }

    /// What may happen to a state over time: blocks are only added, each block
    /// keeps its clock, its origins and its length, and a tombstone stays one.
    pub open spec fn evolves_to(self, next: Self) -> bool {
        &&& self.client_id == next.client_id
        &&& forall|id: BlockId| #[trigger]
            self.has(id) ==> {
                &&& next.has(id)
                &&& next.get(id).origin_left == self.get(id).origin_left
                &&& next.get(id).origin_right == self.get(id).origin_right
                &&& next.get(id).length == self.get(id).length
                &&& self.get(id).deleted ==> next.get(id).deleted
            }
    }
}

impl<V> ListState<V> {
    /// What placing a block does to the list and to the blocks held.
    pub proof fn lemma_placed(self, client: ClientId, b: BlockData<V>, p: int)
        requires
            self.wf(),
            0 <= p <= self.order.len(),
        ensures
            !self.has(self.next_id(client)),
            self.placed(client, b, p).order.len() == self.order.len() + 1,
            forall|j: int| 0 <= j < p ==> self.placed(client, b, p).order[j] == self.order[j],
            self.placed(client, b, p).order[p] == self.next_id(client),
            forall|j: int|
                p < j <= self.order.len() ==> self.placed(client, b, p).order[j] == self.order[j
                    - 1],
            forall|id: BlockId|
                self.placed(client, b, p).has(id) <==> self.has(id) || id == self.next_id(client),
            forall|id: BlockId|
                self.has(id) ==> #[trigger] self.placed(client, b, p).get(id) == self.get(id),
            self.placed(client, b, p).get(self.next_id(client)) == b,
            forall|c: ClientId|
                self.placed(client, b, p).clock_of(c) == self.clock_of(c) + (if c == client {
                    1int
                } else {
                    0int
                }),
            !self.order.contains(self.next_id(client)),
            self.placed(client, b, p).order.no_duplicates(),
    {
        let next = self.placed(client, b, p);
        let nid = self.next_id(client);
        assert(self.clock_of(client) <= u64::MAX);
        assert(!self.has(nid));
        assert(!self.order.contains(nid));
        assert forall|i: int, j: int|
            0 <= i < next.order.len() && 0 <= j < next.order.len() && i != j implies next.order[i]
            != next.order[j] by {
            let a = if i < p {
                i
            } else {
                i - 1
            };
            let c = if j < p {
                j
            } else {
                j - 1
            };
            if i != p && j != p {
                assert(next.order[i] == self.order[a]);
                assert(next.order[j] == self.order[c]);
                assert(a != c);
            } else if i == p {
                assert(next.order[j] == self.order[c]);
                assert(self.order.contains(self.order[c]));
            } else {
                assert(next.order[i] == self.order[a]);
                assert(self.order.contains(self.order[a]));
            }
        }
        assert forall|c: ClientId|
            next.clock_of(c) == self.clock_of(c) + (if c == client {
                1int
            } else {
                0int
            }) by {
            if c == client {
                assert(next.blocks.contains_key(c));
            } else {
                assert(next.blocks.contains_key(c) == self.blocks.contains_key(c));
            }
        }
        assert forall|id: BlockId| next.has(id) <==> self.has(id) || id == nid by {
            assert(next.clock_of(id.client_id) == self.clock_of(id.client_id) + (if id.client_id
                == client {
                1int
            } else {
                0int
            }));
        }
        assert forall|id: BlockId| self.has(id) implies #[trigger] next.get(id) == self.get(
            id,
        ) by {
            if id.client_id == client {
                assert(next.blocks.contains_key(client));
            } else {
                assert(self.blocks.contains_key(id.client_id));
            }
        }
        assert(next.blocks.contains_key(client));
    }

    /// Placing a block leaves every block that was there as it was.
    pub proof fn lemma_placed_evolves(self, client: ClientId, b: BlockData<V>, p: int)
        requires
            self.wf(),
            0 <= p <= self.order.len(),
        ensures
            self.evolves_to(self.placed(client, b, p)),
    {
        self.lemma_placed(client, b, p);
    }

    /// Placing a well-formed block anywhere in a well-formed list gives a
    /// well-formed list.
    pub proof fn lemma_placed_wf(self, client: ClientId, b: BlockData<V>, p: int)
        requires
            self.wf(),
            0 <= p <= self.order.len(),
            b.wf(),
            self.clock_of(client) < u64::MAX,
        ensures
            self.placed(client, b, p).wf(),
    {
        self.lemma_placed(client, b, p);
        let next = self.placed(client, b, p);
        let nid = self.next_id(client);
        assert(!self.order.contains(nid));
        assert forall|i: int, j: int|
            0 <= i < next.order.len() && 0 <= j < next.order.len() && i != j implies next.order[i]
            != next.order[j] by {
            let a = if i < p {
                i
            } else {
                i - 1
            };
            let c = if j < p {
                j
            } else {
                j - 1
            };
            if i != p && j != p {
                assert(next.order[i] == self.order[a]);
                assert(next.order[j] == self.order[c]);
                assert(a != c);
            } else if i == p {
                assert(next.order[j] == self.order[c]);
                assert(self.order.contains(self.order[c]));
            } else {
                assert(next.order[i] == self.order[a]);
                assert(self.order.contains(self.order[a]));
            }
        }
        assert forall|id: BlockId| #[trigger] next.order.contains(id) <==> next.has(id) by {
            if next.order.contains(id) {
                let j = choose|j: int| 0 <= j < next.order.len() && next.order[j] == id;
                if j < p {
                    assert(self.order.contains(self.order[j]));
                } else if j > p {
                    assert(self.order.contains(self.order[j - 1]));
                }
            }
            if next.has(id) {
                if id == nid {
                    assert(next.order[p] == id);
                } else {
                    assert(self.order.contains(id));
                    let j = choose|j: int| 0 <= j < self.order.len() && self.order[j] == id;
                    if j < p {
                        assert(next.order[j] == id);
                    } else {
                        assert(next.order[j + 1] == id);
                    }
                }
            }
        }
        assert forall|id: BlockId| next.has(id) implies (#[trigger] next.get(id)).wf() by {
            if id != nid {
                assert(self.get(id).wf());
            }
        }
        assert forall|c: ClientId| #[trigger] next.blocks.contains_key(c) implies 0
            < next.blocks[c].len() <= u64::MAX by {
            assert(next.clock_of(c) == next.blocks[c].len());
            if c != client {
                assert(self.blocks.contains_key(c));
            }
        }
    }

    /// The scan stops inside the list or at its length.
    pub proof fn lemma_first_stop_bounds(
        self,
        j: int,
        client: ClientId,
        left: Option<BlockId>,
        right: Option<BlockId>,
    )
        requires
            0 <= j <= self.order.len(),
        ensures
            j <= self.first_stop(j, client, left, right) <= self.order.len(),
        decreases self.order.len() - j,
    {
        if j < self.order.len() && !self.stops(j, client, left, right) {
            self.lemma_first_stop_bounds(j + 1, client, left, right);
        }
    }

    pub proof fn lemma_evolves_refl(self)
        ensures
            self.evolves_to(self),
    {
    }

    pub proof fn lemma_evolves_trans(self, mid: Self, next: Self)
        requires
            self.evolves_to(mid),
            mid.evolves_to(next),
        ensures
            self.evolves_to(next),
    {
        assert forall|id: BlockId| #[trigger] self.has(id) implies {
            &&& next.has(id)
            &&& next.get(id).origin_left == self.get(id).origin_left
            &&& next.get(id).origin_right == self.get(id).origin_right
            &&& next.get(id).length == self.get(id).length
            &&& self.get(id).deleted ==> next.get(id).deleted
        } by {
            assert(mid.has(id));
        }
    }

    /// In a list without duplicates a block stands at one position only.
    pub proof fn lemma_index_of(self, j: int)
        requires
            self.order.no_duplicates(),
            0 <= j < self.order.len(),
        ensures
            self.order.contains(self.order[j]),
            self.order.index_of(self.order[j]) == j,
    {
    }

    /// A block whose right origin is the block that stands right of its left
    /// origin goes between the two.
    pub proof fn lemma_slot_index(self, client: ClientId, left: Option<BlockId>)
        requires
            self.wf(),
        ensures
            self.insertion_index(client, left, self.at(self.scan_start(left))) == self.scan_start(
                left,
            ),
    {
    }

    /// Every live block among the first `n` stands in the list before position
    /// `n` and is not deleted, and they come in list order.
    pub proof fn lemma_live_members(self, n: int)
        requires
            0 <= n <= self.order.len(),
            self.order.no_duplicates(),
        ensures
            self.live_upto(n).len() <= n,
            forall|k: int|
                0 <= k < self.live_upto(n).len() ==> {
                    &&& self.order.contains(#[trigger] self.live_upto(n)[k])
                    &&& self.order.index_of(self.live_upto(n)[k]) < n
                    &&& !self.get(self.live_upto(n)[k]).deleted
                },
            forall|k: int, l: int|
                0 <= k < l < self.live_upto(n).len() ==> self.order.index_of(
                    #[trigger] self.live_upto(n)[k],
                ) < self.order.index_of(#[trigger] self.live_upto(n)[l]),
            forall|j: int|
                0 <= j < n && !self.get(self.order[j]).deleted ==> self.live_upto(n).contains(
                    #[trigger] self.order[j],
                ),
        decreases n,
    {
        if n > 0 {
            self.lemma_live_members(n - 1);
            self.lemma_index_of(n - 1);
            let prev = self.live_upto(n - 1);
            let cur = self.live_upto(n);
            assert forall|j: int|
                0 <= j < n && !self.get(self.order[j]).deleted implies cur.contains(
                #[trigger] self.order[j],
            ) by {
                if j < n - 1 {
                    assert(prev.contains(self.order[j]));
                    let k = choose|k: int| 0 <= k < prev.len() && prev[k] == self.order[j];
                    assert(cur[k] == self.order[j]);
                } else {
                    assert(cur[cur.len() - 1] == self.order[j]);
                }
            }
        }
    }

    /// What deleting a set of blocks does: the list and the clocks stay, the
    /// named blocks become tombstones, the others stay as they are.
    pub proof fn lemma_with_deleted(self, ids: Set<BlockId>)
        requires
            self.wf(),
        ensures
            self.with_deleted(ids).wf(),
            self.evolves_to(self.with_deleted(ids)),
            self.with_deleted(ids).order == self.order,
            forall|c: ClientId| self.with_deleted(ids).clock_of(c) == self.clock_of(c),
            forall|id: BlockId| self.with_deleted(ids).has(id) == self.has(id),
            forall|id: BlockId|
                self.has(id) ==> #[trigger] self.with_deleted(ids).get(id) == (if ids.contains(id) {
                    self.get(id).tombstone()
                } else {
                    self.get(id)
                }),
    {
        let next = self.with_deleted(ids);
        assert forall|c: ClientId| next.clock_of(c) == self.clock_of(c) by {
            assert(next.blocks.contains_key(c) == self.blocks.contains_key(c));
        }
        assert forall|id: BlockId| next.has(id) == self.has(id) by {
            assert(next.clock_of(id.client_id) == self.clock_of(id.client_id));
        }
        assert forall|id: BlockId| self.has(id) implies #[trigger] next.get(id) == (if ids.contains(
            id,
        ) {
            self.get(id).tombstone()
        } else {
            self.get(id)
        }) by {
            assert(self.blocks.contains_key(id.client_id));
            assert(BlockId { client_id: id.client_id, clock: id.clock as int as u64 } == id);
        }
        assert forall|id: BlockId| next.has(id) implies (#[trigger] next.get(id)).wf() by {
            assert(self.get(id).wf());
        }
        assert forall|c: ClientId| #[trigger] next.blocks.contains_key(c) implies 0
            < next.blocks[c].len() <= u64::MAX by {
            assert(self.blocks.contains_key(c));
        }
    }

    /// Deleting nothing changes nothing.
    pub proof fn lemma_with_deleted_none(self)
        ensures
            self.with_deleted(Set::empty()) == self,
    {
        let next = self.with_deleted(Set::empty());
        assert(next.blocks =~= self.blocks) by {
            assert forall|c: ClientId| next.blocks.contains_key(c) implies #[trigger] next.blocks[c]
                =~= self.blocks[c] by {}
        }
    }

    /// Deleting one set of blocks and then another deletes their union.
    pub proof fn lemma_with_deleted_twice(self, a: Set<BlockId>, b: Set<BlockId>)
        ensures
            self.with_deleted(a).with_deleted(b) == self.with_deleted(a.union(b)),
    {
        let one = self.with_deleted(a).with_deleted(b);
        let two = self.with_deleted(a.union(b));
        assert(one.blocks =~= two.blocks) by {
            assert forall|c: ClientId| one.blocks.contains_key(c) implies #[trigger] one.blocks[c]
                =~= two.blocks[c] by {
                assert(self.with_deleted(a).blocks.contains_key(c));
            }
        }
    }

    /// Two sets that name the same blocks of the state delete the same.
    pub proof fn lemma_with_deleted_agree(self, a: Set<BlockId>, b: Set<BlockId>)
        requires
            self.wf(),
            forall|id: BlockId| self.has(id) ==> (a.contains(id) <==> b.contains(id)),
        ensures
            self.with_deleted(a) == self.with_deleted(b),
    {
        let one = self.with_deleted(a);
        let two = self.with_deleted(b);
        assert(one.blocks =~= two.blocks) by {
            assert forall|c: ClientId| one.blocks.contains_key(c) implies #[trigger] one.blocks[c]
                =~= two.blocks[c] by {
                assert forall|i: int| 0 <= i < one.blocks[c].len() implies one.blocks[c][i]
                    == two.blocks[c][i] by {
                    let id = BlockId { client_id: c, clock: i as u64 };
                    assert(self.has(id));
                }
            }
        }
    }

    /// A sequence that lists the replicas in ascending order is the one that does.
    pub proof fn lemma_replicas(self, replicas: Seq<ClientId>)
        requires
            self.listed_by(replicas),
        ensures
            self.replicas() == replicas,
    {
        lemma_ascending_unique(self.replicas(), replicas);
    }
    /// Placing a block adds one clock to its replica and none to the others.
    pub proof fn lemma_placed_clocks(self, client: ClientId, b: BlockData<V>, p: int, c: ClientId)
        ensures
            self.placed(client, b, p).client_id == self.client_id,
            self.placed(client, b, p).clock_of(c) == self.clock_of(c) + (if c == client {
                1int
            } else {
                0int
            }),
    {
        let next = self.placed(client, b, p);
        if c == client {
            assert(next.blocks.contains_key(c));
        } else {
            assert(next.blocks.contains_key(c) == self.blocks.contains_key(c));
        }
    }

    /// Integrating a run adds as many clocks to its replica as the run is long
    /// and none to the others.
    pub proof fn lemma_integrate_all_clocks(
        self,
        client: ClientId,
        bs: Seq<BlockData<V>>,
        c: ClientId,
    )
        ensures
            self.integrate_all(client, bs).client_id == self.client_id,
            self.integrate_all(client, bs).clock_of(c) == self.clock_of(c) + (if c == client {
                bs.len() as int
            } else {
                0int
            }),
        decreases bs.len(),
    {
        if bs.len() > 0 {
            let prev = self.integrate_all(client, bs.drop_last());
            self.lemma_integrate_all_clocks(client, bs.drop_last(), c);
            prev.lemma_placed_clocks(
                client,
                bs.last(),
                prev.insertion_index(client, bs.last().origin_left, bs.last().origin_right),
                c,
            );
        }
    }

    /// The items of the list are those before a position followed by those from it on.
    pub proof fn lemma_values_split(self, p: int)
        requires
            0 <= p <= self.order.len(),
        ensures
            self.values() == self.values_upto(p) + self.values_from(p),
        decreases self.order.len() - p,
    {
        if p < self.order.len() {
            self.lemma_values_split(p + 1);
            assert(self.values_upto(p + 1) + self.values_from(p + 1) =~= self.values_upto(p)
                + self.values_from(p));
        } else {
            assert(self.values_upto(p) + self.values_from(p) =~= self.values_upto(p));
        }
    }

    /// A block placed at position `p` brings its items in between the items
    /// of the blocks before `p` and the items of the blocks from `p` on.
    pub proof fn lemma_placed_values(self, client: ClientId, b: BlockData<V>, p: int)
        requires
            self.wf(),
            0 <= p <= self.order.len(),
        ensures
            self.placed(client, b, p).values() == self.values_upto(p) + b.value + self.values_from(
                p,
            ),
    {
        let next = self.placed(client, b, p);
        self.lemma_placed(client, b, p);
        self.lemma_placed_values_before(client, b, p, p);
        self.lemma_placed_values_after(client, b, p, p);
        next.lemma_values_split(p + 1);
        assert(next.values_upto(p + 1) =~= next.values_upto(p) + b.value);
    }

    proof fn lemma_placed_values_before(self, client: ClientId, b: BlockData<V>, p: int, n: int)
        requires
            self.wf(),
            0 <= n <= p <= self.order.len(),
        ensures
            self.placed(client, b, p).values_upto(n) == self.values_upto(n),
        decreases n,
    {
        if n > 0 {
            self.lemma_placed(client, b, p);
            self.lemma_placed_values_before(client, b, p, n - 1);
            assert(self.order.contains(self.order[n - 1]));
        }
    }

    proof fn lemma_placed_values_after(self, client: ClientId, b: BlockData<V>, p: int, n: int)
        requires
            self.wf(),
            0 <= p <= n <= self.order.len(),
        ensures
            self.placed(client, b, p).values_from(n + 1) == self.values_from(n),
        decreases self.order.len() - n,
    {
        self.lemma_placed(client, b, p);
        if n < self.order.len() {
            self.lemma_placed_values_after(client, b, p, n + 1);
            assert(self.order.contains(self.order[n]));
        }
    }

    /// A local append puts the new block at the tail of the list and its item
    /// at the end of the items.
    pub proof fn lemma_appended(self, item: V)
        requires
            self.wf(),
        ensures
            self.appended(item).order == self.order.push(self.next_id(self.client_id)),
            self.appended(item).values() == self.values().push(item),
            self.appended(item).get(self.next_id(self.client_id)) == BlockData::single(
                self.tail(),
                None,
                item,
            ),
    {
        let n = self.order.len() as int;
        let b = BlockData::single(self.tail(), None, item);
        if n > 0 {
            self.lemma_index_of(n - 1);
        }
        assert(self.scan_start(self.tail()) == n);
        assert(self.appended(item) == self.placed(self.client_id, b, n));
        self.lemma_placed(self.client_id, b, n);
        self.lemma_placed_values(self.client_id, b, n);
        assert(self.order.insert(n, self.next_id(self.client_id)) =~= self.order.push(
            self.next_id(self.client_id),
        ));
        assert(self.values_upto(n) + b.value + self.values_from(n) =~= self.values().push(item));
    }

    /// A local insert puts the new block right behind the live block before
    /// the position, or at the head, and its item in between the items of
    /// the blocks on either side.
    pub proof fn lemma_inserted(self, index: int, item: V)
        requires
            self.wf(),
        ensures
            ({
                let (left, right) = self.slot(index);
                let p = self.scan_start(left);
                &&& 0 <= p <= self.order.len()
                &&& self.inserted(index, item).order == self.order.insert(
                    p,
                    self.next_id(self.client_id),
                )
                &&& self.inserted(index, item).values() == self.values_upto(p) + seq![item]
                    + self.values_from(p)
                &&& self.inserted(index, item).get(self.next_id(self.client_id))
                    == BlockData::single(left, right, item)
            }),
    {
        let (left, right) = self.slot(index);
        let p = self.scan_start(left);
        let b = BlockData::single(left, right, item);
        self.lemma_slot_index(self.client_id, left);
        assert(self.inserted(index, item) == self.placed(self.client_id, b, p));
        self.lemma_placed(self.client_id, b, p);
        self.lemma_placed_values(self.client_id, b, p);
    }
}

/// Two ascending sequences with the same elements are the same sequence.
pub proof fn lemma_ascending_unique(a: Seq<ClientId>, b: Seq<ClientId>)
    requires
        ascending(a),
        ascending(b),
        a.to_set() == b.to_set(),
    ensures
        a == b,
    decreases a.len(),
{
    if a.len() == 0 {
        if b.len() > 0 {
            assert(b.to_set().contains(b[0]));
            assert(a.contains(b[0]));
        }
        assert(a =~= b);
    } else {
        assert(a.to_set().contains(a.last()));
        assert(b.contains(a.last()));
        let k = choose|k: int| 0 <= k < b.len() && b[k] == a.last();
        assert(b.to_set().contains(b.last()));
        assert(a.contains(b.last()));
        let l = choose|l: int| 0 <= l < a.len() && a[l] == b.last();
        assert(a.last() == b.last());
        let front_a = a.drop_last();
        let front_b = b.drop_last();
        assert(front_a.to_set() =~= front_b.to_set()) by {
            assert forall|x: ClientId| front_a.to_set().contains(x) <==> front_b.to_set().contains(
                x,
            ) by {
                if front_a.contains(x) {
                    let t = choose|t: int| 0 <= t < front_a.len() && front_a[t] == x;
                    assert(a[t] == x);
                    assert(a.to_set().contains(x));
                    assert(b.contains(x));
                    let u = choose|u: int| 0 <= u < b.len() && b[u] == x;
                    assert(u < b.len() - 1);
                    assert(front_b[u] == x);
                }
                if front_b.contains(x) {
                    let t = choose|t: int| 0 <= t < front_b.len() && front_b[t] == x;
                    assert(b[t] == x);
                    assert(b.to_set().contains(x));
                    assert(a.contains(x));
                    let u = choose|u: int| 0 <= u < a.len() && a[u] == x;
                    assert(u < a.len() - 1);
                    assert(front_a[u] == x);
                }
            }
        }
        lemma_ascending_unique(front_a, front_b);
        assert(a =~= front_a.push(a.last()));
        assert(b =~= front_b.push(b.last()));
    }
}

} // verus!
