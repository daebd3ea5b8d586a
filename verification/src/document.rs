use vstd::prelude::*;
use std::collections::HashMap;
use crate::block::Item;
use crate::model::ListState;
use crate::store::Store;

verus! {

broadcast use vstd::std_specs::hash::group_hash_axioms;

/// Identifier of a replica.
pub type ClientId = u64;

/// Per-replica logical clock: the position of a block among the blocks of its replica.
pub type Clock = u64;

/// For each replica the smallest clock that has not been seen.
pub type ClockVector = HashMap<ClientId, Clock>;

/// Address of a block: the replica that produced it and its clock there.
#[derive(Debug, Clone, Copy, PartialEq, Eq, Hash, Structural)]
pub struct BlockId {
    pub client_id: ClientId,
    pub clock: Clock,
}

impl BlockId {
    pub fn new(client_id: ClientId, clock: Clock) -> (id: BlockId)
        ensures
            id == (BlockId { client_id, clock }),
    {
        BlockId { client_id, clock }
    }
}

/// One replica's copy of the list: a store and the replica's own id.
pub struct Document<T: Item> {
    pub client_id: ClientId,
    pub store: Store<T>,
}

impl<T: Item> View for Document<T> {
    type V = ListState<T::V>;

    open spec fn view(&self) -> ListState<T::V> {
        self.store@
    }
}

/// A replica id drawn by `rand::random`. Any value may come back, and two
/// calls need not agree.
#[verifier::external_body]
fn random_client_id() -> u64 {
    rand::random()
}

impl<T: Item> Document<T> {
    /// The store is well formed and belongs to this document's replica.
    pub open spec fn wf(&self) -> bool {
        self.store.wf() && self.store@.client_id == self.client_id
    }

    /// An empty document of replica `client_id`.
    pub fn with_client_id(client_id: u64) -> (document: Document<T>)
        ensures
            document.wf(),
            document.client_id == client_id,
            document@ == ListState::<T::V>::empty(client_id),
    {
        Document { client_id, store: Store::new(client_id) }
    }

    /// An empty document of a replica whose id is drawn at random.
    pub fn new() -> (document: Document<T>)
        ensures
            document.wf(),
            document@ == ListState::<T::V>::empty(document.client_id),
    {
        Document::with_client_id(random_client_id())
    }

    /// The smallest clock of `replica` that this document has not seen.
    pub fn clock(&self, replica: ClientId) -> (clock: Clock)
        ensures
            clock == self@.clock_of(replica),
    {
        self.store.clock_of(replica)
    }

    /// The clocks of all replicas of which the document holds blocks.
    pub fn clock_vector(&self) -> (clocks: ClockVector)
        ensures
            clocks@.dom() == self@.blocks.dom(),
            forall|replica: ClientId|
                clocks@.contains_key(replica) ==> #[trigger] clocks@[replica] == self@.clock_of(
                    replica,
                ),
    {
        let replicas = self.store.replicas();
        let mut clocks: ClockVector = HashMap::new();
        let mut i: usize = 0;
        while i < replicas.len()
            invariant
                i <= replicas.len(),
                clocks@.dom() == replicas@.take(i as int).to_set(),
                forall|replica: ClientId|
                    clocks@.contains_key(replica) ==> #[trigger] clocks@[replica]
                        == self@.clock_of(replica),
            decreases replicas.len() - i,
        {
            let replica = replicas[i];
            clocks.insert(replica, self.store.clock_of(replica));
            proof {
                assert(replicas@.take(i + 1) =~= replicas@.take(i as int).push(replica));
                assert(replicas@.take(i + 1).to_set() =~= replicas@.take(i as int).to_set().insert(
                    replica,
                )) by {
                    let longer = replicas@.take(i + 1);
                    let shorter = replicas@.take(i as int);
                    assert forall|x: ClientId|
                        longer.to_set().contains(x) <==> shorter.to_set().insert(
                            replica,
                        ).contains(x) by {
                        if longer.contains(x) {
                            let t = choose|t: int| 0 <= t < longer.len() && longer[t] == x;
                            if t < i {
                                assert(shorter[t] == x);
                            }
                        }
                        if shorter.contains(x) {
                            let t = choose|t: int| 0 <= t < shorter.len() && shorter[t] == x;
                            assert(longer[t] == x);
                        }
                        if x == replica {
                            assert(longer[i as int] == x);
                        }
                    }
                }
            }
            i = i + 1;
        }
        proof {
            assert(replicas@.take(replicas.len() as int) =~= replicas@);
        }
        clocks
    }

    /// Inserts `value` at the tail of the list.
    pub fn append(&mut self, value: T)
        requires
            old(self).wf(),
        ensures
            final(self).wf(),
            final(self).client_id == old(self).client_id,
            final(self)@ == old(self)@.appended(value.deep_view()),
            final(self)@.values() == old(self)@.values().push(value.deep_view()),
            old(self)@.evolves_to(final(self)@),
    {
        self.store.append(value);
    }

    /// Inserts `value` before the `index`-th live block; at the head if
    /// `index` is 0 or lies past the live blocks.
    pub fn insert(&mut self, index: usize, value: T)
        requires
            old(self).wf(),
        ensures
            final(self).wf(),
            final(self).client_id == old(self).client_id,
            final(self)@ == old(self)@.inserted(index as int, value.deep_view()),
            final(self)@.values() == ({
                let at = old(self)@.scan_start(old(self)@.slot(index as int).0);
                old(self)@.values_upto(at) + seq![value.deep_view()] + old(self)@.values_from(at)
            }),
            old(self)@.evolves_to(final(self)@),
    {
        self.store.insert(index, value);
    }

    /// Deletes the `index`-th live block, if there is one.
    pub fn delete(&mut self, index: usize)
        requires
            old(self).wf(),
        ensures
            final(self).wf(),
            final(self).client_id == old(self).client_id,
            final(self)@ == old(self)@.deleted_range(index as int, 1),
            old(self)@.evolves_to(final(self)@),
    {
        self.store.delete(index);
    }

    /// Deletes `count` live blocks from the `index`-th live block on.
    pub fn delete_range(&mut self, index: usize, count: usize)
        requires
            old(self).wf(),
        ensures
            final(self).wf(),
            final(self).client_id == old(self).client_id,
            final(self)@ == old(self)@.deleted_range(index as int, count as int),
            old(self)@.evolves_to(final(self)@),
    {
        self.store.delete_range(index, count);
    }

    /// The items of the list in list order.
    pub fn values(&self) -> (items: Vec<&T>)
        requires
            self.wf(),
        ensures
            items.deep_view() == self@.values(),
    {
        self.store.iter_values()
    }
}

} // verus!
