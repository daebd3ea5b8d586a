use vstd::prelude::*;
use crate::block::Item;
use crate::document::{BlockId, ClientId, Clock, Document};
use crate::model::ListState;
use crate::store::Store;

verus! {

/// The tombstones of a state as runs of clocks: for each replica a list of
/// `(first clock, number of clocks)`.
#[derive(Eq, PartialEq, Clone, Debug)]
pub struct DeleteSet {
    pub deletes: Vec<(ClientId, Vec<(Clock, usize)>)>,
}

/// Whether the run `run` of replica `client` names the block `id`.
pub open spec fn run_covers(client: ClientId, run: (Clock, usize), id: BlockId) -> bool {
    id.client_id == client && run.0 <= id.clock < run.0 + run.1
}

/// Whether one of the runs `runs` of replica `client` names the block `id`.
pub open spec fn runs_cover(client: ClientId, runs: Seq<(Clock, usize)>, id: BlockId) -> bool {
    exists|j: int| 0 <= j < runs.len() && run_covers(client, #[trigger] runs[j], id)
}

/// Whether one of the first `n` entries names the block `id`.
pub open spec fn entries_cover(
    entries: Seq<(ClientId, Seq<(Clock, usize)>)>,
    n: int,
    id: BlockId,
) -> bool {
    exists|i: int|
        0 <= i < n && i < entries.len() && runs_cover((#[trigger] entries[i]).0, entries[i].1, id)
}

/// The blocks that the entries name.
pub open spec fn covered_by(entries: Seq<(ClientId, Seq<(Clock, usize)>)>) -> Set<BlockId> {
    Set::new(|id: BlockId| entries_cover(entries, entries.len() as int, id))
}

/// Deletes the blocks of `client` that `run` names, as far as the store holds them.
fn delete_run<T: Item>(store: &mut Store<T>, client: ClientId, run: (Clock, usize))
    requires
        old(store).wf(),
    ensures
        final(store).wf(),
        final(store)@ == old(store)@.with_deleted(Set::new(|id: BlockId| run_covers(client, run, id))),
        old(store)@.evolves_to(final(store)@),
{
    let ghost start = store@;
    let ghost named = Set::new(|id: BlockId| run_covers(client, run, id));
    proof {
        store.lemma_list_integrity();
    }
    let held = store.clock_of(client);
    let first = run.0;
    let stop = if first < held {
        if (run.1 as u64) < held - first {
            first + run.1 as u64
        } else {
            held
        }
    } else {
        first
    };
    let mut clock = first;
    proof {
        start.lemma_with_deleted_none();
        start.lemma_evolves_refl();
        start.lemma_with_deleted_agree(
            Set::empty(),
            Set::new(|id: BlockId| id.client_id == client && first <= id.clock < clock),
        );
    }
    while clock < stop
        invariant
            first <= clock <= stop <= u64::MAX,
            store.wf(),
            start.wf(),
            store@ == start.with_deleted(
                Set::new(|id: BlockId| id.client_id == client && first <= id.clock < clock),
            ),
            start.evolves_to(store@),
        decreases stop - clock,
    {
        let ghost before = store@;
        let ghost done = Set::new(|id: BlockId| id.client_id == client && first <= id.clock < clock);
        let id = BlockId { client_id: client, clock };
        store.delete_block(id);
        clock = clock + 1;
        proof {
            start.lemma_with_deleted_twice(done, set![id]);
            assert(done.union(set![id]) =~= Set::new(
                |id: BlockId| id.client_id == client && first <= id.clock < clock,
            ));
            start.lemma_evolves_trans(before, store@);
        }
    }
    proof {
        start.lemma_with_deleted_agree(
            Set::new(|id: BlockId| id.client_id == client && first <= id.clock < clock),
            named,
        );
    }
}

/// Deletes the blocks of `client` that `runs` name, as far as the store holds them.
fn delete_runs<T: Item>(store: &mut Store<T>, client: ClientId, runs: &Vec<(Clock, usize)>)
    requires
        old(store).wf(),
    ensures
        final(store).wf(),
        final(store)@ == old(store)@.with_deleted(
            Set::new(|id: BlockId| runs_cover(client, runs@, id)),
        ),
        old(store)@.evolves_to(final(store)@),
{
    let ghost start = store@;
    proof {
        start.lemma_with_deleted_none();
        start.lemma_evolves_refl();
        assert(Set::new(|id: BlockId| runs_cover(client, runs@.take(0), id)) =~= Set::empty());
    }
    let mut j: usize = 0;
    while j < runs.len()
        invariant
            j <= runs.len(),
            store.wf(),
            store@ == start.with_deleted(
                Set::new(|id: BlockId| runs_cover(client, runs@.take(j as int), id)),
            ),
            start.evolves_to(store@),
        decreases runs.len() - j,
    {
        let ghost before = store@;
        let ghost done = Set::new(|id: BlockId| runs_cover(client, runs@.take(j as int), id));
        let ghost more = Set::new(|id: BlockId| run_covers(client, runs[j as int], id));
        delete_run(store, client, runs[j]);
        proof {
            let longer = runs@.take(j + 1);
            let shorter = runs@.take(j as int);
            start.lemma_with_deleted_twice(done, more);
            assert(done.union(more) =~= Set::new(|id: BlockId| runs_cover(client, longer, id))) by {
                assert forall|id: BlockId|
                    done.union(more).contains(id) <==> runs_cover(client, longer, id) by {
                    if runs_cover(client, shorter, id) {
                        let t = choose|t: int|
                            0 <= t < shorter.len() && run_covers(client, #[trigger] shorter[t], id);
                        assert(longer[t] == shorter[t]);
                    }
                    if more.contains(id) {
                        assert(longer[j as int] == runs[j as int]);
                    }
                    if runs_cover(client, longer, id) {
                        let t = choose|t: int|
                            0 <= t < longer.len() && run_covers(client, #[trigger] longer[t], id);
                        if t < j {
                            assert(shorter[t] == longer[t]);
                        }
                    }
                }
            }
            start.lemma_evolves_trans(before, store@);
        }
        j = j + 1;
    }
    proof {
        assert(runs@.take(runs.len() as int) =~= runs@);
    }
}

impl DeleteSet {
    /// Whether the set names the block `id`.
    pub open spec fn covers(&self, id: BlockId) -> bool {
        entries_cover(self.deletes.deep_view(), self.deletes@.len() as int, id)
    }

    /// The blocks that the set names.
    pub open spec fn covered(&self) -> Set<BlockId> {
        covered_by(self.deletes.deep_view())
    }

    /// Turns every block that the set names into a tombstone. Blocks that the
    /// document does not hold are passed over.
    pub fn apply<T: Item>(&self, document: &mut Document<T>)
        requires
            old(document).wf(),
        ensures
            final(document).wf(),
            final(document).client_id == old(document).client_id,
            final(document)@ == old(document)@.with_deleted(self.covered()),
            old(document)@.evolves_to(final(document)@),
    {
        let ghost start = document@;
        let ghost entries = self.deletes.deep_view();
        proof {
            start.lemma_with_deleted_none();
            start.lemma_evolves_refl();
            assert(Set::new(|id: BlockId| entries_cover(entries, 0, id)) =~= Set::empty());
        }
        let mut i: usize = 0;
        while i < self.deletes.len()
            invariant
                i <= self.deletes.len(),
                entries == self.deletes.deep_view(),
                document.wf(),
                document.client_id == old(document).client_id,
                document@ == start.with_deleted(
                    Set::new(|id: BlockId| entries_cover(entries, i as int, id)),
                ),
                start.evolves_to(document@),
            decreases self.deletes.len() - i,
        {
            let ghost before = document@;
            let ghost done = Set::new(|id: BlockId| entries_cover(entries, i as int, id));
            let ghost more = Set::new(
                |id: BlockId| runs_cover(entries[i as int].0, entries[i as int].1, id),
            );
            delete_runs(&mut document.store, self.deletes[i].0, &self.deletes[i].1);
            proof {
                assert(entries[i as int].1 =~= self.deletes[i as int].1@);
                start.lemma_with_deleted_twice(done, more);
                assert(done.union(more) =~= Set::new(
                    |id: BlockId| entries_cover(entries, i + 1, id),
                )) by {
                    assert forall|id: BlockId|
                        done.union(more).contains(id) <==> entries_cover(entries, i + 1, id) by {
                        if entries_cover(entries, i as int, id) {
                            let t = choose|t: int|
                                0 <= t < i && t < entries.len() && runs_cover(
                                    (#[trigger] entries[t]).0,
                                    entries[t].1,
                                    id,
                                );
                            assert(entries_cover(entries, i + 1, id));
                        }
                        if more.contains(id) {
                            assert(runs_cover(entries[i as int].0, entries[i as int].1, id));
                        }
                    }
                }
                start.lemma_evolves_trans(before, document@);
            }
            i = i + 1;
        }
        proof {
            assert(Set::new(|id: BlockId| entries_cover(entries, entries.len() as int, id))
                =~= self.covered());
        }
    }

    /// The set without runs.
    pub fn empty() -> (set: DeleteSet)
        ensures
            set.deletes@.len() == 0,
            set.covered() == Set::<BlockId>::empty(),
    {
        let set = DeleteSet { deletes: Vec::new() };
        assert(set.covered() =~= Set::empty());
        set
    }

    /// The tombstones of `document`, replica by replica in the order of `replicas`.
    pub fn for_replicas<T: Item>(document: &Document<T>, replicas: &Vec<ClientId>) -> (set:
        DeleteSet)
        ensures
            set.deletes.deep_view() == document@.tombstones(replicas@),
    {
        let mut deletes: Vec<(ClientId, Vec<(Clock, usize)>)> = Vec::new();
        let mut i: usize = 0;
        while i < replicas.len()
            invariant
                i <= replicas.len(),
                deletes.deep_view() == document@.tombstones(replicas@.take(i as int)),
            decreases replicas.len() - i,
        {
            let client = replicas[i];
            let mut runs: Vec<(Clock, usize)> = Vec::new();
            let ghost held = document@.blocks_of(client);
            match document.store.blocks_of(client) {
                Some(blocks) => {
                    let mut k: usize = 0;
                    while k < blocks.len()
                        invariant
                            k <= blocks.len() == held.len(),
                            forall|t: int| 0 <= t < blocks.len() ==> (#[trigger] blocks[t])@ == held[t],
                            runs.deep_view() == ListState::<T::V>::tombstone_runs(held, k as int),
                        decreases blocks.len() - k,
                    {
                        let ghost seen = runs.deep_view();
                        if blocks[k].deleted {
                            runs.push((k as u64, 1));
                            assert(runs.deep_view() =~= seen.push((k as u64, 1usize)));
                        }
                        k = k + 1;
                    }
                },
                None => {
                    assert(runs.deep_view() =~= Seq::empty());
                },
            }
            let ghost seen = deletes.deep_view();
            deletes.push((client, runs));
            proof {
                let shorter = replicas@.take(i as int);
                let longer = replicas@.take(i + 1);
                assert(deletes.deep_view() =~= seen.push((client, runs.deep_view())));
                assert(runs.deep_view() == ListState::<T::V>::tombstone_runs(
                    held,
                    held.len() as int,
                ));
                assert forall|t: int| 0 <= t < longer.len() implies deletes.deep_view()[t]
                    == document@.tombstones(longer)[t] by {
                    if t < i {
                        assert(longer[t] == shorter[t]);
                        assert(seen[t] == document@.tombstones(shorter)[t]);
                    }
                }
                assert(deletes.deep_view() =~= document@.tombstones(longer));
            }
            i = i + 1;
        }
        proof {
            assert(replicas@.take(replicas.len() as int) =~= replicas@);
        }
        DeleteSet { deletes }
    }

    /// The tombstones of `document`, replica by replica in ascending order.
    pub fn from<T: Item>(document: &Document<T>) -> (set: DeleteSet)
        ensures
            set.deletes.deep_view() == document@.tombstones(document@.replicas()),
    {
        let replicas = document.store.replicas();
        DeleteSet::for_replicas(document, &replicas)
    }
}

} // verus!
