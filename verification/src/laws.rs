//! Laws that relate the operations to one another.

use vstd::prelude::*;
use crate::delete_set::covered_by;
use crate::document::{BlockId, ClientId};
use crate::model::{BlockData, ListState};
use crate::update::{known, left_known_at, lefts_known, ApplyError, UpdateData};

verus! {

/// Deleting blocks leaves every clock as it is.
pub proof fn lemma_with_deleted_clocks<V>(state: ListState<V>, ids: Set<BlockId>, c: ClientId)
    ensures
        state.with_deleted(ids).clock_of(c) == state.clock_of(c),
{
    assert(state.with_deleted(ids).blocks.contains_key(c) == state.blocks.contains_key(c));
}

/// A range that an update declares for a replica is one of its declared ranges.
pub proof fn lemma_range_declared<V>(update: UpdateData<V>, i: int, client: ClientId)
    requires
        0 <= i,
        update.range_from(i, client) is Some,
    ensures
        exists|k: int|
            i <= k < update.dependency.len() && #[trigger] update.dependency[k] == (
                client,
                update.range_from(i, client)->Some_0.0,
                update.range_from(i, client)->Some_0.1,
            ),
    decreases update.dependency.len() - i,
{
    if update.dependency[i].0 == client {
        assert(update.dependency[i] == (
            client,
            update.range_from(i, client)->Some_0.0,
            update.range_from(i, client)->Some_0.1,
        ));
    } else {
        lemma_range_declared(update, i + 1, client);
    }
}

/// Applying entries never takes a clock back.
pub proof fn lemma_entries_clocks_grow<V>(
    update: UpdateData<V>,
    state: ListState<V>,
    i: int,
    j: int,
    c: ClientId,
)
    requires
        0 <= i <= j <= update.blocks.len(),
    ensures
        update.after_entries(state, i).clock_of(c) <= update.after_entries(state, j).clock_of(c),
    decreases j - i,
{
    if i < j {
        lemma_entries_clocks_grow(update, state, i, j - 1, c);
        let prev = update.after_entries(state, j - 1);
        prev.lemma_integrate_all_clocks(update.blocks[j - 1].0, update.fresh(prev, j - 1), c);
    }
}

/// Once an entry of a well-formed update has been applied on top of what it
/// builds on, the state holds every clock of the entry.
pub proof fn lemma_entry_is_held<V>(update: UpdateData<V>, state: ListState<V>, i: int)
    requires
        update.depends_ok(state),
        update.validated() is Ok,
        0 <= i < update.blocks.len(),
    ensures
        update.after_entries(state, i + 1).clock_of(update.blocks[i].0) >= update.first_clock(
            update.blocks[i].0,
        ) + update.blocks[i].1.len(),
{
    let client = update.blocks[i].0;
    let prev = update.after_entries(state, i);
    update.lemma_validated_entry(0, i);
    lemma_range_declared(update, 0, client);
    lemma_entries_clocks_grow(update, state, 0, i, client);
    prev.lemma_integrate_all_clocks(client, update.fresh(prev, i), client);
}

/// On a state that holds every clock of every entry the entries change nothing.
pub proof fn lemma_entries_held<V>(update: UpdateData<V>, state: ListState<V>, n: int)
    requires
        0 <= n <= update.blocks.len(),
        forall|i: int|
            0 <= i < update.blocks.len() ==> state.clock_of((#[trigger] update.blocks[i]).0)
                >= update.first_clock(update.blocks[i].0) + update.blocks[i].1.len(),
    ensures
        update.after_entries(state, n) == state,
        update.entries_ok(state, n),
    decreases n,
{
    if n > 0 {
        lemma_entries_held(update, state, n - 1);
        let run = update.blocks[n - 1].1;
        assert(update.held(state, n - 1) == run.len());
        assert(update.fresh(state, n - 1) =~= Seq::empty());
        assert forall|i: int| 0 <= i < n && i < update.blocks.len() implies lefts_known(
            #[trigger] update.after_entries(state, i),
            update.blocks[i].0,
            update.fresh(update.after_entries(state, i), i),
        ) by {
            lemma_entries_held(update, state, i);
            assert(update.held(state, i) == update.blocks[i].1.len());
            assert(update.fresh(state, i) =~= Seq::empty());
        }
    }
}

/// Applying an update twice is applying it once: after a successful
/// application a second one succeeds and leaves the state as it is.
pub proof fn lemma_apply_idempotent<V>(update: UpdateData<V>, state: ListState<V>)
    requires
        update.applied(state) is Ok,
    ensures
        update.applied(update.applied(state)->Ok_0) == update.applied(state),
{
    let n = update.blocks.len() as int;
    let fed = update.after_entries(state, n);
    let named = covered_by(update.deletes);
    let once = fed.with_deleted(named);
    assert(update.applied(state) == Ok::<ListState<V>, crate::update::ApplyError>(once));
    assert forall|c: ClientId| state.clock_of(c) <= #[trigger] once.clock_of(c) by {
        lemma_entries_clocks_grow(update, state, 0, n, c);
        lemma_with_deleted_clocks(fed, named, c);
    }
    assert(update.depends_ok(once)) by {
        assert forall|i: int| 0 <= i < update.dependency.len() implies (
        #[trigger] update.dependency[i]).1 <= once.clock_of(update.dependency[i].0) by {
            assert(state.clock_of(update.dependency[i].0) <= once.clock_of(
                update.dependency[i].0,
            ));
        }
    }
    assert forall|i: int| 0 <= i < update.blocks.len() implies once.clock_of(
        (#[trigger] update.blocks[i]).0,
    ) >= update.first_clock(update.blocks[i].0) + update.blocks[i].1.len() by {
        let client = update.blocks[i].0;
        lemma_entry_is_held(update, state, i);
        lemma_entries_clocks_grow(update, state, i + 1, n, client);
        lemma_with_deleted_clocks(fed, named, client);
    }
    lemma_entries_held(update, once, n);
    assert(update.deletes_known(once)) by {
        assert forall|id: BlockId| named.contains(id) implies once.has(id) by {
            assert(fed.has(id));
            lemma_with_deleted_clocks(fed, named, id.client_id);
        }
    }
    fed.lemma_with_deleted_twice(named, named);
    assert(named.union(named) =~= named);
}

/// Whether a block was produced on `state`: its left origin is a block of
/// the list or none, and its right origin is what stands right of the left
/// origin in the list.
pub open spec fn produced_on<V>(state: ListState<V>, block: BlockData<V>) -> bool {
    &&& block.origin_left matches Some(left) ==> state.order.contains(left)
    &&& block.origin_right == state.at(state.scan_start(block.origin_left))
}

/// Where a block produced on `state` goes once another block has been placed
/// at position `p`: to its own slot if that lies elsewhere, shifted by one if
/// it lies behind `p`; and if both go to the same slot, before the other
/// block if that belongs to the larger replica, else behind it.
pub proof fn lemma_index_after_place<V>(
    state: ListState<V>,
    placed_client: ClientId,
    placed: BlockData<V>,
    p: int,
    client: ClientId,
    block: BlockData<V>,
)
    requires
        state.wf(),
        0 <= p <= state.order.len(),
        produced_on(state, block),
    ensures
        state.placed(placed_client, placed, p).insertion_index(
            client,
            block.origin_left,
            block.origin_right,
        ) == ({
            let q = state.scan_start(block.origin_left);
            if q < p {
                q
            } else if q > p {
                q + 1
            } else if placed_client > client {
                p
            } else {
                p + 1
            }
        }),
{
    let o = state.order;
    let next = state.placed(placed_client, placed, p);
    let left = block.origin_left;
    let right = block.origin_right;
    let q = state.scan_start(left);
    state.lemma_placed(placed_client, placed, p);
    let start = if q <= p {
        q
    } else {
        q + 1
    };
    assert(next.scan_start(left) == start) by {
        match left {
            None => {},
            Some(l) => {
                let k = o.index_of(l);
                assert(o[k] == l);
                let k2 = if k < p {
                    k
                } else {
                    k + 1
                };
                assert(next.order[k2] == l);
                assert(next.order.contains(l));
                next.lemma_index_of(k2);
            },
        }
    }
    let n = next.order.len() as int;
    if q < p {
        assert(next.order[q] == o[q]);
        assert(next.stops(q, client, left, right));
        assert(next.first_stop(q, client, left, right) == q);
    } else if q > p {
        if q < o.len() {
            assert(next.order[q + 1] == o[q]);
            assert(next.stops(q + 1, client, left, right));
        }
        assert(next.first_stop(q + 1, client, left, right) == q + 1);
    } else {
        assert(next.order[p] == state.next_id(placed_client));
        assert(Some(next.order[p]) != right) by {
            if q < o.len() {
                assert(o.contains(o[q]));
            }
        }
        assert(next.at(p - 1) == left) by {
            match left {
                None => {},
                Some(l) => {
                    let k = o.index_of(l);
                    assert(o[k] == l);
                    assert(next.order[k] == o[k]);
                },
            }
        }
        if placed_client > client {
            assert(next.stops(p, client, left, right));
            assert(next.first_stop(p, client, left, right) == p);
        } else {
            assert(!next.stops(p, client, left, right));
            if p < o.len() {
                assert(next.order[p + 1] == o[p]);
                assert(next.stops(p + 1, client, left, right));
            }
            assert(next.first_stop(p + 1, client, left, right) == p + 1);
            assert(next.first_stop(p, client, left, right) == next.first_stop(
                p + 1,
                client,
                left,
                right,
            ));
        }
    }
}

/// Inserting at two positions of a sequence can be done in either order.
pub proof fn lemma_insert_commutes<A>(s: Seq<A>, i: int, x: A, j: int, y: A)
    requires
        0 <= i <= j <= s.len(),
    ensures
        s.insert(j, y).insert(i, x) == s.insert(i, x).insert(j + 1, y),
{
    assert(s.insert(j, y).insert(i, x) =~= s.insert(i, x).insert(j + 1, y));
}

/// Placing blocks of two different replicas stores the same blocks in either order.
pub proof fn lemma_place_blocks_commute<V>(
    state: ListState<V>,
    first_client: ClientId,
    first: BlockData<V>,
    i: int,
    second_client: ClientId,
    second: BlockData<V>,
    j: int,
)
    requires
        first_client != second_client,
    ensures
        state.placed(first_client, first, i).next_id(second_client) == state.next_id(
            second_client,
        ),
        state.placed(first_client, first, i).placed(second_client, second, j).blocks
            == state.placed(second_client, second, j).placed(first_client, first, i).blocks,
{
    let after_first = state.placed(first_client, first, i);
    let after_second = state.placed(second_client, second, j);
    assert(after_first.blocks.contains_key(second_client) == state.blocks.contains_key(second_client));
    assert(after_second.blocks.contains_key(first_client) == state.blocks.contains_key(first_client));
    assert(after_first.placed(second_client, second, j).blocks =~= after_second.placed(first_client, first, i).blocks);
}

/// Two blocks of different replicas that were both produced on `state` can
/// be integrated in either order: the resulting state is the same. If both
/// go to the same slot, the block of the smaller replica comes first.
pub proof fn lemma_concurrent_integration_commutes<V>(
    state: ListState<V>,
    first_client: ClientId,
    first: BlockData<V>,
    second_client: ClientId,
    second: BlockData<V>,
)
    requires
        state.wf(),
        first_client != second_client,
        produced_on(state, first),
        produced_on(state, second),
    ensures
        state.integrate_one(first_client, first).integrate_one(second_client, second)
            == state.integrate_one(second_client, second).integrate_one(first_client, first),
        state.integrate_one(first_client, first).integrate_one(second_client, second).values()
            == state.integrate_one(second_client, second).integrate_one(
            first_client,
            first,
        ).values(),
{
    let o = state.order;
    let pa = state.scan_start(first.origin_left);
    let pb = state.scan_start(second.origin_left);
    let ida = state.next_id(first_client);
    let idb = state.next_id(second_client);
    state.lemma_slot_index(first_client, first.origin_left);
    state.lemma_slot_index(second_client, second.origin_left);
    let after_first = state.placed(first_client, first, pa);
    let after_second = state.placed(second_client, second, pb);
    assert(state.integrate_one(first_client, first) == after_first);
    assert(state.integrate_one(second_client, second) == after_second);
    lemma_index_after_place(state, first_client, first, pa, second_client, second);
    lemma_index_after_place(state, second_client, second, pb, first_client, first);
    let qb = after_first.insertion_index(second_client, second.origin_left, second.origin_right);
    let qa = after_second.insertion_index(first_client, first.origin_left, first.origin_right);
    lemma_place_blocks_commute(state, first_client, first, pa, second_client, second, qb);
    lemma_place_blocks_commute(state, second_client, second, pb, first_client, first, qa);
    lemma_place_blocks_commute(state, first_client, first, qa, second_client, second, qb);
    let one = after_first.placed(second_client, second, qb);
    let two = after_second.placed(first_client, first, qa);
    assert(one.order == o.insert(pa, ida).insert(qb, idb));
    assert(two.order == o.insert(pb, idb).insert(qa, ida));
    assert(one.order == two.order) by {
        if pb < pa {
            lemma_insert_commutes(o, pb, idb, pa, ida);
        } else if pa < pb {
            lemma_insert_commutes(o, pa, ida, pb, idb);
        } else if first_client > second_client {
            lemma_insert_commutes(o, pa, idb, pa, ida);
        } else {
            lemma_insert_commutes(o, pa, ida, pa, idb);
        }
    }
    assert(one.blocks == two.blocks) by {
        assert(one.blocks == state.placed(first_client, first, qa).placed(
            second_client,
            second,
            qb,
        ).blocks);
    }
}

/// Whether an update brings one new block to `state` and no tombstones: it
/// holds one entry of one block, the block stands at the clock that `state`
/// has for its replica, and it was produced on `state`.
pub open spec fn brings_one_block<V>(update: UpdateData<V>, state: ListState<V>) -> bool {
    &&& update.blocks.len() == 1
    &&& update.blocks[0].1.len() == 1
    &&& update.deletes.len() == 0
    &&& update.first_clock(update.blocks[0].0) == state.clock_of(update.blocks[0].0)
    &&& produced_on(state, update.blocks[0].1[0].hydrated())
}

/// An update that brings one new block and can be applied integrates that block.
pub proof fn lemma_apply_one_block<V>(update: UpdateData<V>, state: ListState<V>)
    requires
        update.blocks.len() == 1,
        update.blocks[0].1.len() == 1,
        update.deletes.len() == 0,
        update.first_clock(update.blocks[0].0) == state.clock_of(update.blocks[0].0),
    ensures
        update.after_entries(state, 1) == state.integrate_one(
            update.blocks[0].0,
            update.blocks[0].1[0].hydrated(),
        ),
        update.entries_ok(state, 1) == known(state, update.blocks[0].1[0].origin_left),
        update.deletes_known(update.after_entries(state, 1)),
        update.applied(state) is Ok ==> update.applied(state) == Ok::<ListState<V>, ApplyError>(
            state.integrate_one(update.blocks[0].0, update.blocks[0].1[0].hydrated()),
        ),
{
    let client = update.blocks[0].0;
    let block = update.blocks[0].1[0].hydrated();
    let news = update.fresh(state, 0);
    assert(update.held(state, 0) == 0);
    assert(update.blocks[0].1.skip(0) =~= update.blocks[0].1);
    assert(news =~= seq![block]);
    assert(news.drop_last() =~= Seq::empty());
    assert(state.integrate_all(client, news.drop_last()) == state);
    assert(state.integrate_all(client, news) == state.integrate_one(client, block));
    assert(update.after_entries(state, 0) == state);
    assert(news.take(0) =~= Seq::empty());
    assert(left_known_at(state, client, news, 0) == known(state, block.origin_left));
    assert(lefts_known(state, client, news) == known(state, block.origin_left));
    assert(update.entries_ok(state, 1) == known(state, block.origin_left)) by {
        if known(state, block.origin_left) {
            assert forall|i: int| 0 <= i < 1 && i < update.blocks.len() implies lefts_known(
                #[trigger] update.after_entries(state, i),
                update.blocks[i].0,
                update.fresh(update.after_entries(state, i), i),
            ) by {}
        } else {
            assert(!lefts_known(
                update.after_entries(state, 0),
                update.blocks[0].0,
                update.fresh(update.after_entries(state, 0), 0),
            ));
        }
    }
    assert(covered_by(update.deletes) =~= Set::empty());
    update.after_entries(state, 1).lemma_with_deleted_none();
}

/// Two updates of different replicas that each bring one new block to the
/// same state can be applied in either order: both orders succeed and give
/// the same state, and so the same items.
pub proof fn lemma_concurrent_updates_commute<V>(
    state: ListState<V>,
    first: UpdateData<V>,
    second: UpdateData<V>,
)
    requires
        state.wf(),
        brings_one_block(first, state),
        brings_one_block(second, state),
        first.blocks[0].0 != second.blocks[0].0,
        first.applied(state) is Ok,
        second.applied(state) is Ok,
    ensures
        second.applied(first.applied(state)->Ok_0) is Ok,
        first.applied(second.applied(state)->Ok_0) is Ok,
        second.applied(first.applied(state)->Ok_0) == first.applied(second.applied(state)->Ok_0),
        second.applied(first.applied(state)->Ok_0)->Ok_0.values() == first.applied(
            second.applied(state)->Ok_0,
        )->Ok_0.values(),
{
    let first_client = first.blocks[0].0;
    let second_client = second.blocks[0].0;
    let first_block = first.blocks[0].1[0].hydrated();
    let second_block = second.blocks[0].1[0].hydrated();
    lemma_apply_one_block(first, state);
    lemma_apply_one_block(second, state);
    let after_first = state.integrate_one(first_client, first_block);
    let after_second = state.integrate_one(second_client, second_block);
    lemma_applies_after(state, first_client, first_block, second);
    lemma_applies_after(state, second_client, second_block, first);
    lemma_apply_one_block(second, after_first);
    lemma_apply_one_block(first, after_second);
    lemma_concurrent_integration_commutes(
        state,
        first_client,
        first_block,
        second_client,
        second_block,
    );
}

/// An update that brings one new block to `state` and can be applied to it can
/// still be applied once a block of another replica has been integrated.
proof fn lemma_applies_after<V>(
    state: ListState<V>,
    client: ClientId,
    block: BlockData<V>,
    update: UpdateData<V>,
)
    requires
        state.wf(),
        brings_one_block(update, state),
        update.blocks[0].0 != client,
        update.applied(state) is Ok,
    ensures
        update.first_clock(update.blocks[0].0) == state.integrate_one(client, block).clock_of(
            update.blocks[0].0,
        ),
        update.applied(state.integrate_one(client, block)) is Ok,
{
    let next = state.integrate_one(client, block);
    let p = state.insertion_index(client, block.origin_left, block.origin_right);
    assert forall|c: ClientId| state.clock_of(c) <= #[trigger] next.clock_of(c) by {
        state.lemma_placed_clocks(client, block, p, c);
    }
    state.lemma_placed_clocks(client, block, p, update.blocks[0].0);
    assert(update.depends_ok(next)) by {
        assert forall|i: int| 0 <= i < update.dependency.len() implies (
        #[trigger] update.dependency[i]).1 <= next.clock_of(update.dependency[i].0) by {
            assert(state.clock_of(update.dependency[i].0) <= next.clock_of(
                update.dependency[i].0,
            ));
        }
    }
    lemma_apply_one_block(update, state);
    lemma_apply_one_block(update, next);
    let left = update.blocks[0].1[0].origin_left;
    assert(known(next, left)) by {
        match left {
            None => {},
            Some(id) => {
                assert(state.has(id));
                assert(state.clock_of(id.client_id) <= next.clock_of(id.client_id));
            },
        }
    }
}

} // verus!
