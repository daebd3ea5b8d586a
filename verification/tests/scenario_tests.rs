use yata::block::Block;
use yata::delete_set::DeleteSet;
use yata::document::BlockId;
use yata::store::Store;
use yata::update::{ApplyError, Content, Update, UpdateBlock, ValidationError};
use yata::Document;

fn text(document: &Document<String>) -> Vec<String> {
    document.values().into_iter().cloned().collect()
}

fn items(store: &Store<String>) -> Vec<String> {
    store.iter_values().into_iter().cloned().collect()
}

fn ids(store: &Store<String>) -> Vec<(u64, u64)> {
    store.iter_blocks().iter().map(|b| (b.block_id.client_id, b.block_id.clock)).collect()
}

#[test]
fn local_insert_goes_between_its_neighbours() {
    let mut document: Document<String> = Document::with_client_id(1);
    document.append("A".to_owned());
    document.append("B".to_owned());
    document.insert(1, "C".to_owned());

    assert_eq!(text(&document), vec!["A", "C", "B"]);
    let blocks = document.store.blocks_of(1).unwrap();
    assert_eq!(blocks.iter().map(|b| b.id).collect::<Vec<u64>>(), vec![0, 1, 2]);
    assert_eq!(
        blocks.iter().map(|b| b.origin_left).collect::<Vec<Option<BlockId>>>(),
        vec![None, Some(BlockId::new(1, 0)), Some(BlockId::new(1, 0))]
    );
    assert_eq!(
        blocks.iter().map(|b| b.origin_right).collect::<Vec<Option<BlockId>>>(),
        vec![None, None, Some(BlockId::new(1, 1))]
    );
}

#[test]
fn concurrent_appends_are_ordered_by_replica() {
    let mut first: Document<String> = Document::with_client_id(1);
    let mut second: Document<String> = Document::with_client_id(2);
    first.append("X".to_owned());
    second.append("Y".to_owned());

    let from_first = Update::from_document(&first);
    let from_second = Update::from_document(&second);
    assert_eq!(from_second.apply(&mut first), Ok(()));
    assert_eq!(from_first.apply(&mut second), Ok(()));

    assert_eq!(text(&first), vec!["X", "Y"]);
    assert_eq!(text(&second), vec!["X", "Y"]);
}

#[test]
fn remote_block_goes_between_its_origins() {
    let mut first: Document<String> = Document::with_client_id(1);
    first.append("A".to_owned());
    first.append("B".to_owned());
    let mut second: Document<String> = Document::with_client_id(2);
    assert_eq!(Update::from_document(&first).apply(&mut second), Ok(()));

    second.store.integrate(
        1,
        vec![Block::with_value_and_right(
            2,
            Some(BlockId::new(1, 0)),
            Some(BlockId::new(1, 1)),
            "M".to_owned(),
        )],
    );

    assert_eq!(text(&second), vec!["A", "M", "B"]);
}

#[test]
fn concurrent_inserts_at_one_slot() {
    let mut document: Document<String> = Document::with_client_id(1);
    document.append("A".to_owned());
    document.append("B".to_owned());
    document.insert(1, "C1".to_owned());
    assert_eq!(document.store.blocks_of(1).unwrap().len(), 3);

    let update = Update {
        dependency: vec![(1, 0..2), (2, 0..1)],
        blocks: vec![(
            2,
            vec![UpdateBlock::with_value(
                Some(BlockId::new(1, 0)),
                Some(BlockId::new(1, 1)),
                "C2".to_owned(),
            )],
        )],
        deletes: DeleteSet::empty(),
    };
    assert_eq!(update.apply(&mut document), Ok(()));

    assert_eq!(text(&document), vec!["A", "C1", "C2", "B"]);
}

#[test]
fn update_ahead_of_the_document_is_rejected() {
    let mut document: Document<String> = Document::with_client_id(1);
    let update: Update<String> =
        Update { dependency: vec![(3, 2..3)], blocks: vec![], deletes: DeleteSet::empty() };

    assert_eq!(update.apply(&mut document), Err(ApplyError::MissingDependency));
    assert!(text(&document).is_empty());
}

#[test]
fn right_walk_and_left_walk_agree() {
    let mut store: Store<String> = Store::new(1);
    store.append("a".to_owned());
    store.append("b".to_owned());
    store.insert(1, "c".to_owned());
    store.insert(0, "d".to_owned());
    store.integrate(
        2,
        vec![Block::with_value_and_right(0, Some(BlockId::new(1, 0)), None, "e".to_owned())],
    );
    store.delete(1);

    let blocks = store.iter_blocks();
    assert_eq!(blocks.len(), 5);
    assert_eq!(blocks[0].block.left, None);
    assert_eq!(blocks[blocks.len() - 1].block.right, None);
    for i in 0..blocks.len() {
        if i > 0 {
            assert_eq!(blocks[i].block.left, Some(blocks[i - 1].block_id));
        }
        if i + 1 < blocks.len() {
            assert_eq!(blocks[i].block.right, Some(blocks[i + 1].block_id));
        }
        for j in 0..i {
            assert_ne!(blocks[i].block_id, blocks[j].block_id);
        }
    }

    let mut backwards = Vec::new();
    let mut current = Some(blocks[blocks.len() - 1].block_id);
    while let Some(id) = current {
        backwards.push(id);
        current = store.get(id).unwrap().left;
    }
    backwards.reverse();
    assert_eq!(backwards, blocks.iter().map(|b| b.block_id).collect::<Vec<BlockId>>());
}

#[test]
fn clocks_are_positions() {
    let mut store: Store<String> = Store::new(7);
    store.append("a".to_owned());
    store.integrate(
        3,
        vec![
            Block::with_value_and_right(40, None, None, "x".to_owned()),
            Block::with_value_and_right(41, None, None, "y".to_owned()),
        ],
    );
    store.append("b".to_owned());

    let replicas = store.replicas();
    assert_eq!(replicas, vec![3, 7]);
    for replica in replicas {
        let blocks = store.blocks_of(replica).unwrap();
        assert_eq!(store.clock_of(replica), blocks.len() as u64);
        for (position, block) in blocks.iter().enumerate() {
            assert_eq!(block.id, position as u64);
            assert!(store.contains(BlockId::new(replica, position as u64)));
        }
        assert!(!store.contains(BlockId::new(replica, blocks.len() as u64)));
    }
    assert!(store.blocks_of(5).is_none());
    assert_eq!(store.clock_of(5), 0);
}

#[test]
fn origins_and_tombstones_stay() {
    let mut document: Document<String> = Document::with_client_id(1);
    document.append("a".to_owned());
    document.append("b".to_owned());
    document.insert(1, "c".to_owned());
    document.delete(0);
    let before: Vec<(Option<BlockId>, Option<BlockId>, u64, bool)> = document
        .store
        .blocks_of(1)
        .unwrap()
        .iter()
        .map(|b| (b.origin_left, b.origin_right, b.length, b.deleted))
        .collect();
    assert_eq!(before[0], (None, None, 1, true));

    let mut other: Document<String> = Document::with_client_id(2);
    other.append("z".to_owned());
    assert_eq!(Update::from_document(&other).apply(&mut document), Ok(()));
    document.append("d".to_owned());
    document.insert(0, "e".to_owned());
    document.delete_range(0, 1);
    // a snapshot taken before the delete does not bring the block back
    let mut early: Document<String> = Document::with_client_id(1);
    early.append("a".to_owned());
    assert_eq!(Update::from_document(&early).apply(&mut document), Ok(()));

    let after = document.store.blocks_of(1).unwrap();
    for (position, old) in before.iter().enumerate() {
        assert_eq!(after[position].origin_left, old.0);
        assert_eq!(after[position].origin_right, old.1);
        assert_eq!(after[position].length, old.2);
        assert!(!old.3 || after[position].deleted);
    }
    assert!(after[0].deleted);
    assert!(after[0].value.is_empty());
}

#[test]
fn blocks_produced_on_one_state_commute() {
    let base = || {
        let mut store: Store<String> = Store::new(1);
        store.append("a".to_owned());
        store.append("b".to_owned());
        store.append("c".to_owned());
        store
    };
    let same_slot = |replica: u64, item: &str| {
        vec![Block::with_value_and_right(
            0,
            Some(BlockId::new(1, 0)),
            Some(BlockId::new(1, 1)),
            item.to_owned(),
        )]
        .into_iter()
        .map(move |b| (replica, b))
        .collect::<Vec<(u64, Block<String>)>>()
    };

    let mut one = base();
    for (replica, block) in same_slot(2, "x") {
        one.integrate(replica, vec![block]);
    }
    for (replica, block) in same_slot(5, "y") {
        one.integrate(replica, vec![block]);
    }
    let mut two = base();
    for (replica, block) in same_slot(5, "y") {
        two.integrate(replica, vec![block]);
    }
    for (replica, block) in same_slot(2, "x") {
        two.integrate(replica, vec![block]);
    }
    assert_eq!(items(&one), vec!["a", "x", "y", "b", "c"]);
    assert_eq!(items(&two), items(&one));
    assert_eq!(ids(&two), ids(&one));

    // different slots, one at the tail
    let mut one = base();
    one.integrate(
        2,
        vec![Block::with_value_and_right(0, Some(BlockId::new(1, 2)), None, "x".to_owned())],
    );
    one.integrate(
        5,
        vec![Block::with_value_and_right(0, None, Some(BlockId::new(1, 0)), "y".to_owned())],
    );
    let mut two = base();
    two.integrate(
        5,
        vec![Block::with_value_and_right(0, None, Some(BlockId::new(1, 0)), "y".to_owned())],
    );
    two.integrate(
        2,
        vec![Block::with_value_and_right(0, Some(BlockId::new(1, 2)), None, "x".to_owned())],
    );
    assert_eq!(items(&one), vec!["y", "a", "b", "c", "x"]);
    assert_eq!(items(&two), items(&one));
}

#[test]
fn applying_twice_is_applying_once() {
    let mut source: Document<String> = Document::with_client_id(1);
    source.append("a".to_owned());
    source.append("b".to_owned());
    source.insert(1, "c".to_owned());
    source.delete(2);
    let update = Update::from_document(&source);

    let mut target: Document<String> = Document::with_client_id(2);
    target.append("z".to_owned());
    assert_eq!(update.clone().apply(&mut target), Ok(()));
    let once = text(&target);
    let blocks_once = ids(&target.store);
    assert_eq!(update.clone().apply(&mut target), Ok(()));
    assert_eq!(text(&target), once);
    assert_eq!(ids(&target.store), blocks_once);
    assert_eq!(target.clock(1), 3);

    // the source takes its own snapshot without change
    let own = text(&source);
    assert_eq!(update.apply(&mut source), Ok(()));
    assert_eq!(text(&source), own);
}

#[test]
fn snapshot_carries_tombstones_with_their_length() {
    let mut source: Document<String> = Document::with_client_id(1);
    source.append("a".to_owned());
    source.append("b".to_owned());
    source.delete(0);
    let update = Update::from_document(&source);
    assert_eq!(update.dependency, vec![(1, 0..2)]);
    assert_eq!(
        update.blocks,
        vec![(
            1,
            vec![
                UpdateBlock { origin_left: None, origin_right: None, value: Content::Deleted(1) },
                UpdateBlock::with_value(Some(BlockId::new(1, 0)), None, "b".to_owned()),
            ]
        )]
    );
    assert_eq!(update.deletes, DeleteSet { deletes: vec![(1, vec![(0, 1)])] });

    let mut target: Document<String> = Document::with_client_id(2);
    assert_eq!(update.apply(&mut target), Ok(()));
    assert_eq!(text(&target), vec!["b"]);
    let blocks = target.store.blocks_of(1).unwrap();
    assert!(blocks[0].deleted);
    assert_eq!(blocks[0].length, 1);
}

#[test]
fn later_snapshot_brings_only_what_is_new() {
    let mut source: Document<String> = Document::with_client_id(1);
    source.append("a".to_owned());
    let mut target: Document<String> = Document::with_client_id(2);
    assert_eq!(Update::from_document(&source).apply(&mut target), Ok(()));
    source.append("b".to_owned());
    source.delete(0);
    assert_eq!(Update::from_document(&source).apply(&mut target), Ok(()));
    assert_eq!(text(&target), vec!["b"]);
    assert_eq!(target.clock(1), 2);
    assert!(target.store.get(BlockId::new(1, 0)).unwrap().deleted);
}

#[test]
fn apply_reports_what_is_wrong_and_changes_nothing() {
    let mut document: Document<String> = Document::with_client_id(1);
    document.append("a".to_owned());

    // a run without a declared range
    let update: Update<String> =
        Update { dependency: vec![], blocks: vec![(2, vec![])], deletes: DeleteSet::empty() };
    assert_eq!(
        update.apply(&mut document),
        Err(ApplyError::Invalid(ValidationError::ClientDoesNotExist(2)))
    );

    // a range of the wrong length
    let update = Update {
        dependency: vec![(2, 0..2)],
        blocks: vec![(2, vec![UpdateBlock::with_value(None, None, "x".to_owned())])],
        deletes: DeleteSet::empty(),
    };
    assert_eq!(
        update.apply(&mut document),
        Err(ApplyError::Invalid(ValidationError::InvalidUpdateRange(2)))
    );

    // an origin outside every range
    let update = Update {
        dependency: vec![(2, 0..1)],
        blocks: vec![(
            2,
            vec![UpdateBlock::with_value(Some(BlockId::new(1, 0)), None, "x".to_owned())],
        )],
        deletes: DeleteSet::empty(),
    };
    assert_eq!(
        update.apply(&mut document),
        Err(ApplyError::Invalid(ValidationError::UpdateOutsideRange(BlockId::new(1, 0))))
    );

    // a left origin that the document does not hold; the first entry is fine
    let update = Update {
        dependency: vec![(2, 0..1), (3, 0..1), (1, 0..9)],
        blocks: vec![
            (2, vec![UpdateBlock::with_value(None, None, "x".to_owned())]),
            (3, vec![UpdateBlock::with_value(Some(BlockId::new(1, 5)), None, "y".to_owned())]),
        ],
        deletes: DeleteSet::empty(),
    };
    assert_eq!(update.apply(&mut document), Err(ApplyError::MissingDependency));

    // a tombstone for a block that the document does not hold
    let update = Update {
        dependency: vec![(2, 0..1)],
        blocks: vec![(2, vec![UpdateBlock::with_value(None, None, "x".to_owned())])],
        deletes: DeleteSet { deletes: vec![(1, vec![(0, 2)])] },
    };
    assert_eq!(update.apply(&mut document), Err(ApplyError::MissingDependency));

    assert_eq!(text(&document), vec!["a"]);
    assert_eq!(document.clock(2), 0);
    assert_eq!(document.clock(3), 0);
    assert!(!document.store.get(BlockId::new(1, 0)).unwrap().deleted);
}

#[test]
fn a_block_may_have_its_left_origin_earlier_in_the_update() {
    let mut document: Document<String> = Document::with_client_id(1);
    let update = Update {
        dependency: vec![(2, 0..2), (3, 0..1)],
        blocks: vec![
            (
                2,
                vec![
                    UpdateBlock::with_value(None, None, "x".to_owned()),
                    UpdateBlock::with_value(Some(BlockId::new(2, 0)), None, "y".to_owned()),
                ],
            ),
            (3, vec![UpdateBlock::with_value(Some(BlockId::new(2, 1)), None, "z".to_owned())]),
        ],
        deletes: DeleteSet { deletes: vec![(2, vec![(1, 1)])] },
    };
    assert_eq!(update.apply(&mut document), Ok(()));
    assert_eq!(text(&document), vec!["x", "z"]);
}

#[test]
fn validation_takes_an_inverted_range_as_empty() {
    let update: Update<String> = Update {
        dependency: vec![(1, 5..3)],
        blocks: vec![(1, vec![])],
        deletes: DeleteSet::empty(),
    };
    assert_eq!(update.validate(), Ok(()));
    let update = Update {
        dependency: vec![(1, 5..3)],
        blocks: vec![(1, vec![UpdateBlock::with_value(None, None, "x".to_owned())])],
        deletes: DeleteSet::empty(),
    };
    assert_eq!(update.validate(), Err(ValidationError::InvalidUpdateRange(1)));
}

#[test]
fn validation_reports_the_first_error() {
    let update = Update {
        dependency: vec![(1, 0..1), (1, 0..7)],
        blocks: vec![
            (
                1,
                vec![UpdateBlock {
                    origin_left: Some(BlockId::new(1, 1)),
                    origin_right: Some(BlockId::new(1, 2)),
                    value: Content::Value(vec!["x".to_owned()]),
                }],
            ),
            (4, vec![]),
        ],
        deletes: DeleteSet::empty(),
    };
    // the first range declared for a replica counts, and its end is within
    assert_eq!(update.get_version_range(1), Some(0..1));
    assert_eq!(update.get_version_range(4), None);
    assert!(update.does_clock_exist(None));
    assert!(update.does_clock_exist(Some(BlockId::new(1, 1))));
    assert!(!update.does_clock_exist(Some(BlockId::new(1, 2))));
    assert_eq!(update.validate(), Err(ValidationError::UpdateOutsideRange(BlockId::new(1, 2))));
    assert_eq!(update.clone().compact(), update);
}

#[test]
fn snapshots_list_replicas_in_ascending_order() {
    let mut document: Document<String> = Document::with_client_id(9);
    document.append("a".to_owned());
    for replica in [40u64, 2, 7, 1 << 50, 3] {
        document.store.integrate(replica, vec![Block::with_value(0, None, "x".to_owned())]);
    }
    document.delete(0);
    let update = Update::from_document(&document);
    let listed: Vec<u64> = update.blocks.iter().map(|entry| entry.0).collect();
    assert_eq!(listed, vec![2, 3, 7, 9, 40, 1 << 50]);
    assert_eq!(update.dependency.iter().map(|entry| entry.0).collect::<Vec<u64>>(), listed);
    assert_eq!(update.deletes.deletes.iter().map(|entry| entry.0).collect::<Vec<u64>>(), listed);
    assert!(update.dependency.iter().all(|entry| entry.1 == (0..1)));
    assert_eq!(update.validate(), Ok(()));

    let mut clocks: Vec<(u64, u64)> = document.clock_vector().into_iter().collect();
    clocks.sort();
    assert_eq!(clocks, listed.iter().map(|replica| (*replica, 1)).collect::<Vec<(u64, u64)>>());
}

#[test]
fn equal_states_give_equal_snapshots() {
    let mut first: Document<String> = Document::with_client_id(1);
    first.append("a".to_owned());
    let mut second: Document<String> = Document::with_client_id(2);
    second.append("b".to_owned());
    let mut third: Document<String> = Document::with_client_id(1);
    assert_eq!(Update::from_document(&second).apply(&mut third), Ok(()));
    assert_eq!(Update::from_document(&first).apply(&mut third), Ok(()));
    assert_eq!(Update::from_document(&second).apply(&mut first), Ok(()));
    assert_eq!(
        yata::wire::encode(&Update::from_document(&first)),
        yata::wire::encode(&Update::from_document(&third))
    );
}

#[test]
fn a_tie_is_decided_against_the_block_right_of_the_left_origin_only() {
    let base = || {
        let mut store: Store<String> = Store::new(9);
        store.append("x".to_owned());
        store.append("y".to_owned());
        store
    };
    let block = |item: &str| {
        vec![Block::with_value_and_right(
            0,
            Some(BlockId::new(9, 0)),
            Some(BlockId::new(9, 1)),
            item.to_owned(),
        )]
    };
    let mut one = base();
    one.integrate(3, block("c"));
    one.integrate(1, block("a"));
    one.integrate(2, block("b"));
    assert_eq!(items(&one), vec!["x", "a", "c", "b", "y"]);

    let mut two = base();
    two.integrate(1, block("a"));
    two.integrate(2, block("b"));
    two.integrate(3, block("c"));
    assert_eq!(items(&two), vec!["x", "a", "b", "c", "y"]);
}

#[test]
fn entries_are_applied_in_their_order() {
    // the block of replica 1 was produced behind the block of replica 2
    let mut second: Document<String> = Document::with_client_id(2);
    second.append("b".to_owned());
    let mut first: Document<String> = Document::with_client_id(1);
    assert_eq!(Update::from_document(&second).apply(&mut first), Ok(()));
    first.append("a".to_owned());
    assert_eq!(text(&first), vec!["b", "a"]);

    // its snapshot lists replica 1 first, so an empty document cannot take it
    let snapshot = Update::from_document(&first);
    let mut empty: Document<String> = Document::with_client_id(3);
    assert_eq!(snapshot.clone().apply(&mut empty), Err(ApplyError::MissingDependency));
    assert!(text(&empty).is_empty());
    assert_eq!(empty.clock(2), 0);

    // a document that holds the block of replica 2 can
    assert_eq!(Update::from_document(&second).apply(&mut empty), Ok(()));
    assert_eq!(snapshot.apply(&mut empty), Ok(()));
    assert_eq!(text(&empty), vec!["b", "a"]);
}
