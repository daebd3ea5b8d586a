use yata::block::{Block, Item};
use yata::delete_set::DeleteSet;
use yata::document::BlockId;
use yata::store::Store;
use yata::update::{Content, MergeResult, Update, UpdateBlock};
use yata::Document;

fn items(store: &Store<String>) -> Vec<String> {
    store.iter_values().into_iter().cloned().collect()
}

fn four() -> Store<String> {
    let mut store: Store<String> = Store::new(1);
    for item in ["a", "b", "c", "d"] {
        store.append(item.to_owned());
    }
    store
}

#[test]
fn empty_store_has_nothing() {
    let store: Store<String> = Store::new(1);
    assert!(store.iter_blocks().is_empty());
    assert!(store.iter_live_blocks().is_empty());
    assert!(store.iter_values().is_empty());
    assert!(store.iter_blocks_with_offset(Some(BlockId::new(1, 0))).is_empty());
    assert!(store.replicas().is_empty());
    assert!(store.get(BlockId::new(1, 0)).is_none());
}

#[test]
fn first_block_is_head_and_tail() {
    let mut store: Store<String> = Store::new(1);
    store.integrate(9, vec![Block::with_value(0, None, "x".to_owned())]);
    let blocks = store.iter_blocks();
    assert_eq!(blocks.len(), 1);
    assert_eq!(blocks[0].block_id, BlockId::new(9, 0));
    assert_eq!(blocks[0].block.left, None);
    assert_eq!(blocks[0].block.right, None);
}

#[test]
fn insert_at_the_head_and_past_the_end() {
    let mut store = four();
    store.insert(0, "h".to_owned());
    assert_eq!(items(&store), vec!["h", "a", "b", "c", "d"]);
    store.insert(5, "t".to_owned());
    assert_eq!(items(&store), vec!["h", "a", "b", "c", "d", "t"]);
    store.insert(9, "p".to_owned());
    assert_eq!(items(&store), vec!["p", "h", "a", "b", "c", "d", "t"]);
}

#[test]
fn insert_counts_live_blocks_only() {
    let mut store = four();
    store.delete(1);
    assert_eq!(items(&store), vec!["a", "c", "d"]);
    // before the live block "c": right behind "a", in front of the tombstone
    store.insert(1, "x".to_owned());
    assert_eq!(items(&store), vec!["a", "x", "c", "d"]);
    let x = store.get(BlockId::new(1, 4)).unwrap();
    assert_eq!(x.origin_left, Some(BlockId::new(1, 0)));
    assert_eq!(x.origin_right, Some(BlockId::new(1, 1)));
}

#[test]
fn delete_range_stops_at_the_end() {
    let mut store = four();
    store.delete_range(2, usize::MAX);
    assert_eq!(items(&store), vec!["a", "b"]);
    store.delete_range(2, 1);
    store.delete_range(7, 3);
    store.delete_range(0, 0);
    assert_eq!(items(&store), vec!["a", "b"]);
    assert_eq!(store.iter_blocks().len(), 4);
    assert_eq!(store.iter_live_blocks().len(), 2);
    store.delete(0);
    assert_eq!(items(&store), vec!["b"]);
    store.delete_block(BlockId::new(1, 1));
    store.delete_block(BlockId::new(4, 4));
    assert!(items(&store).is_empty());
    assert_eq!(store.iter_blocks().len(), 4);
}

#[test]
fn blocks_from_an_offset() {
    let store = four();
    let tail = store.iter_blocks_with_offset(Some(BlockId::new(1, 2)));
    assert_eq!(
        tail.iter().map(|b| b.block_id).collect::<Vec<BlockId>>(),
        vec![BlockId::new(1, 2), BlockId::new(1, 3)]
    );
    assert_eq!(store.iter_blocks_with_offset(None).len(), 4);
    assert!(store.iter_blocks_with_offset(Some(BlockId::new(2, 0))).is_empty());
}

#[test]
fn unknown_left_origin_goes_to_the_tail() {
    let mut store = four();
    assert_eq!(
        store.find_insertion_point(2, Some(BlockId::new(8, 8)), Some(BlockId::new(1, 0))),
        None
    );
    store.integrate(
        2,
        vec![Block::with_value_and_right(
            0,
            Some(BlockId::new(8, 8)),
            Some(BlockId::new(1, 0)),
            "x".to_owned(),
        )],
    );
    assert_eq!(items(&store), vec!["a", "b", "c", "d", "x"]);
}

#[test]
fn unknown_right_origin_is_passed_over() {
    let mut store = four();
    // the first candidate belongs to a smaller replica, the right origin never comes
    assert_eq!(store.find_insertion_point(2, Some(BlockId::new(1, 0)), Some(BlockId::new(8, 8))), None);
    // the first candidate belongs to a larger replica
    assert_eq!(
        store.find_insertion_point(0, Some(BlockId::new(1, 0)), Some(BlockId::new(8, 8))),
        Some(BlockId::new(1, 1))
    );
    // only the block right behind the left origin can win the tie
    assert_eq!(
        store.find_insertion_point(0, Some(BlockId::new(1, 0)), Some(BlockId::new(1, 3))),
        Some(BlockId::new(1, 1))
    );
    assert_eq!(
        store.find_insertion_point(2, Some(BlockId::new(1, 0)), Some(BlockId::new(1, 3))),
        Some(BlockId::new(1, 3))
    );
}

#[test]
fn block_delete_keeps_length() {
    let mut block = Block::with_value(3, Some(BlockId::new(1, 2)), "x".to_owned());
    assert_eq!(block.length, 1);
    assert_eq!(block.origin_left, Some(BlockId::new(1, 2)));
    assert_eq!(block.origin_right, None);
    assert_eq!(block.left, Some(BlockId::new(1, 2)));
    block.delete();
    assert!(block.deleted);
    assert!(block.value.is_empty());
    assert_eq!(block.length, 1);
    block.delete();
    assert!(block.deleted);
    assert_eq!(block.length, 1);
}

#[test]
fn block_merge_and_split() {
    let left =
        Block::with_value_and_right(4, Some(BlockId::new(1, 3)), Some(BlockId::new(2, 0)), "x".to_owned());
    let right = Block::with_value_and_right(5, Some(BlockId::new(1, 4)), Some(BlockId::new(2, 0)), "y".to_owned());
    let merged = left.clone().merge_with_right(right.clone());
    assert_eq!(merged.id, 4);
    assert_eq!(merged.value, vec!["x", "y"]);
    assert_eq!(merged.length, 2);
    assert_eq!(merged.origin_left, Some(BlockId::new(1, 3)));
    assert_eq!(merged.origin_right, Some(BlockId::new(2, 0)));
    assert_eq!(merged.left, left.left);
    assert_eq!(merged.right, left.right);
    assert!(!merged.deleted);

    let (first, second) = merged.clone().split_at(1, 1);
    assert_eq!(first.id, 4);
    assert_eq!(first.value, vec!["x"]);
    assert_eq!(first.length, 1);
    assert_eq!(first.origin_left, Some(BlockId::new(1, 3)));
    assert_eq!(first.origin_right, Some(BlockId::new(2, 0)));
    assert_eq!(first.left, merged.left);
    assert_eq!(first.right, Some(BlockId::new(1, 5)));
    assert_eq!(second.id, 5);
    assert_eq!(second.value, vec!["y"]);
    assert_eq!(second.length, 1);
    assert_eq!(second.origin_left, Some(BlockId::new(1, 4)));
    assert_eq!(second.origin_right, Some(BlockId::new(2, 0)));
    assert_eq!(second.left, Some(BlockId::new(1, 4)));
    assert_eq!(second.right, merged.right);

    let (none, all) = merged.clone().split_at(1, 0);
    assert!(none.value.is_empty());
    assert_eq!(none.length, 0);
    assert_eq!(all.value, vec!["x", "y"]);
    assert_eq!(all.id, 4);

    let mut gone = merged;
    gone.delete();
    let more = gone.clone().merge_with_right(right);
    assert!(more.deleted);
    assert!(more.value.is_empty());
    assert_eq!(more.length, 3);
    let (first, second) = more.split_at(1, 2);
    assert!(first.deleted && second.deleted);
    assert_eq!((first.length, second.length), (2, 1));
    assert!(first.value.is_empty() && second.value.is_empty());
    assert_eq!(second.id, 6);
}

#[test]
fn update_block_and_block() {
    let mut block = Block::with_value_and_right(
        7,
        Some(BlockId::new(1, 0)),
        Some(BlockId::new(1, 1)),
        "x".to_owned(),
    );
    let live = UpdateBlock::from_block(&block);
    assert_eq!(
        live,
        UpdateBlock::with_value(Some(BlockId::new(1, 0)), Some(BlockId::new(1, 1)), "x".to_owned())
    );
    assert_eq!(live.length(), 1);
    assert_eq!(UpdateBlock::from(block.clone()), live);
    let back = live.hydrate(3);
    assert_eq!(back.id, 3);
    assert_eq!((back.left, back.right), (None, None));
    assert_eq!(back.value, vec!["x"]);
    assert_eq!(back.length, 1);
    assert!(!back.deleted);
    assert_eq!(back.origin_left, block.origin_left);
    assert_eq!(back.origin_right, block.origin_right);

    block.delete();
    let dead = UpdateBlock::from_block(&block);
    assert_eq!(dead.value, Content::Deleted(1));
    assert_eq!(dead.length(), 1);
    assert_eq!(UpdateBlock::from(block), dead);
    let back = dead.hydrate(0);
    assert!(back.deleted);
    assert!(back.value.is_empty());
    assert_eq!(back.length, 1);
}

fn merged(result: MergeResult<UpdateBlock<String>>) -> Option<UpdateBlock<String>> {
    match result {
        MergeResult::Merged(block) => Some(block),
        MergeResult::NotMerged(_, _) => None,
    }
}

#[test]
fn adjacent_update_blocks_merge() {
    let right = Some(BlockId::new(9, 9));
    let first = UpdateBlock::with_value(None, right, "x".to_owned());
    let second = UpdateBlock::with_value(Some(BlockId::new(1, 4)), right, "y".to_owned());
    let both = merged(first.clone().try_merge(
        BlockId::new(1, 4),
        second.clone(),
        BlockId::new(1, 5),
    ))
    .unwrap();
    assert_eq!(both.origin_left, None);
    assert_eq!(both.origin_right, right);
    assert_eq!(both.value, Content::Value(vec!["x".to_owned(), "y".to_owned()]));

    // not adjacent in clock
    assert!(merged(first.clone().try_merge(BlockId::new(1, 4), second.clone(), BlockId::new(1, 6)))
        .is_none());
    // another replica
    assert!(merged(first.clone().try_merge(BlockId::new(1, 4), second.clone(), BlockId::new(2, 5)))
        .is_none());
    // the second was not produced right behind the first
    let elsewhere = UpdateBlock::with_value(Some(BlockId::new(1, 3)), right, "y".to_owned());
    assert!(merged(first.clone().try_merge(BlockId::new(1, 4), elsewhere, BlockId::new(1, 5)))
        .is_none());
    // another right origin
    let other_right = UpdateBlock::with_value(Some(BlockId::new(1, 4)), None, "y".to_owned());
    assert!(merged(first.clone().try_merge(BlockId::new(1, 4), other_right, BlockId::new(1, 5)))
        .is_none());
    // another kind of content
    let dead: UpdateBlock<String> = UpdateBlock {
        origin_left: Some(BlockId::new(1, 4)),
        origin_right: right,
        value: Content::Deleted(2),
    };
    match first.clone().try_merge(BlockId::new(1, 4), dead.clone(), BlockId::new(1, 5)) {
        MergeResult::NotMerged(a, b) => {
            assert_eq!(a, first);
            assert_eq!(b, dead);
        }
        MergeResult::Merged(_) => panic!("live and deleted content were merged"),
    }

    let dead_first: UpdateBlock<String> =
        UpdateBlock { origin_left: None, origin_right: right, value: Content::Deleted(3) };
    let dead_second: UpdateBlock<String> = UpdateBlock {
        origin_left: Some(BlockId::new(1, 4)),
        origin_right: right,
        value: Content::Deleted(2),
    };
    let both = merged(dead_first.clone().try_merge(BlockId::new(1, 4), dead_second, BlockId::new(1, 7)))
        .unwrap();
    assert_eq!(both.value, Content::Deleted(5));

    // a tombstone too long to hold is not merged
    let huge: UpdateBlock<String> = UpdateBlock {
        origin_left: Some(BlockId::new(1, 4)),
        origin_right: right,
        value: Content::Deleted(u64::MAX),
    };
    assert!(merged(dead_first.try_merge(BlockId::new(1, 4), huge, BlockId::new(1, 7))).is_none());
}

#[test]
fn content_merge() {
    let a: Content<String> = Content::Value(vec!["x".to_owned()]);
    let b: Content<String> = Content::Value(vec!["y".to_owned(), "z".to_owned()]);
    assert_eq!(
        a.clone().merge(b),
        Content::Value(vec!["x".to_owned(), "y".to_owned(), "z".to_owned()])
    );
    assert_eq!(a.clone().merge(Content::Deleted(4)), a);
    assert_eq!(Content::Deleted(4).merge(a.clone()), a);
    let none: Content<String> = Content::Deleted(4);
    assert_eq!(none.merge(Content::Deleted(6)), Content::Deleted(10));
}

#[test]
fn delete_set_of_a_document() {
    let mut document: Document<String> = Document::with_client_id(1);
    for item in ["a", "b", "c", "d"] {
        document.append(item.to_owned());
    }
    assert_eq!(DeleteSet::from(&document), DeleteSet { deletes: vec![(1, vec![])] });
    document.delete_range(1, 2);
    assert_eq!(DeleteSet::from(&document), DeleteSet { deletes: vec![(1, vec![(1, 1), (2, 1)])] });
    assert_eq!(
        DeleteSet::for_replicas(&document, &vec![5, 1]),
        DeleteSet { deletes: vec![(5, vec![]), (1, vec![(1, 1), (2, 1)])] }
    );
    assert_eq!(DeleteSet::empty(), DeleteSet { deletes: vec![] });
}

#[test]
fn delete_set_applies_runs() {
    let mut document: Document<String> = Document::with_client_id(1);
    for item in ["a", "b", "c", "d", "e"] {
        document.append(item.to_owned());
    }
    // runs may overlap, name one block twice, reach past the end or name other replicas
    let set = DeleteSet {
        deletes: vec![(1, vec![(1, 2), (2, 1), (4, 9)]), (3, vec![(0, 4)]), (1, vec![(0, 0)])],
    };
    set.apply(&mut document);
    let left: Vec<String> = document.values().into_iter().cloned().collect();
    assert_eq!(left, vec!["a", "d"]);
    assert_eq!(document.store.iter_blocks().len(), 5);

    DeleteSet { deletes: vec![(1, vec![(u64::MAX, usize::MAX)])] }.apply(&mut document);
    DeleteSet::empty().apply(&mut document);
    let left: Vec<String> = document.values().into_iter().cloned().collect();
    assert_eq!(left, vec!["a", "d"]);
}

#[test]
fn documents_start_empty() {
    let document: Document<String> = Document::new();
    assert!(document.values().is_empty());
    assert_eq!(document.clock(document.client_id), 0);
    let document: Document<String> = Document::with_client_id(12);
    assert_eq!(document.client_id, 12);
    assert!(document.values().is_empty());
    assert!(Update::from_document(&document).blocks.is_empty());
}

#[test]
fn document_edits() {
    let mut document: Document<String> = Document::with_client_id(4);
    document.append("a".to_owned());
    document.append("b".to_owned());
    document.insert(1, "c".to_owned());
    document.delete(0);
    document.delete_range(0, 1);
    let left: Vec<String> = document.values().into_iter().cloned().collect();
    assert_eq!(left, vec!["b"]);
    assert_eq!(document.clock(4), 3);
    assert_eq!(document.store.iter_blocks()[1].block_id, BlockId::new(4, 2));
}

#[test]
fn items_copy_and_optional_items() {
    let item = "x".to_owned();
    assert_eq!(item.duplicate(), item);
    let some = Some("y".to_owned());
    assert_eq!(some.duplicate(), some);
    let none: Option<String> = None;
    assert_eq!(none.duplicate(), None);

    let mut store: Store<Option<String>> = Store::new(1);
    store.append(None);
    store.append(Some("z".to_owned()));
    assert_eq!(store.iter_values(), vec![&None, &Some("z".to_owned())]);
}

#[test]
fn blocks_of_several_items() {
    let mut document: Document<String> = Document::with_client_id(1);
    let update = Update {
        dependency: vec![(2, 0..2)],
        blocks: vec![(
            2,
            vec![
                UpdateBlock {
                    origin_left: None,
                    origin_right: None,
                    value: Content::Value(vec!["a".to_owned(), "b".to_owned()]),
                },
                UpdateBlock {
                    origin_left: Some(BlockId::new(2, 0)),
                    origin_right: None,
                    value: Content::Deleted(3),
                },
            ],
        )],
        deletes: DeleteSet::empty(),
    };
    assert_eq!(update.apply(&mut document), Ok(()));
    document.append("c".to_owned());
    let left: Vec<String> = document.values().into_iter().cloned().collect();
    assert_eq!(left, vec!["a", "b", "c"]);
    let blocks = document.store.blocks_of(2).unwrap();
    assert_eq!((blocks[0].length, blocks[0].deleted), (2, false));
    assert_eq!((blocks[1].length, blocks[1].deleted), (3, true));
    assert_eq!(document.store.iter_live_blocks().len(), 2);
    document.delete(0);
    assert_eq!(document.values(), vec!["c"]);
}
