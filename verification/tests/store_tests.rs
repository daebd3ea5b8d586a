use yata::block::Block;
use yata::document::BlockId;
use yata::store::Store;

#[test]
fn insert_at_start_when_empty() {
    let store: Store<String> = Store::new(1);

    let insertion_point = store.find_insertion_point(2, None, None);

    assert_eq!(insertion_point, None);
}

#[test]
fn insert_at_start_before_existing() {
    let mut store: Store<String> = Store::new(3);
    store.append("Test".to_owned());

    let insertion_point = store.find_insertion_point(2, None, None);

    assert_eq!(insertion_point, Some(BlockId::new(3, 0)))
}

#[test]
fn insert_at_start_after_existing() {
    let mut store: Store<String> = Store::new(1);
    store.append("Test".to_owned());

    let insertion_point = store.find_insertion_point(2, None, None);

    assert_eq!(insertion_point, None)
}

#[test]
fn insert_no_conflicts() {
    let mut store: Store<String> = Store::new(1);
    store.append("Test".to_owned());
    store.append("Test 2".to_owned());

    let insertion_point =
        store.find_insertion_point(2, Some(BlockId::new(1, 0)), Some(BlockId::new(1, 1)));

    assert_eq!(insertion_point, Some(BlockId::new(1, 1)))
}

#[test]
fn test_deletion() {
    let mut store: Store<String> = Store::new(1);
    store.append("Test".to_owned());
    store.append("Test 2".to_owned());
    store.append("Test 3".to_owned());
    store.append("Test 4".to_owned());

    store.delete_range(1, 2);

    assert_eq!(store.iter_values(), vec!["Test", "Test 4"]);
}

#[test]
fn integrate_changes() {
    let mut store: Store<String> = Store::new(1);
    store.append("Test".to_owned());
    store.append("Test 2".to_owned());

    store.integrate(
        2,
        vec![Block::with_value_and_right(
            0,
            Some(BlockId::new(1, 0)),
            Some(BlockId::new(1, 1)),
            "Test 3".to_owned(),
        )],
    );

    assert_eq!(store.iter_values(), vec!["Test", "Test 3", "Test 2"])
}

#[test]
fn insert_changes() {
    let mut store: Store<String> = Store::new(1);
    store.append("Test".to_owned());
    store.append("Test 2".to_owned());
    store.insert(1, "Test 3".to_owned());

    assert_eq!(store.iter_values(), vec!["Test", "Test 3", "Test 2"])
}

#[test]
fn integrate_conflicts() {
    let mut store: Store<String> = Store::new(1);
    store.append("Test".to_owned());
    store.append("Test 2".to_owned());
    store.insert(1, "Test 3".to_owned());

    store.integrate(
        2,
        vec![Block::with_value_and_right(
            0,
            Some(BlockId::new(1, 0)),
            Some(BlockId::new(1, 1)),
            "Test 4".to_owned(),
        )],
    );

    assert_eq!(
        store.iter_values(),
        vec!["Test", "Test 3", "Test 4", "Test 2"]
    )
}

#[test]
fn integrate_conflicts_smaller_client_id() {
    let mut store: Store<String> = Store::new(2);
    store.append("Test".to_owned());
    store.append("Test 2".to_owned());
    store.insert(1, "Test 3".to_owned());

    store.integrate(
        1,
        vec![Block::with_value_and_right(
            0,
            Some(BlockId::new(2, 0)),
            Some(BlockId::new(2, 1)),
            "Test 4".to_owned(),
        )],
    );

    assert_eq!(
        store.iter_values(),
        vec!["Test", "Test 4", "Test 3", "Test 2"]
    )
}

#[test]
fn integrate_multiple_changes() {
    let mut store: Store<String> = Store::new(2);
    store.append("Test".to_owned());
    store.append("Test 2".to_owned());
    store.insert(1, "Test 3".to_owned());

    store.integrate(
        1,
        vec![
            Block::with_value_and_right(
                0,
                Some(BlockId::new(2, 0)),
                Some(BlockId::new(2, 1)),
                "Test 4".to_owned(),
            ),
            Block::with_value_and_right(
                1,
                Some(BlockId::new(1, 0)),
                Some(BlockId::new(2, 1)),
                "Test 5".to_owned(),
            ),
        ],
    );

    assert_eq!(
        store.iter_values(),
        vec!["Test", "Test 4", "Test 5", "Test 3", "Test 2"]
    )
}
