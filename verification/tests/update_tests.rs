use yata::block::Block;
use yata::delete_set::DeleteSet;
use yata::document::BlockId;
use yata::update::{ApplyError, Update, UpdateBlock, ValidationError};
use yata::Document;

#[test]
fn can_create_update_from_document() {
    let mut doc = Document::new();
    doc.store.append("test".to_owned());

    let document_as_update = Update::from_document(&doc);

    assert_eq!(
        document_as_update.blocks[0],
        (
            doc.client_id,
            vec![UpdateBlock::with_value(None, None, "test".to_owned())]
        )
    );
}

#[test]
fn can_apply_update_to_document() {
    let mut doc = Document::new();
    doc.store.append("test".to_owned());

    let update = Update::from_document(&doc);

    let mut doc2 = Document::new();
    let _ = update.apply(&mut doc2);

    let data: Vec<&String> = doc2.store.iter_values();

    assert_eq!(data, vec!["test"]);
}

#[test]
fn cant_apply_update_with_missing_dependency() {
    let mut doc = Document::with_client_id(1);
    doc.store.append("test".to_owned());

    let no_blocks: Vec<Block<String>> = vec![];
    let update = Update::from_blocks(2, no_blocks, vec![(3, 2..3)]);

    let result = update.apply(&mut doc);

    assert_eq!(result, Err(ApplyError::MissingDependency))
}

#[test]
fn can_merge_two_documents() {
    let mut doc = Document::with_client_id(1);
    doc.store.append("test".to_owned());

    let update = Update::from_document(&doc);

    let mut doc2 = Document::with_client_id(2);
    doc2.store.append("test2".to_owned());
    let _ = update.apply(&mut doc2);

    let data: Vec<&String> = doc2.store.iter_values();

    assert_eq!(data, vec!["test", "test2"]);
}

#[test]
fn can_validate_empty_doc() {
    let valid_update: Update<String> = Update {
        blocks: vec![],
        dependency: vec![],
        deletes: DeleteSet::empty(),
    };

    assert_eq!(valid_update.validate(), Ok(()));
}

#[test]
fn throws_error_if_client_doesnt_exist_range() {
    let valid_update: Update<String> = Update {
        blocks: vec![(1, vec![])],
        dependency: vec![],
        deletes: DeleteSet::empty(),
    };

    assert_eq!(
        valid_update.validate(),
        Err(ValidationError::ClientDoesNotExist(1))
    );
}

#[test]
fn throws_error_if_update_client_doesnt_exist_range() {
    let valid_update: Update<String> = Update {
        blocks: vec![(
            1,
            vec![UpdateBlock::with_value(
                Some(BlockId::new(2, 0)),
                None,
                "Test".to_owned(),
            )],
        )],
        dependency: vec![(1, 0..1)],
        deletes: DeleteSet::empty(),
    };

    assert_eq!(
        valid_update.validate(),
        Err(ValidationError::UpdateOutsideRange(BlockId::new(2, 0)))
    );
}

#[test]
fn throws_error_if_update_outside_range_left() {
    let valid_update: Update<String> = Update {
        blocks: vec![(
            1,
            vec![UpdateBlock::with_value(
                Some(BlockId::new(2, 1)),
                None,
                "Test".to_owned(),
            )],
        )],
        dependency: vec![(1, 0..1), (2, 0..0)],
        deletes: DeleteSet::empty(),
    };

    assert_eq!(
        valid_update.validate(),
        Err(ValidationError::UpdateOutsideRange(BlockId::new(2, 1)))
    );
}

#[test]
fn throws_error_if_update_outside_range_right() {
    let valid_update: Update<String> = Update {
        blocks: vec![(
            1,
            vec![UpdateBlock::with_value(
                None,
                Some(BlockId::new(2, 1)),
                "Test".to_owned(),
            )],
        )],
        dependency: vec![(1, 0..1), (2, 0..0)],
        deletes: DeleteSet::empty(),
    };

    assert_eq!(
        valid_update.validate(),
        Err(ValidationError::UpdateOutsideRange(BlockId::new(2, 1)))
    );
}

#[test]
fn validate_ok_if_valid_update() {
    let valid_update: Update<String> = Update {
        blocks: vec![(
            1,
            vec![UpdateBlock::with_value(
                Some(BlockId::new(2, 0)),
                None,
                "Test".to_owned(),
            )],
        )],
        dependency: vec![(1, 0..1), (2, 0..0)],
        deletes: DeleteSet::empty(),
    };

    assert_eq!(valid_update.validate(), Ok(()));
}
