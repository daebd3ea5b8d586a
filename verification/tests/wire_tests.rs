use yata::delete_set::DeleteSet;
use yata::document::BlockId;
use yata::update::{Content, Update, UpdateBlock};
use yata::wire::{decode, encode, read_u64, write_u64, MalformedEncoding};
use yata::Document;

#[test]
fn validate_apply_serialized_update() {
    let mut document = Document::with_client_id(1);
    document.store.append("Test".to_owned());
    document.store.append("Test 2".to_owned());
    document.store.append("Test 3".to_owned());
    document.store.delete_range(0, 2);

    let update = Update::from_document(&document);

    let encoded_update = encode(&update);
    let (decoded_update, _size): (Update<String>, usize) = decode(&encoded_update).unwrap();

    assert_eq!(update, decoded_update);
    assert_eq!(encoded_update.len(), 37);
}

#[test]
fn snapshot_bytes_are_laid_out_field_by_field() {
    let mut document = Document::with_client_id(1);
    document.store.append("Test".to_owned());
    document.store.append("Test 2".to_owned());
    document.store.append("Test 3".to_owned());
    document.store.delete_range(0, 2);

    let encoded = encode(&Update::from_document(&document));

    let mut expected: Vec<u8> = vec![
        1, 1, 0, 3, // one range: replica 1, clocks 0..3
        1, 1, 3, // one entry: replica 1, three blocks
        0, 0, 1, 1, // no origins, tombstone of length 1
        1, 1, 0, 0, 1, 1, // left origin (1, 0), tombstone of length 1
        1, 1, 1, 0, 0, 1, 6, // left origin (1, 1), one item of six bytes
    ];
    expected.extend_from_slice(b"Test 3");
    expected.extend_from_slice(&[1, 1, 2, 0, 1, 1, 1]); // tombstones of replica 1: (0, 1), (1, 1)
    assert_eq!(encoded, expected);
}

#[test]
fn integers_are_written_as_bincode_writes_them() {
    for value in [0u64, 1, 250, 251, 300, 65535, 65536, 70000, u32::MAX as u64, 1 << 40, u64::MAX] {
        let mut out = vec![7u8];
        write_u64(&mut out, value);
        let mut expected = vec![7u8];
        expected.extend(bincode::encode_to_vec(value, bincode::config::standard()).unwrap());
        assert_eq!(out, expected);
        assert_eq!(read_u64(&out, 1), Some((value, out.len())));
    }
}

#[test]
fn integer_forms() {
    let mut out = Vec::new();
    write_u64(&mut out, 250);
    assert_eq!(out, vec![250]);
    let mut out = Vec::new();
    write_u64(&mut out, 300);
    assert_eq!(out, vec![251, 44, 1]);
    let mut out = Vec::new();
    write_u64(&mut out, 70000);
    assert_eq!(out, vec![252, 0x70, 0x11, 0x01, 0x00]);
    let mut out = Vec::new();
    write_u64(&mut out, 1 << 40);
    assert_eq!(out, vec![253, 0, 0, 0, 0, 0, 1, 0, 0]);
}

#[test]
fn integers_need_not_be_in_shortest_form() {
    assert_eq!(read_u64(&[251, 3, 0, 9], 0), Some((3, 3)));
}

#[test]
fn malformed_integers_are_refused() {
    assert_eq!(read_u64(&[], 0), None);
    assert_eq!(read_u64(&[251, 3], 0), None);
    assert_eq!(read_u64(&[252, 1, 2, 3], 0), None);
    assert_eq!(read_u64(&[253, 1, 2, 3, 4, 5, 6, 7], 0), None);
    assert_eq!(read_u64(&[254, 0, 0, 0, 0, 0, 0, 0, 0, 0, 0, 0, 0, 0, 0, 0, 0], 0), None);
    assert_eq!(read_u64(&[255], 0), None);
}

#[test]
fn round_trip_of_an_update_with_every_kind_of_field() {
    let update: Update<String> = Update {
        dependency: vec![(1, 0..2), (70000, 5..300)],
        blocks: vec![
            (
                1,
                vec![
                    UpdateBlock::with_value(None, Some(BlockId::new(9, 1 << 40)), "a".to_owned()),
                    UpdateBlock {
                        origin_left: Some(BlockId::new(1, 0)),
                        origin_right: None,
                        value: Content::Deleted(4),
                    },
                ],
            ),
            (
                70000,
                vec![UpdateBlock {
                    origin_left: None,
                    origin_right: None,
                    value: Content::Value(vec!["héllo".to_owned(), "".to_owned()]),
                }],
            ),
        ],
        deletes: DeleteSet { deletes: vec![(1, vec![(0, 1), (300, 2)]), (2, vec![])] },
    };

    let encoded = encode(&update);
    assert_eq!(decode::<String>(&encoded), Ok((update.clone(), encoded.len())));

    let mut longer = encoded.clone();
    longer.push(99);
    assert_eq!(decode::<String>(&longer), Ok((update, encoded.len())));
}

#[test]
fn round_trip_of_optional_items() {
    let update: Update<Option<String>> = Update {
        dependency: vec![(1, 0..1)],
        blocks: vec![(
            1,
            vec![UpdateBlock {
                origin_left: None,
                origin_right: None,
                value: Content::Value(vec![None, Some("x".to_owned())]),
            }],
        )],
        deletes: DeleteSet::empty(),
    };
    let encoded = encode(&update);
    assert_eq!(encoded, vec![1, 1, 0, 1, 1, 1, 1, 0, 0, 0, 2, 0, 1, 1, b'x', 0]);
    assert_eq!(decode::<Option<String>>(&encoded), Ok((update, encoded.len())));
}

#[test]
fn malformed_updates_are_refused() {
    assert_eq!(decode::<String>(&[]), Err(MalformedEncoding));
    // three sequences are needed
    assert_eq!(decode::<String>(&[0, 0]), Err(MalformedEncoding));
    // a content kind other than 0 and 1
    assert_eq!(decode::<String>(&[0, 1, 1, 1, 0, 0, 2, 0, 0]), Err(MalformedEncoding));
    // an origin tag other than 0 and 1
    assert_eq!(decode::<String>(&[0, 1, 1, 1, 2, 0, 1, 0, 0]), Err(MalformedEncoding));
    // an item that is not UTF-8
    assert_eq!(decode::<String>(&[0, 1, 1, 1, 0, 0, 0, 1, 1, 0xff, 0]), Err(MalformedEncoding));
    // an item that is cut short
    assert_eq!(decode::<String>(&[0, 1, 1, 1, 0, 0, 0, 1, 5, b'a', 0]), Err(MalformedEncoding));
    // more blocks announced than there are
    assert_eq!(decode::<String>(&[0, 1, 1, 3, 0, 0, 1, 1]), Err(MalformedEncoding));
}

#[test]
fn the_empty_update_is_three_empty_sequences() {
    let update: Update<String> =
        Update { dependency: vec![], blocks: vec![], deletes: DeleteSet::empty() };
    assert_eq!(encode(&update), vec![0, 0, 0]);
    assert_eq!(decode::<String>(&[0, 0, 0]), Ok((update, 3)));
}

fn expected_integer(bytes: &[u8]) -> Option<(u64, usize)> {
    let first = *bytes.first()?;
    let width = match first {
        0..=250 => return Some((first as u64, 1)),
        251 => 2,
        252 => 4,
        253 => 8,
        _ => return None,
    };
    if bytes.len() < 1 + width {
        return None;
    }
    let mut value: u64 = 0;
    for i in 0..width {
        value |= (bytes[1 + i] as u64) << (8 * i);
    }
    Some((value, 1 + width))
}

#[test]
fn integers_are_read_for_every_marker_and_length() {
    let mut seed: u64 = 0x9e3779b97f4a7c15;
    for first in 0..=255u8 {
        for length in 0..=10usize {
            let mut bytes = vec![first];
            for _ in 0..length {
                seed = seed.wrapping_mul(6364136223846793005).wrapping_add(1442695040888963407);
                bytes.push((seed >> 33) as u8);
            }
            assert_eq!(read_u64(&bytes, 0), expected_integer(&bytes));
            if let Some((value, used)) = expected_integer(&bytes) {
                let mut padded = vec![0u8; 3];
                padded.extend_from_slice(&bytes);
                assert_eq!(read_u64(&padded, 3), Some((value, 3 + used)));
            }
        }
    }
}

#[test]
fn integers_are_written_in_the_shortest_form() {
    for value in [0u64, 7, 250, 251, 252, 255, 256, 65535, 65536, 1 << 31, (1 << 32) - 1, 1 << 32, u64::MAX - 1, u64::MAX] {
        let mut out = Vec::new();
        write_u64(&mut out, value);
        let width = if value <= 250 {
            1
        } else if value <= 0xffff {
            3
        } else if value <= 0xffff_ffff {
            5
        } else {
            9
        };
        assert_eq!(out.len(), width);
        assert_eq!(expected_integer(&out), Some((value, width)));
    }
}
