use bytes::Bytes;
use strumyk::{BlockStorage, Info};

const DIGEST_OF_PAIRS: [u8; 20] = [
    0xc6, 0x5a, 0x4f, 0x0c, 0x38, 0xf9, 0x59, 0x6b, 0xe5, 0xa3, 0x47, 0x19, 0x4b, 0xf3, 0x81, 0x37,
    0x26, 0xc7, 0x00, 0x2e,
];
const DIGEST_OF_DIGITS: [u8; 20] = [
    0x87, 0xac, 0xec, 0x17, 0xcd, 0x9d, 0xcd, 0x20, 0xa7, 0x16, 0xcc, 0x2c, 0xf6, 0x74, 0x17, 0xb7,
    0x1c, 0x8a, 0x70, 0x16,
];

/// Two pieces: one of sixteen pairs of bytes, and a last one of one block.
fn storage() -> BlockStorage {
    let mut pieces = DIGEST_OF_PAIRS.to_vec();
    pieces.extend(DIGEST_OF_DIGITS);
    BlockStorage::new(Info {
        name: "abc".to_string(),
        piece_length: 262144,
        pieces,
        length: Some(262144 + 10),
        path: None,
    })
}

fn pair(block: usize) -> Bytes {
    Bytes::from(vec![block as u8, block as u8])
}

#[test]
fn piece_is_completed_by_its_last_block() {
    let mut storage = storage();
    assert!(!storage.knows_progress(0));
    for block in 0..15 {
        storage.insert_block(0, block, pair(block));
        assert!(storage.knows_progress(0));
        assert!(!storage.is_completed(0));
    }
    storage.insert_block(0, 15, pair(15));
    assert!(storage.is_completed(0));
}

#[test]
fn last_piece_waits_for_fewer_blocks() {
    let mut storage = storage();
    storage.insert_block(1, 3, Bytes::from_static(b"x"));
    assert!(!storage.is_completed(1));
    storage.insert_block(1, 0, Bytes::from_static(b"0123456789"));
    assert!(storage.is_completed(1));
}

#[test]
fn genuine_piece_is_flushed() {
    let mut storage = storage();
    for block in (0..16).rev() {
        storage.insert_block(0, block, pair(block));
    }
    assert!(storage.is_comparable(0));
    assert_eq!(storage.digest_of_piece(0), DIGEST_OF_PAIRS.to_vec());
    let file = storage.try_flush_piece(0).unwrap().unwrap();
    assert_eq!(file.filename, "piece0");
    for block in 0..16 {
        assert_eq!(file.blocks[block], pair(block));
    }
    assert!(storage.is_completed(0));
    assert!(!storage.is_comparable(0));
    assert!(storage.try_flush_piece(0).is_none());
}

#[test]
fn flush_piece_hands_over_the_last_piece() {
    let mut storage = storage();
    storage.insert_block(1, 0, Bytes::from_static(b"0123456789"));
    let file = storage.flush_piece(1).unwrap();
    assert_eq!(file.filename, "piece1");
    assert_eq!(&file.blocks[0][..], b"0123456789");
    assert!(file.blocks[1..].iter().all(|block| block.is_empty()));
}

#[test]
fn incomplete_piece_is_not_flushed() {
    let mut storage = storage();
    storage.insert_block(0, 0, pair(0));
    assert_eq!(storage.flush_piece(0).unwrap_err(), "Flushing incomplete piece");
    assert_eq!(storage.try_flush_piece(0).unwrap().unwrap_err(), "Flushing incomplete piece");
    assert!(storage.is_comparable(0));
}

#[test]
fn piece_that_differs_is_not_flushed() {
    let mut storage = storage();
    storage.insert_block(1, 0, Bytes::from_static(b"0123456780"));
    assert!(storage.is_completed(1));
    assert!(storage.try_flush_piece(1).is_none());
    storage.insert_block(1, 0, Bytes::from_static(b"0123456789"));
    assert!(storage.try_flush_piece(1).unwrap().is_ok());
}

#[test]
fn digest_is_compared_with_that_of_the_torrent() {
    let mut storage = storage();
    assert!(storage.is_digest_of(0, &DIGEST_OF_PAIRS.to_vec()));
    assert!(!storage.is_digest_of(1, &DIGEST_OF_PAIRS.to_vec()));
    assert!(!storage.is_digest_of(0, &vec![]));
    storage.insert_block(0, 4, pair(4));
    assert!(storage.flush_piece_with_digest(0, &DIGEST_OF_DIGITS.to_vec()).is_none());
    let file = storage.flush_piece_with_digest(0, &DIGEST_OF_PAIRS.to_vec()).unwrap();
    assert_eq!(file.blocks[4], pair(4));
}

#[test]
fn piece_without_digest_is_not_comparable() {
    let mut storage = storage();
    storage.insert_block(2, 0, pair(0));
    assert!(!storage.is_comparable(2));
    storage.insert_block(u32::MAX, 0, pair(0));
    assert!(!storage.is_comparable(u32::MAX));
}

#[test]
fn blocks_come_in_any_order_and_replace_each_other() {
    let mut one = storage();
    let mut two = storage();
    one.insert_block(0, 1, pair(1));
    one.insert_block(0, 2, pair(9));
    one.insert_block(0, 2, pair(2));
    two.insert_block(0, 2, pair(2));
    two.insert_block(0, 1, pair(1));
    assert_eq!(one.digest_of_piece(0), two.digest_of_piece(0));
}

#[test]
fn flushed_piece_starts_over() {
    let mut storage = storage();
    for block in 0..16 {
        storage.insert_block(0, block, pair(block));
    }
    storage.try_flush_piece(0).unwrap().unwrap();
    storage.insert_block(0, 7, pair(7));
    assert!(!storage.is_completed(0));
}

#[test]
fn other_pieces_are_not_touched() {
    let mut storage = storage();
    storage.insert_block(1, 0, Bytes::from_static(b"0123456789"));
    storage.insert_block(0, 0, pair(0));
    assert!(storage.is_completed(1));
    assert!(!storage.is_completed(0));
    storage.flush_piece(1).unwrap();
    assert!(storage.is_comparable(0));
}

#[test]
fn progress_of_an_unsized_torrent_is_not_known() {
    let mut storage = BlockStorage::new(Info {
        name: String::new(),
        piece_length: 1,
        pieces: vec![0; 40],
        length: None,
        path: None,
    });
    storage.insert_block(0, 0, pair(0));
    storage.insert_block(1, 0, pair(0));
    assert!(storage.knows_progress(0));
    assert!(!storage.knows_progress(1));
    assert!(storage.try_flush_piece(1).is_none());
}
