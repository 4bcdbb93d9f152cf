use bytes::Bytes;
use strumyk::{
    peer_handler, Connection, Info, Message, MetaInfo, PeerAction, PeerCommand, PeerEvent,
    PeerMessage, PeerState, PeerUpdate,
};

/// One piece, of one block: `0123456789`.
fn state(piece_length: i64) -> PeerState {
    let digest = [
        0x87, 0xac, 0xec, 0x17, 0xcd, 0x9d, 0xcd, 0x20, 0xa7, 0x16, 0xcc, 0x2c, 0xf6, 0x74, 0x17,
        0xb7, 0x1c, 0x8a, 0x70, 0x16,
    ];
    let info = Info {
        name: "abc".to_string(),
        piece_length,
        pieces: digest.to_vec(),
        length: Some(10),
        path: None,
    };
    PeerState::new(7, MetaInfo { announce: String::new(), info })
}

fn read(bytes: &[u8]) -> PeerEvent {
    let mut connection = Connection::new();
    connection.receive(bytes);
    PeerEvent::Read(Some(connection.parse_msg().unwrap().unwrap()))
}

fn piece(index: u8, begin: u32, data: &[u8]) -> PeerEvent {
    let mut bytes = vec![0, 0, 0, 9 + data.len() as u8, 7, 0, 0, 0, index];
    bytes.extend(begin.to_be_bytes());
    bytes.extend(data);
    read(&bytes)
}

fn wire(action: &PeerAction) -> Vec<u8> {
    match action {
        PeerAction::Write(message) => message.to_bytes().to_vec(),
        other => panic!("{:?}", other),
    }
}

fn downloaded(state: &mut PeerState) -> u32 {
    let actions = peer_handler(state, PeerEvent::Tick).unwrap();
    assert_eq!(actions.len(), 1);
    match actions[0] {
        PeerAction::Update(PeerUpdate::Downloaded { peer_id: 7, bytes }) => bytes,
        ref other => panic!("{:?}", other),
    }
}

#[test]
fn nothing_is_done_when_closed_or_choked() {
    let mut state = state(16384);
    assert!(peer_handler(&mut state, PeerEvent::Read(None)).unwrap().is_empty());
    assert!(peer_handler(&mut state, read(&[0, 0, 0, 1, 0])).unwrap().is_empty());
}

#[test]
fn unchoking_is_told() {
    let actions = peer_handler(&mut state(16384), read(&[0, 0, 0, 1, 1])).unwrap();
    assert_eq!(actions.len(), 1);
    assert!(matches!(actions[0], PeerAction::Update(PeerUpdate::Unchoked { peer_id: 7 })));
}

#[test]
fn bitfield_is_told_and_answered_with_interest() {
    let event = read(&[0, 0, 0, 6, 5, 0x80, 0, 0, 0, 0]);
    let actions = peer_handler(&mut state(16384), event).unwrap();
    assert_eq!(actions.len(), 2);
    match &actions[0] {
        PeerAction::Update(PeerUpdate::Bitfield { peer_id: 7, bits }) => {
            assert_eq!(bits.len(), 40);
            assert!(bits.get(0));
            assert!(!bits.get(1));
        }
        other => panic!("{:?}", other),
    }
    assert_eq!(wire(&actions[1]), vec![0, 0, 0, 1, 2]);
}

#[test]
fn peer_gives_up_on_what_it_has_no_use_for() {
    assert!(peer_handler(&mut state(16384), read(&[0, 0, 0, 1, 2])).is_none());
    assert!(peer_handler(&mut state(16384), read(&[0, 0, 0, 1, 3])).is_none());
    assert!(peer_handler(&mut state(16384), read(&[0, 0, 0, 5, 4, 0, 0, 0, 0])).is_none());
    let event = PeerEvent::Read(Some(Message::from(PeerMessage::NotInterested)));
    assert!(peer_handler(&mut state(16384), event).is_none());
}

#[test]
fn completed_piece_is_stored_and_told() {
    let mut state = state(16384);
    let actions = peer_handler(&mut state, piece(0, 0, b"0123456789")).unwrap();
    assert_eq!(actions.len(), 2);
    match &actions[0] {
        PeerAction::Store(file) => {
            assert_eq!(file.filename, "piece0");
            assert_eq!(&file.blocks.concat()[..], b"0123456789");
        }
        other => panic!("{:?}", other),
    }
    match actions[1] {
        PeerAction::Update(PeerUpdate::FinishedPiece { peer_id, index }) => {
            assert_eq!((peer_id, index), (7, 0))
        }
        ref other => panic!("{:?}", other),
    }
    assert_eq!(downloaded(&mut state), 10);
}

#[test]
fn piece_that_differs_is_given_up_on() {
    let mut state = state(16384);
    assert!(peer_handler(&mut state, piece(0, 0, b"0123456780")).is_none());
    assert_eq!(downloaded(&mut state), 10);
}

#[test]
fn piece_is_finished_only_with_its_digest() {
    let mut state = state(16384);
    state.store_block(0, 16384, Bytes::from_static(b"x"));
    assert!(state.finish_piece(0, &vec![1, 2, 3]).is_none());
    let digest = vec![
        0x87, 0xac, 0xec, 0x17, 0xcd, 0x9d, 0xcd, 0x20, 0xa7, 0x16, 0xcc, 0x2c, 0xf6, 0x74, 0x17,
        0xb7, 0x1c, 0x8a, 0x70, 0x16,
    ];
    let actions = state.finish_piece(0, &digest).unwrap();
    assert_eq!(actions.len(), 2);
    match &actions[0] {
        PeerAction::Store(file) => assert_eq!(&file.blocks[1][..], b"x"),
        other => panic!("{:?}", other),
    }
}

#[test]
fn block_of_an_unfinished_piece_is_only_counted() {
    let mut state = state(16384);
    assert!(peer_handler(&mut state, piece(3, 16384 * 15, b"abc")).unwrap().is_empty());
    assert!(peer_handler(&mut state, piece(3, 16384 * 15 + 1, b"")).unwrap().is_empty());
    assert_eq!(downloaded(&mut state), 3);
}

#[test]
fn block_beyond_the_sixteenth_is_given_up_on() {
    let mut state = state(16384);
    assert!(peer_handler(&mut state, piece(0, 16384 * 16, b"abc")).is_none());
    assert_eq!(downloaded(&mut state), 0);
}

#[test]
fn downloaded_bytes_are_told_once() {
    let mut state = state(16384);
    peer_handler(&mut state, piece(3, 0, b"abc")).unwrap();
    peer_handler(&mut state, piece(3, 16384, b"defg")).unwrap();
    assert_eq!(downloaded(&mut state), 7);
    assert_eq!(downloaded(&mut state), 0);
}

#[test]
fn piece_is_requested_block_after_block() {
    let command = PeerEvent::Command(PeerCommand::RequestPiece { index: 258 });
    let actions = peer_handler(&mut state(40000), command).unwrap();
    assert_eq!(actions.len(), 3);
    for (i, action) in actions.iter().enumerate() {
        let begin = (i as u32 * 16384).to_be_bytes();
        let mut bytes = vec![0, 0, 0, 13, 6, 0, 0, 1, 2];
        bytes.extend(begin);
        bytes.extend([0, 0, 0x40, 0]);
        assert_eq!(wire(action), bytes);
    }
}

#[test]
fn requests_cover_a_piece_of_full_blocks_and_one_more() {
    let command = PeerEvent::Command(PeerCommand::RequestPiece { index: 0 });
    assert_eq!(peer_handler(&mut state(32768), command).unwrap().len(), 3);
}

#[test]
fn request_of_a_piece_of_negative_length() {
    let command = PeerEvent::Command(PeerCommand::RequestPiece { index: 0 });
    assert!(peer_handler(&mut state(-16384), command).unwrap().is_empty());
    let command = PeerEvent::Command(PeerCommand::RequestPiece { index: 0 });
    assert!(peer_handler(&mut state(-32768), command).is_none());
}

#[test]
fn request_of_too_many_blocks_is_given_up_on() {
    let command = PeerEvent::Command(PeerCommand::RequestPiece { index: 0 });
    assert!(peer_handler(&mut state(1 << 32), command).is_none());
    let command = PeerEvent::Command(PeerCommand::RequestPiece { index: 0 });
    assert_eq!(peer_handler(&mut state((1 << 32) - 1), command).unwrap().len(), 262144);
}

#[test]
fn exit_stops() {
    let actions = peer_handler(&mut state(1), PeerEvent::Command(PeerCommand::Exit)).unwrap();
    assert_eq!(actions.len(), 1);
    assert!(matches!(actions[0], PeerAction::Stop));
}

#[test]
fn piece_of_sixteen_blocks_is_finished_by_its_last_block() {
    let digests = vec![
        0xc6, 0x5a, 0x4f, 0x0c, 0x38, 0xf9, 0x59, 0x6b, 0xe5, 0xa3, 0x47, 0x19, 0x4b, 0xf3, 0x81,
        0x37, 0x26, 0xc7, 0x00, 0x2e, 0, 0, 0, 0, 0, 0, 0, 0, 0, 0, 0, 0, 0, 0, 0, 0, 0, 0, 0, 0,
    ];
    let info = Info {
        name: "abc".to_string(),
        piece_length: 262144,
        pieces: digests,
        length: Some(262144 + 1),
        path: None,
    };
    let mut state = PeerState::new(7, MetaInfo { announce: String::new(), info });
    for block in [3u32, 0, 15, 1, 2, 14, 13, 12, 11, 10, 9, 8, 7, 6, 5] {
        let event = piece(0, block * 16384, &[block as u8, block as u8]);
        assert!(peer_handler(&mut state, event).unwrap().is_empty());
    }
    let actions = peer_handler(&mut state, piece(0, 4 * 16384, &[4, 4])).unwrap();
    assert_eq!(actions.len(), 2);
    match &actions[0] {
        PeerAction::Store(file) => {
            let content: Vec<u8> = (0..32).map(|i| i / 2).collect();
            assert_eq!(file.blocks.concat(), content);
        }
        other => panic!("{:?}", other),
    }
    assert!(matches!(
        actions[1],
        PeerAction::Update(PeerUpdate::FinishedPiece { peer_id: 7, index: 0 })
    ));
    assert_eq!(downloaded(&mut state), 32);
}

#[test]
fn told_bytes_add_up_to_what_came_in() {
    let mut state = state(16384);
    let mut told = 0;
    let mut brought = 0;
    for (i, data) in [&b"abc"[..], b"", b"defgh", b"i"].iter().enumerate() {
        peer_handler(&mut state, piece(3, 16384 * i as u32, data)).unwrap();
        brought += data.len() as u32;
        if i % 2 == 1 {
            told += downloaded(&mut state);
            assert_eq!(told, brought);
        }
    }
    assert_eq!(told, 9);
}

#[test]
fn nothing_but_exit_stops() {
    let mut state = state(16384);
    let request = PeerEvent::Command(PeerCommand::RequestPiece { index: 0 });
    for event in [PeerEvent::Read(None), PeerEvent::Tick, request, piece(0, 0, b"0123456789")] {
        let actions = peer_handler(&mut state, event).unwrap();
        assert!(!actions.iter().any(|action| matches!(action, PeerAction::Stop)));
    }
}
