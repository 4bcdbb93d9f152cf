use bytes::Bytes;
use strumyk::peer::handshake_about;
use strumyk::{
    has_protocol_header, is_sendable, peer_handshake, receive_handshake, send_handshake, Handshake, Info,
    MetaInfo, HANDSHAKE_LEN,
};

fn sent() -> [u8; HANDSHAKE_LEN] {
    let handshake = Handshake {
        info_hash: Bytes::from((1..=20).collect::<Vec<u8>>()),
        peer_id: Bytes::from((101..=120).collect::<Vec<u8>>()),
    };
    assert!(is_sendable(&handshake));
    let bytes = send_handshake(handshake);
    let mut buffer = [0u8; HANDSHAKE_LEN];
    buffer.copy_from_slice(&bytes);
    buffer
}

#[test]
fn handshake_names_the_protocol_first() {
    let buffer = sent();
    assert_eq!(&buffer[..20], b"\x13BitTorrent protocol");
    assert_eq!(&buffer[20..28], &[0u8; 8]);
    assert_eq!(buffer[28], 1);
    assert_eq!(buffer[47], 20);
    assert_eq!(buffer[48], 101);
    assert_eq!(buffer[67], 120);
}

#[test]
fn handshake_of_any_size_is_sent() {
    let bytes = send_handshake(Handshake { info_hash: Bytes::new(), peer_id: Bytes::from(vec![9]) });
    assert_eq!(&bytes[..], b"\x13BitTorrent protocol\0\0\0\0\0\0\0\0\x09");
}

#[test]
fn sent_handshake_is_accepted() {
    assert!(has_protocol_header(&sent()));
}

#[test]
fn other_protocols_are_not_accepted() {
    let mut buffer = sent();
    buffer[0] = 18;
    assert!(!has_protocol_header(&buffer));
    let mut buffer = sent();
    buffer[19] = b'L';
    assert!(!has_protocol_header(&buffer));
    let mut buffer = sent();
    buffer[20] = 1;
    assert!(has_protocol_header(&buffer));
}

#[test]
fn handshake_is_read_one_byte_on() {
    let read = receive_handshake(&sent());
    assert_eq!(read.info_hash[..19], (2..=20).collect::<Vec<u8>>()[..]);
    assert_eq!(read.info_hash[19], 101);
    assert_eq!(read.peer_id[..], (102..=120).collect::<Vec<u8>>()[..]);
}

#[test]
fn own_handshake_holds_the_hash_and_the_own_id() {
    let handshake = handshake_about(vec![1, 2, 3]);
    assert_eq!(&handshake.info_hash[..], &[1, 2, 3]);
    assert_eq!(&handshake.peer_id[..], b"AAAAAAAAAAAAAAAAAAAB");
    let info = Info {
        name: "abc".to_string(),
        piece_length: 16384,
        pieces: vec![7u8; 20],
        length: Some(-5),
        path: None,
    };
    let handshake = peer_handshake(&MetaInfo { announce: String::new(), info });
    assert_eq!(handshake.info_hash[..4], [0xda, 0x55, 0x15, 0xbf]);
    assert_eq!(handshake.info_hash.len(), 20);
}
