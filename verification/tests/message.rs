use std::io::Cursor;
use strumyk::{Bitfield, Connection, Message, MsgError, PeerMessage, ReadStep};

fn parsed(bytes: &[u8]) -> Message {
    Message::parse(&mut Cursor::new(bytes)).unwrap()
}

fn written(message: PeerMessage) -> Vec<u8> {
    Connection::new().write_msg(&Message::from(message)).to_vec()
}

#[test]
fn check_waits_for_the_length() {
    let bytes = [0u8, 0, 0];
    let mut input = Cursor::new(&bytes[..]);
    assert!(matches!(Message::check(&mut input), Err(MsgError::Incomplete)));
    assert_eq!(input.position(), 0);
}

#[test]
fn check_waits_for_the_frame() {
    let bytes = [0u8, 0, 0, 2, 5];
    let mut input = Cursor::new(&bytes[..]);
    assert!(matches!(Message::check(&mut input), Err(MsgError::Incomplete)));
    assert_eq!(input.position(), 4);
}

#[test]
fn check_takes_no_negative_length() {
    let bytes = [0xffu8, 0xff, 0xff, 0xff, 5, 6];
    let mut input = Cursor::new(&bytes[..]);
    assert!(matches!(Message::check(&mut input), Err(MsgError::Incomplete)));
    assert_eq!(input.position(), 4);
}

#[test]
fn check_moves_over_the_frame() {
    let bytes = [9u8, 0, 0, 0, 2, 5, 6, 7];
    let mut input = Cursor::new(&bytes[..]);
    input.set_position(1);
    assert!(Message::check(&mut input).is_ok());
    assert_eq!(input.position(), 7);
}

#[test]
fn errors_read_as_text() {
    assert_eq!(MsgError::Incomplete.to_string(), "stream ended early");
    assert_eq!(MsgError::Other("odd".to_string()).to_string(), "odd");
}

#[test]
fn parse_reads_length_id_and_payload() {
    let bytes = [0u8, 0, 0, 6, 5, 1, 2, 3, 4, 5, 77];
    let mut input = Cursor::new(&bytes[..]);
    let message = Message::parse(&mut input).unwrap();
    assert_eq!(input.position(), 10);
    assert_eq!(
        format!("{:?}", message),
        "Message { length: 6, id: 5, payload: Some(b\"\\x01\\x02\\x03\\x04\\x05\") }"
    );
}

#[test]
fn parse_reads_no_short_payload() {
    let bytes = [0u8, 0, 0, 5, 4, 1, 2, 3, 4];
    let mut input = Cursor::new(&bytes[..]);
    let message = Message::parse(&mut input).unwrap();
    assert_eq!(input.position(), 5);
    assert_eq!(format!("{:?}", message), "Message { length: 5, id: 4, payload: None }");
}

#[test]
fn parse_reads_a_negative_length() {
    let message = parsed(&[0xff, 0xff, 0xff, 0xfe, 3]);
    assert_eq!(format!("{:?}", message), "Message { length: -2, id: 3, payload: None }");
}

#[test]
fn parse_takes_the_payload_from_the_sixth_byte_of_the_buffer() {
    let bytes = [0u8, 0, 0, 0, 6, 7, 10, 11, 12, 13, 14];
    let mut input = Cursor::new(&bytes[..]);
    input.set_position(1);
    let message = Message::parse(&mut input).unwrap();
    assert_eq!(input.position(), 11);
    assert_eq!(
        format!("{:?}", message),
        "Message { length: 6, id: 7, payload: Some(b\"\\x07\\n\\x0b\\x0c\\r\") }"
    );
}

#[test]
fn plain_messages_are_understood() {
    assert!(matches!(PeerMessage::from(parsed(&[0, 0, 0, 1, 0])), PeerMessage::Choke));
    assert!(matches!(PeerMessage::from(parsed(&[0, 0, 0, 1, 1])), PeerMessage::Unchoke));
    assert!(matches!(PeerMessage::from(parsed(&[0, 0, 0, 1, 2])), PeerMessage::Interested));
}

#[test]
fn bitfield_is_read_most_significant_bit_first() {
    let message = parsed(&[0, 0, 0, 6, 5, 0b1010_0000, 0, 0, 0, 1]);
    assert!(message.is_understood());
    match PeerMessage::from(message) {
        PeerMessage::Bitfield { bits } => {
            assert_eq!(bits.len(), 40);
            let set: Vec<usize> = (0..40).filter(|i| bits.get(*i)).collect();
            assert_eq!(set, vec![0, 2, 39]);
        }
        other => panic!("{:?}", other),
    }
}

#[test]
fn piece_is_read_with_its_numbers() {
    let message = parsed(&[0, 0, 0, 11, 7, 0, 0, 1, 2, 0, 0, 0x40, 0, 8, 9]);
    assert!(message.is_understood());
    match PeerMessage::from(message) {
        PeerMessage::Piece { index, begin, data } => {
            assert_eq!(index, 258);
            assert_eq!(begin, 16384);
            assert_eq!(&data[..], &[8, 9]);
        }
        other => panic!("{:?}", other),
    }
}

#[test]
fn some_messages_are_not_understood() {
    assert!(!parsed(&[0, 0, 0, 1, 3]).is_understood());
    assert!(!parsed(&[0, 0, 0, 5, 4, 0, 0, 0, 0]).is_understood());
    assert!(!parsed(&[0, 0, 0, 13, 6, 0, 0, 0, 0, 0, 0, 0, 0, 0, 0, 0, 0]).is_understood());
    assert!(!parsed(&[0, 0, 0, 2, 5, 1]).is_understood());
    assert!(!parsed(&[0, 0, 0, 8, 7, 1, 2, 3, 4, 5, 6, 7]).is_understood());
    assert!(parsed(&[0, 0, 0, 9, 7, 1, 2, 3, 4, 5, 6, 7, 8]).is_understood());
}

#[test]
fn messages_are_written_with_their_length() {
    assert_eq!(written(PeerMessage::Choke), vec![0, 0, 0, 1, 0]);
    assert_eq!(written(PeerMessage::Unchoke), vec![0, 0, 0, 1, 1]);
    assert_eq!(written(PeerMessage::Interested), vec![0, 0, 0, 1, 2]);
    assert_eq!(written(PeerMessage::NotInterested), vec![0, 0, 0, 1, 3]);
    let request = PeerMessage::Request { index: 0x0102_0304, begin: 0x4000, length: 16384 };
    assert_eq!(
        written(request),
        vec![0, 0, 0, 13, 6, 1, 2, 3, 4, 0, 0, 0x40, 0, 0, 0, 0x40, 0]
    );
}

#[test]
fn negative_length_is_written_back() {
    let bytes = [0xff, 0xff, 0xff, 0xfe, 3];
    let message = parsed(&bytes);
    assert!(message.is_writable());
    assert_eq!(&message.to_bytes()[..], &bytes);
}

#[test]
fn connection_reads_back_what_was_written() {
    let mut connection = Connection::new();
    let request = PeerMessage::Request { index: 1, begin: 2, length: 3 };
    let mut bytes = written(request);
    bytes.extend(written(PeerMessage::Unchoke));
    connection.receive(&bytes);
    assert!(connection.is_readable());
    match connection.read_msg(None) {
        Ok(ReadStep::Message(message)) => assert_eq!(&message.to_bytes()[..], &bytes[..17]),
        other => panic!("{:?}", other),
    }
    match connection.parse_msg() {
        Ok(Some(message)) => assert!(matches!(PeerMessage::from(message), PeerMessage::Unchoke)),
        other => panic!("{:?}", other),
    }
    assert!(matches!(connection.parse_msg(), Ok(None)));
    assert!(matches!(connection.read_msg(Some(0)), Ok(ReadStep::Closed)));
}

#[test]
fn connection_waits_for_the_rest_of_a_frame() {
    let mut connection = Connection::new();
    assert!(matches!(connection.read_msg(None), Ok(ReadStep::ReceiveMore)));
    connection.receive(&[0, 0, 0]);
    assert!(matches!(connection.read_msg(Some(3)), Ok(ReadStep::ReceiveMore)));
    connection.receive(&[1, 1, 0]);
    match connection.read_msg(Some(3)) {
        Ok(ReadStep::Message(message)) => {
            assert!(matches!(PeerMessage::from(message), PeerMessage::Unchoke))
        }
        other => panic!("{:?}", other),
    }
    assert_eq!(connection.read_msg(Some(0)).unwrap_err(), "Connection reset by peer");
}

#[test]
fn empty_frame_takes_the_next_byte_for_its_id() {
    let mut connection = Connection::new();
    connection.receive(&[0, 0, 0, 0]);
    assert!(!connection.is_readable());
    assert!(connection.can_receive(1));
    assert!(!connection.can_receive(usize::MAX));
    connection.receive(&[1]);
    assert!(connection.is_readable());
    let message = connection.parse_msg().unwrap().unwrap();
    assert_eq!(format!("{:?}", message), "Message { length: 0, id: 1, payload: None }");
    assert!(matches!(connection.read_msg(Some(0)), Err(_)));
}

#[test]
fn bitfields_are_made_and_changed() {
    let mut bits = Bitfield::repeat(true, 11);
    assert_eq!(bits.len(), 11);
    assert!(bits.all());
    bits.set(10, false);
    assert!(!bits.all());
    assert!(!bits.get(10));
    assert!(bits.get(9));
    assert!(Bitfield::repeat(false, 0).all());
    assert!(Bitfield::from_slice(&[0xff, 0xff]).all());
    assert!(!Bitfield::from_slice(&[0xff, 0xfe]).get(15));
}

#[test]
fn what_was_read_is_written_back() {
    let frames: [&[u8]; 3] = [
        &[0, 0, 0, 1, 9],
        &[0, 0, 0, 6, 20, 1, 2, 3, 4, 5],
        &[0, 0, 0, 7, 7, 1, 2, 3, 4, 5, 6],
    ];
    for frame in frames {
        assert_eq!(&parsed(frame).to_bytes()[..], frame);
    }
    assert_eq!(&parsed(&[0, 0, 0, 5, 4, 1, 2, 3, 4]).to_bytes()[..], &[0, 0, 0, 5, 4]);
}

#[test]
fn stream_reads_the_same_however_it_is_cut() {
    let mut bytes = written(PeerMessage::Interested);
    bytes.extend(written(PeerMessage::Request { index: 1, begin: 2, length: 3 }));
    bytes.extend(written(PeerMessage::Choke));
    for size in 1..=bytes.len() {
        let mut connection = Connection::new();
        let mut chunks = bytes.chunks(size);
        let mut received = None;
        let mut read: Vec<Vec<u8>> = vec![];
        loop {
            match connection.read_msg(received) {
                Ok(ReadStep::Message(message)) => {
                    read.push(message.to_bytes().to_vec());
                    received = None;
                }
                Ok(ReadStep::ReceiveMore) => {
                    let chunk = chunks.next().unwrap_or(&[]);
                    connection.receive(chunk);
                    received = Some(chunk.len());
                }
                Ok(ReadStep::Closed) => break,
                Err(error) => panic!("{}", error),
            }
        }
        assert_eq!(read.len(), 3);
        assert_eq!(read[1].len(), 17);
        assert_eq!(read.concat(), bytes);
    }
}
