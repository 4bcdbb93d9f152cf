//! The messages that two peers exchange, and their frames on the wire.
use crate::bits::{bits_of_bytes, Bitfield};
use crate::buffer::{
    be_bytes, be_signed, be_value, buffer_freeze, buffer_new, buffer_put_i32, buffer_put_slice,
    buffer_put_u32, buffer_put_u8, buffer_view, bytes_as_slice, bytes_copy_from_slice,
    bytes_get_u32, bytes_len, bytes_view, cursor_advance, cursor_bytes, cursor_get_i32,
    cursor_get_ref, cursor_get_u8, cursor_position, cursor_remaining, lemma_be_round_trip,
    to_unsigned,
};
use bytes::Bytes;
use std::io::Cursor;
use vstd::prelude::*;
use vstd::string::*;

verus! {

/// Why no message could be read.
#[derive(Debug)]
pub enum MsgError {
    /// Not enough data is available to parse a message
    Incomplete,
    /// Invalid message encoding
    Other(String),
}

impl MsgError {
    /// The error in words.
    pub fn to_string(&self) -> (r: String)
        ensures
            self matches MsgError::Incomplete ==> r@ == "stream ended early"@,
            self matches MsgError::Other(err) ==> r@ == err@,
    {
        match self {
            MsgError::Incomplete => String::from_str("stream ended early"),
            MsgError::Other(err) => err.clone(),
        }
    }
}

/// A message as it is framed on the wire: its length, which counts the id and
/// the payload, its id and its payload.
#[derive(Debug)]
pub struct Message {
    length: i32,
    id: u8,
    payload: Option<Bytes>,
}

/// What a `Message` stands for.
#[verifier::ext_equal]
pub struct MessageView {
    pub length: i32,
    pub id: u8,
    pub payload: Option<Seq<u8>>,
}

impl View for Message {
    type V = MessageView;

    closed spec fn view(&self) -> MessageView {
        MessageView {
            length: self.length,
            id: self.id,
            payload: match self.payload {
                Some(payload) => Some(bytes_view(payload)),
                None => None,
            },
        }
    }
}

/// The bytes of a message on the wire.
pub open spec fn message_bytes(message: MessageView) -> Seq<u8> {
    let payload = match message.payload {
        Some(payload) => payload,
        None => Seq::empty(),
    };
    be_bytes(to_unsigned(message.length as int)).push(message.id) + payload
}

/// Whether all of the frame that starts at `at` is there: four bytes that spell
/// its length, and that many bytes behind them.
pub open spec fn frame_is_complete(buffer: Seq<u8>, at: int) -> bool {
    &&& at + 4 <= buffer.len()
    &&& 0 <= be_signed(buffer, at) <= buffer.len() - at - 4
}

/// Whether a message can be read at `at`: an id is there, and where a payload is
/// read it is there, with a length that leaves room for the frame's own.
pub open spec fn message_is_readable(buffer: Seq<u8>, at: int) -> bool {
    &&& at + 5 <= buffer.len()
    &&& be_signed(buffer, at) > 5 ==> {
        &&& be_signed(buffer, at) + 4 <= i32::MAX
        &&& be_signed(buffer, at) <= buffer.len() - at - 4
    }
}

/// The message that is read at `at`. Only a length above five brings a payload,
/// and the payload is taken from the sixth byte of the buffer on.
pub open spec fn message_at(buffer: Seq<u8>, at: int) -> MessageView {
    let length = be_signed(buffer, at);
    MessageView {
        length: length as i32,
        id: buffer[at + 4],
        payload: if length > 5 {
            Some(buffer.subrange(5, length + 4))
        } else {
            None
        },
    }
}

/// The number of bytes that reading the message at `at` moves over.
pub open spec fn message_extent(buffer: Seq<u8>, at: int) -> int {
    let length = be_signed(buffer, at);
    if length > 5 {
        length + 4
    } else {
        5
    }
}

impl Message {
    /// Moves over the frame at the position of `input`, or says that it is not
    /// all there yet.
    pub fn check(input: &mut Cursor<&[u8]>) -> (r: Result<(), MsgError>)
        ensures
            cursor_bytes(*final(input)) == cursor_bytes(*old(input)),
            ({
                let buffer = cursor_bytes(*old(input));
                let at = cursor_position(*old(input)) as int;
                if at + 4 > buffer.len() {
                    &&& r == Err::<(), MsgError>(MsgError::Incomplete)
                    &&& cursor_position(*final(input)) == at
                } else if !frame_is_complete(buffer, at) {
                    &&& r == Err::<(), MsgError>(MsgError::Incomplete)
                    &&& cursor_position(*final(input)) == at + 4
                } else {
                    &&& r == Ok::<(), MsgError>(())
                    &&& cursor_position(*final(input)) == at + 4 + be_signed(buffer, at)
                }
            }),
    {
        if cursor_remaining(input) < 4 {
            return Err(MsgError::Incomplete);
        }
        let len = cursor_get_i32(input);
        if len < 0 || cursor_remaining(input) < len as usize {
            return Err(MsgError::Incomplete);
        }
        cursor_advance(input, len as usize);
        Ok(())
    }

    /// Reads the message at the position of `input` and moves behind it.
    pub fn parse(input: &mut Cursor<&[u8]>) -> (r: Result<Message, MsgError>)
        requires
            message_is_readable(
                cursor_bytes(*old(input)),
                cursor_position(*old(input)) as int,
            ),
        ensures
            cursor_bytes(*final(input)) == cursor_bytes(*old(input)),
            ({
                let buffer = cursor_bytes(*old(input));
                let at = cursor_position(*old(input)) as int;
                &&& r is Ok
                &&& r->Ok_0@ == message_at(buffer, at)
                &&& cursor_position(*final(input)) == at + message_extent(buffer, at)
            }),
    {
        let length = cursor_get_i32(input);
        let id = cursor_get_u8(input);
        let payload: Option<Bytes>;
        if length > 5 {
            let bytes = bytes_copy_from_slice(
                vstd::slice::slice_subrange(cursor_get_ref(input), 5, (length + 4) as usize),
            );
            cursor_advance(input, bytes_len(&bytes));
            payload = Some(bytes);
        } else {
            payload = None;
        }
        Ok(Message { length, id, payload })
    }
}

/// What a message says.
#[derive(Debug)]
pub enum PeerMessage {
    Choke,
    Unchoke,
    Interested,
    NotInterested,
    Have(u32),
    Bitfield { bits: Bitfield },
    Request { index: u32, begin: u32, length: u32 },
    Piece { index: u32, begin: u32, data: Bytes },
    Cancel { index: u32, begin: u32, length: u32 },
}

/// What a `PeerMessage` stands for.
#[verifier::ext_equal]
pub enum PeerMessageView {
    Choke,
    Unchoke,
    Interested,
    NotInterested,
    Have(u32),
    Bitfield { bits: Seq<bool> },
    Request { index: u32, begin: u32, length: u32 },
    Piece { index: u32, begin: u32, data: Seq<u8> },
    Cancel { index: u32, begin: u32, length: u32 },
}

impl View for PeerMessage {
    type V = PeerMessageView;

    open spec fn view(&self) -> PeerMessageView {
        match *self {
            PeerMessage::Choke => PeerMessageView::Choke,
            PeerMessage::Unchoke => PeerMessageView::Unchoke,
            PeerMessage::Interested => PeerMessageView::Interested,
            PeerMessage::NotInterested => PeerMessageView::NotInterested,
            PeerMessage::Have(index) => PeerMessageView::Have(index),
            PeerMessage::Bitfield { bits } => PeerMessageView::Bitfield { bits: bits@ },
            PeerMessage::Request { index, begin, length } => PeerMessageView::Request {
                index,
                begin,
                length,
            },
            PeerMessage::Piece { index, begin, data } => PeerMessageView::Piece {
                index,
                begin,
                data: bytes_view(data),
            },
            PeerMessage::Cancel { index, begin, length } => PeerMessageView::Cancel {
                index,
                begin,
                length,
            },
        }
    }
}

/// Whether `message` is of a kind that is understood, with the payload that its
/// kind asks for: any bits for a bitfield that can be counted, two numbers for
/// a piece.
pub open spec fn is_understood(message: MessageView) -> bool {
    ||| message.id == 0
    ||| message.id == 1
    ||| message.id == 2
    ||| message.id == 5 && message.payload is Some && message.payload->0.len() * 8 <= usize::MAX / 8
    ||| message.id == 7 && message.payload is Some && message.payload->0.len() >= 8
}

/// What an understood message says.
pub open spec fn meaning(message: MessageView) -> PeerMessageView {
    let payload = message.payload->0;
    if message.id == 0 {
        PeerMessageView::Choke
    } else if message.id == 1 {
        PeerMessageView::Unchoke
    } else if message.id == 2 {
        PeerMessageView::Interested
    } else if message.id == 5 {
        PeerMessageView::Bitfield { bits: bits_of_bytes(payload) }
    } else {
        PeerMessageView::Piece {
            index: be_value(payload, 0) as u32,
            begin: be_value(payload, 4) as u32,
            data: payload.skip(8),
        }
    }
}

/// Whether there is a message to send that says `said`.
pub open spec fn can_be_said(said: PeerMessageView) -> bool {
    ||| said is Choke
    ||| said is Unchoke
    ||| said is Interested
    ||| said is NotInterested
    ||| said is Request
}

/// The message to send that says `said`.
pub open spec fn message_saying(said: PeerMessageView) -> MessageView {
    match said {
        PeerMessageView::Choke => MessageView { id: 0, length: 1, payload: None },
        PeerMessageView::Unchoke => MessageView { id: 1, length: 1, payload: None },
        PeerMessageView::Interested => MessageView { id: 2, length: 1, payload: None },
        PeerMessageView::NotInterested => MessageView { id: 3, length: 1, payload: None },
        PeerMessageView::Request { index, begin, length } => MessageView {
            id: 6,
            length: 13,
            payload: Some(
                be_bytes(index as int) + be_bytes(begin as int) + be_bytes(length as int),
            ),
        },
        _ => arbitrary(),
    }
}

impl PeerMessage {
    /// What `msg` says.
    pub fn from(msg: Message) -> (r: PeerMessage)
        requires
            is_understood(msg@),
        ensures
            r@ == meaning(msg@),
    {
        match msg.id {
            0 => PeerMessage::Choke,
            1 => PeerMessage::Unchoke,
            2 => PeerMessage::Interested,
            5 => {
                let bytes = msg.payload.unwrap();
                let bv = Bitfield::from_slice(bytes_as_slice(&bytes));
                PeerMessage::Bitfield { bits: bv }
            },
            _ => {
                let mut bytes = msg.payload.unwrap();
                let ghost payload = bytes_view(bytes);
                let index = bytes_get_u32(&mut bytes);
                let begin = bytes_get_u32(&mut bytes);
                proof {
                    assert(payload.skip(4).skip(4) =~= payload.skip(8));
                    assert(be_value(payload.skip(4), 0) == be_value(payload, 4));
                }
                PeerMessage::Piece { index, begin, data: bytes }
            },
        }
    }
}

impl Message {
    /// The message to send that says `message`.
    pub fn from(message: PeerMessage) -> (r: Message)
        requires
            can_be_said(message@),
        ensures
            r@ == message_saying(message@),
    {
        match message {
            PeerMessage::Choke => Message { id: 0, length: 1, payload: None },
            PeerMessage::Unchoke => Message { id: 1, length: 1, payload: None },
            PeerMessage::Interested => Message { id: 2, length: 1, payload: None },
            PeerMessage::NotInterested => Message { id: 3, length: 1, payload: None },
            PeerMessage::Request { index, begin, length } => {
                let mut buf = buffer_new();
                buffer_put_u32(&mut buf, index);
                buffer_put_u32(&mut buf, begin);
                buffer_put_u32(&mut buf, length);
                assert(buffer_view(buf) =~= be_bytes(index as int) + be_bytes(begin as int)
                    + be_bytes(length as int));
                Message { id: 6, length: 13, payload: Some(buffer_freeze(buf)) }
            },
            _ => vstd::pervasive::unreached(),
        }
    }

    /// Whether this message is understood; see `is_understood`.
    pub fn is_understood(&self) -> (r: bool)
        ensures
            r == is_understood(self@),
    {
        match &self.payload {
            None => self.id <= 2,
            Some(payload) => {
                let len = bytes_len(payload);
                self.id <= 2 || (self.id == 5 && len <= usize::MAX / 64) || (self.id == 7 && len
                    >= 8)
            },
        }
    }

    /// Whether the bytes of this message fit in memory.
    pub fn is_writable(&self) -> (r: bool)
        ensures
            r == (message_bytes(self@).len() <= isize::MAX),
    {
        match &self.payload {
            None => true,
            Some(payload) => bytes_len(payload) <= isize::MAX as usize - 5,
        }
    }

    /// The bytes of this message on the wire.
    pub fn to_bytes(&self) -> (r: Bytes)
        requires
            message_bytes(self@).len() <= isize::MAX,
        ensures
            bytes_view(r) == message_bytes(self@),
    {
        let mut buf = buffer_new();
        buffer_put_i32(&mut buf, self.length);
        buffer_put_u8(&mut buf, self.id);
        if let Some(payload) = &self.payload {
            buffer_put_slice(&mut buf, bytes_as_slice(payload));
        }
        assert(buffer_view(buf) =~= message_bytes(self@));
        buffer_freeze(buf)
    }
}

/// What is said by choking, unchoking or being interested is understood as it was
/// said.
pub proof fn law_what_is_said_is_understood(said: PeerMessageView)
    requires
        said is Choke || said is Unchoke || said is Interested,
    ensures
        can_be_said(said),
        is_understood(message_saying(said)),
        meaning(message_saying(said)) == said,
{
}

/// The payload of a piece message gives back the numbers and the data that were put
/// into it.
pub proof fn law_piece_payload_is_read_back(
    length: i32,
    index: u32,
    begin: u32,
    data: Seq<u8>,
)
    ensures
        ({
            let message = MessageView {
                length,
                id: 7,
                payload: Some(be_bytes(index as int) + be_bytes(begin as int) + data),
            };
            &&& is_understood(message)
            &&& meaning(message) == PeerMessageView::Piece { index, begin, data }
        }),
{
    let payload = be_bytes(index as int) + be_bytes(begin as int) + data;
    assert(payload.subrange(0, 4) =~= be_bytes(index as int));
    assert(payload.subrange(4, 8) =~= be_bytes(begin as int));
    lemma_be_round_trip(index as int, payload, 0);
    lemma_be_round_trip(begin as int, payload, 4);
    assert(payload.skip(8) =~= data);
}

} // verus!
