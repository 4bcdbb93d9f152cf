//! The stream of messages between two peers.
use crate::buffer::{
    be_bytes, be_signed, buffer_advance, buffer_as_slice, buffer_is_empty, buffer_put_slice,
    buffer_view, buffer_with_capacity, bytes_view, cursor_get_position, cursor_new,
    cursor_set_position, lemma_be_bytes_of_value, lemma_be_round_trip, to_unsigned,
};
use crate::message::{
    can_be_said, frame_is_complete, message_at, message_bytes, message_is_readable, message_saying,
    Message, MessageView, MsgError, PeerMessageView,
};
use bytes::{Bytes, BytesMut};
use vstd::prelude::*;
use vstd::string::*;

verus! {

/// A connection: what was received from the peer and was not read yet.
pub struct Connection {
    buffer: BytesMut,
}

impl View for Connection {
    type V = Seq<u8>;

    closed spec fn view(&self) -> Seq<u8> {
        buffer_view(self.buffer)
    }
}

/// What reading a message from a connection comes to.
#[derive(Debug)]
pub enum ReadStep {
    /// A message was read.
    Message(Message),
    /// More has to be received first.
    ReceiveMore,
    /// The peer has closed the connection, and nothing is left to read.
    Closed,
}

/// Whether the next message can be read once its frame is all there.
pub open spec fn next_is_readable(received: Seq<u8>) -> bool {
    frame_is_complete(received, 0) ==> message_is_readable(received, 0)
}

/// What is left when the first frame is taken off.
pub open spec fn after_frame(received: Seq<u8>) -> Seq<u8> {
    received.skip(4 + be_signed(received, 0))
}

impl Connection {
    /// A connection on which nothing was received yet.
    pub fn new() -> (r: Connection)
        ensures
            r@ == Seq::<u8>::empty(),
    {
        Connection { buffer: buffer_with_capacity(4096) }
    }

    /// Whether there is room for `count` more bytes.
    pub fn can_receive(&self, count: usize) -> (r: bool)
        ensures
            r == (self@.len() + count <= isize::MAX),
    {
        let held = buffer_as_slice(&self.buffer).len();
        held <= isize::MAX as usize && count <= isize::MAX as usize - held
    }

    /// Takes in what was received from the peer.
    pub fn receive(&mut self, data: &[u8])
        requires
            old(self)@.len() + data@.len() <= isize::MAX,
        ensures
            final(self)@ == old(self)@ + data@,
    {
        buffer_put_slice(&mut self.buffer, data);
    }

    /// Whether the next message can be read; see `next_is_readable`.
    pub fn is_readable(&self) -> (r: bool)
        ensures
            r == next_is_readable(self@),
    {
        let received = buffer_as_slice(&self.buffer);
        let mut buf = cursor_new(received);
        match Message::check(&mut buf) {
            Ok(_) => {
                let len = cursor_get_position(&buf);
                received.len() >= 5 && len <= 0x7fff_ffff
            },
            Err(_) => true,
        }
    }

    /// Reads the next message and takes its frame off, or finds that its frame
    /// is not all there yet.
    pub fn parse_msg(&mut self) -> (r: Result<Option<Message>, String>)
        requires
            next_is_readable(old(self)@),
        ensures
            frame_is_complete(old(self)@, 0) ==> {
                &&& r is Ok
                &&& r->Ok_0 is Some
                &&& r->Ok_0->0@ == message_at(old(self)@, 0)
                &&& final(self)@ == after_frame(old(self)@)
            },
            !frame_is_complete(old(self)@, 0) ==> {
                &&& r == Ok::<Option<Message>, String>(None)
                &&& final(self)@ == old(self)@
            },
    {
        let mut buf = cursor_new(buffer_as_slice(&self.buffer));
        match Message::check(&mut buf) {
            Ok(_) => {
                let len = cursor_get_position(&buf) as usize;
                cursor_set_position(&mut buf, 0);
                match Message::parse(&mut buf) {
                    Ok(msg) => {
                        buffer_advance(&mut self.buffer, len);
                        Ok(Some(msg))
                    },
                    Err(e) => Err(e.to_string()),
                }
            },
            Err(MsgError::Incomplete) => Ok(None),
            Err(e) => Err(e.to_string()),
        }
    }

    /// One step of reading a message. `received` is `None` at the first step,
    /// and then the number of bytes that came in since the last one: none, where
    /// the peer has closed the connection.
    pub fn read_msg(&mut self, received: Option<usize>) -> (r: Result<ReadStep, String>)
        requires
            received != Some(0usize) ==> next_is_readable(old(self)@),
        ensures
            received == Some(0usize) ==> {
                &&& final(self)@ == old(self)@
                &&& old(self)@.len() == 0 ==> r == Ok::<ReadStep, String>(ReadStep::Closed)
                &&& old(self)@.len() > 0 ==> r is Err && r->Err_0@ == "Connection reset by peer"@
            },
            received != Some(0usize) && frame_is_complete(old(self)@, 0) ==> {
                &&& r is Ok
                &&& r->Ok_0 is Message
                &&& r->Ok_0->Message_0@ == message_at(old(self)@, 0)
                &&& final(self)@ == after_frame(old(self)@)
            },
            received != Some(0usize) && !frame_is_complete(old(self)@, 0) ==> {
                &&& r == Ok::<ReadStep, String>(ReadStep::ReceiveMore)
                &&& final(self)@ == old(self)@
            },
    {
        if let Some(count) = received {
            if count == 0 {
                if buffer_is_empty(&self.buffer) {
                    return Ok(ReadStep::Closed);
                } else {
                    return Err(String::from_str("Connection reset by peer"));
                }
            }
        }
        match self.parse_msg() {
            Ok(Some(msg)) => Ok(ReadStep::Message(msg)),
            Ok(None) => Ok(ReadStep::ReceiveMore),
            Err(e) => Err(e),
        }
    }

    /// The bytes to send for `msg`.
    pub fn write_msg(&self, msg: &Message) -> (r: Bytes)
        requires
            message_bytes(msg@).len() <= isize::MAX,
        ensures
            bytes_view(r) == message_bytes(msg@),
    {
        msg.to_bytes()
    }
}

/// Whether the length of `message` counts its id and its payload, and a payload
/// is long enough to be read back as one.
pub open spec fn is_framed(message: MessageView) -> bool {
    match message.payload {
        None => message.length == 1,
        Some(payload) => payload.len() >= 5 && message.length == payload.len() + 1
            && message.length + 4 <= i32::MAX,
    }
}

/// A message that was written is read back as it was, whatever was received
/// behind it, and exactly its bytes are taken off.
pub proof fn law_read_gives_back_what_was_written(message: MessageView, rest: Seq<u8>)
    requires
        is_framed(message),
    ensures
        ({
            let received = message_bytes(message) + rest;
            &&& frame_is_complete(received, 0)
            &&& next_is_readable(received)
            &&& message_at(received, 0) == message
            &&& after_frame(received) == rest
        }),
{
    let received = message_bytes(message) + rest;
    lemma_length_is_read_back(message, rest);
    match message.payload {
        None => {
            assert(after_frame(received) =~= rest);
        },
        Some(payload) => {
            assert(received.subrange(5, message.length + 4) =~= payload);
            assert(after_frame(received) =~= rest);
        },
    }
    assert(message_at(received, 0) =~= message);
}

proof fn lemma_length_is_read_back(message: MessageView, rest: Seq<u8>)
    ensures
        be_signed(message_bytes(message) + rest, 0) == message.length,
        (message_bytes(message) + rest)[4] == message.id,
{
    let received = message_bytes(message) + rest;
    let pattern = to_unsigned(message.length as int);
    assert(received.subrange(0, 4) =~= be_bytes(pattern));
    lemma_be_round_trip(pattern, received, 0);
}

/// No other message is read back as it was from the bytes that are written for
/// it alone, with exactly its bytes taken off.
pub proof fn law_only_framed_messages_are_read_back(message: MessageView)
    requires
        frame_is_complete(message_bytes(message), 0),
        message_is_readable(message_bytes(message), 0),
        message_at(message_bytes(message), 0) == message,
        after_frame(message_bytes(message)) == Seq::<u8>::empty(),
    ensures
        is_framed(message),
{
    let written = message_bytes(message);
    lemma_length_is_read_back(message, Seq::empty());
    assert(written + Seq::<u8>::empty() =~= written);
    assert(after_frame(written).len() == written.len() - 4 - message.length);
}

/// A message that was read is written back as the bytes that it was read from, if it
/// has no payload or one that is read with it.
pub proof fn law_write_gives_back_what_was_read(received: Seq<u8>)
    requires
        frame_is_complete(received, 0),
        message_is_readable(received, 0),
        be_signed(received, 0) == 1 || be_signed(received, 0) > 5,
    ensures
        is_framed(message_at(received, 0)),
        message_bytes(message_at(received, 0)) + after_frame(received) == received,
{
    lemma_be_bytes_of_value(received, 0);
    let written = message_bytes(message_at(received, 0));
    assert(be_bytes(to_unsigned(be_signed(received, 0))) == received.subrange(0, 4));
    assert forall|i: int| 0 <= i < 4 implies written[i] == received[i] by {
        assert(written[i] == received.subrange(0, 4)[i]);
    }
    assert(written + after_frame(received) =~= received);
}

/// What is received behind a frame that is all there changes neither the
/// message that is read nor what else is left.
pub proof fn law_reading_does_not_look_ahead(received: Seq<u8>, more: Seq<u8>)
    requires
        frame_is_complete(received, 0),
        message_is_readable(received, 0),
    ensures
        frame_is_complete(received + more, 0),
        message_is_readable(received + more, 0),
        message_at(received + more, 0) == message_at(received, 0),
        after_frame(received + more) == after_frame(received) + more,
{
    let both = received + more;
    assert(be_signed(both, 0) == be_signed(received, 0));
    let length = be_signed(received, 0);
    if length > 5 {
        assert(both.subrange(5, length + 4) =~= received.subrange(5, length + 4));
    }
    assert(message_at(both, 0) =~= message_at(received, 0));
    assert(after_frame(both) =~= after_frame(received) + more);
}

/// Everything that can be said is framed: it is read back as it was written.
pub proof fn law_what_can_be_said_is_framed(said: PeerMessageView)
    requires
        can_be_said(said),
    ensures
        is_framed(message_saying(said)),
{
}

/// The bytes of messages that are written one after the other.
pub open spec fn stream_of(messages: Seq<MessageView>) -> Seq<u8>
    decreases messages.len(),
{
    if messages.len() == 0 {
        Seq::empty()
    } else {
        message_bytes(messages[0]) + stream_of(messages.skip(1))
    }
}

/// Whether reading takes `messages` off `received`, one after the other, and leaves
/// nothing.
pub open spec fn reads_as(received: Seq<u8>, messages: Seq<MessageView>) -> bool
    decreases messages.len(),
{
    if messages.len() == 0 {
        received.len() == 0
    } else {
        &&& frame_is_complete(received, 0)
        &&& next_is_readable(received)
        &&& message_at(received, 0) == messages[0]
        &&& reads_as(after_frame(received), messages.skip(1))
    }
}

/// A stream of messages is read as the messages that were written to it.
pub proof fn law_a_stream_is_read_as_it_was_written(messages: Seq<MessageView>)
    requires
        forall|i: int| 0 <= i < messages.len() ==> is_framed(#[trigger] messages[i]),
    ensures
        reads_as(stream_of(messages), messages),
    decreases messages.len(),
{
    if messages.len() > 0 {
        law_read_gives_back_what_was_written(messages[0], stream_of(messages.skip(1)));
        law_a_stream_is_read_as_it_was_written(messages.skip(1));
    }
}

/// What one step of reading makes of a stream of messages of which `held` was received
/// and `to_come` was not yet. Either the next message is not all there, and more is to
/// come; or it is read, and the rest is the stream of the messages behind it; or all was
/// read.
pub proof fn law_a_step_reads_the_stream(
    held: Seq<u8>,
    to_come: Seq<u8>,
    messages: Seq<MessageView>,
)
    requires
        forall|i: int| 0 <= i < messages.len() ==> is_framed(#[trigger] messages[i]),
        held + to_come == stream_of(messages),
    ensures
        next_is_readable(held),
        messages.len() == 0 ==> held.len() == 0 && to_come.len() == 0,
        messages.len() > 0 && !frame_is_complete(held, 0) ==> to_come.len() > 0,
        frame_is_complete(held, 0) ==> {
            &&& messages.len() > 0
            &&& message_at(held, 0) == messages[0]
            &&& after_frame(held) + to_come == stream_of(messages.skip(1))
        },
{
    let both = held + to_come;
    assert(both.len() == held.len() + to_come.len());
    if messages.len() > 0 {
        let rest = stream_of(messages.skip(1));
        law_read_gives_back_what_was_written(messages[0], rest);
        assert(both == message_bytes(messages[0]) + rest);
        if to_come.len() == 0 {
            assert(held =~= both);
        }
        if frame_is_complete(held, 0) {
            assert(be_signed(both, 0) == be_signed(held, 0));
            lemma_length_is_read_back(messages[0], rest);
            assert(message_is_readable(held, 0));
            law_reading_does_not_look_ahead(held, to_come);
        }
    }
}

/// What a call that reads a message comes to, however many steps it takes.
pub enum ReadOutcome {
    /// A message was read.
    Message(MessageView),
    /// The peer has closed the connection, and nothing is left to read.
    Closed,
    /// The peer has closed the connection in the middle of a frame.
    Reset,
    /// What was received cannot be read.
    Unreadable,
}

/// What a connection that holds `held` reads if `chunks` are received, one at each step
/// that asks for more, and then the peer closes the connection; what the connection holds
/// afterwards; and the chunks that are left.
pub open spec fn read_call(held: Seq<u8>, chunks: Seq<Seq<u8>>) -> (
    ReadOutcome,
    Seq<u8>,
    Seq<Seq<u8>>,
)
    decreases chunks.len(),
{
    if !next_is_readable(held) {
        (ReadOutcome::Unreadable, held, chunks)
    } else if frame_is_complete(held, 0) {
        (ReadOutcome::Message(message_at(held, 0)), after_frame(held), chunks)
    } else if chunks.len() > 0 {
        read_call(held + chunks[0], chunks.drop_first())
    } else if held.len() == 0 {
        (ReadOutcome::Closed, held, chunks)
    } else {
        (ReadOutcome::Reset, held, chunks)
    }
}

/// Whether calls that read a message, one after the other, give exactly `messages`, and
/// the call after them finds the connection closed.
pub open spec fn calls_read(held: Seq<u8>, chunks: Seq<Seq<u8>>, messages: Seq<MessageView>) -> bool
    decreases messages.len(),
{
    let (outcome, held_then, chunks_then) = read_call(held, chunks);
    if messages.len() == 0 {
        outcome is Closed
    } else {
        &&& outcome == ReadOutcome::Message(messages[0])
        &&& calls_read(held_then, chunks_then, messages.skip(1))
    }
}

/// Whether every one of `chunks` brings something.
pub open spec fn none_is_empty(chunks: Seq<Seq<u8>>) -> bool {
    forall|i: int| 0 <= i < chunks.len() ==> (#[trigger] chunks[i]).len() > 0
}

proof fn lemma_a_call_reads_the_stream(
    held: Seq<u8>,
    chunks: Seq<Seq<u8>>,
    messages: Seq<MessageView>,
)
    requires
        forall|i: int| 0 <= i < messages.len() ==> is_framed(#[trigger] messages[i]),
        none_is_empty(chunks),
        held + chunks.flatten() == stream_of(messages),
    ensures
        ({
            let (outcome, held_then, chunks_then) = read_call(held, chunks);
            &&& none_is_empty(chunks_then)
            &&& messages.len() == 0 ==> outcome is Closed
            &&& messages.len() > 0 ==> {
                &&& outcome == ReadOutcome::Message(messages[0])
                &&& held_then + chunks_then.flatten() == stream_of(messages.skip(1))
            }
        }),
    decreases chunks.len(),
{
    law_a_step_reads_the_stream(held, chunks.flatten(), messages);
    if !frame_is_complete(held, 0) && chunks.len() > 0 {
        let rest = chunks.drop_first();
        assert(chunks.flatten() == chunks[0] + rest.flatten());
        assert(held + chunks.flatten() =~= (held + chunks[0]) + rest.flatten());
        assert(none_is_empty(rest)) by {
            assert forall|i: int| 0 <= i < rest.len() implies (#[trigger] rest[i]).len() > 0 by {
                assert(rest[i] == chunks[i + 1]);
            }
        }
        lemma_a_call_reads_the_stream(held + chunks[0], rest, messages);
    }
}

/// However a stream of messages is cut into the chunks in which it is received, the calls
/// that read it give the messages that were written, in their order, and then find the
/// connection closed. On a new connection nothing is held yet.
pub proof fn law_however_a_stream_is_cut_it_reads_the_same(
    held: Seq<u8>,
    chunks: Seq<Seq<u8>>,
    messages: Seq<MessageView>,
)
    requires
        forall|i: int| 0 <= i < messages.len() ==> is_framed(#[trigger] messages[i]),
        none_is_empty(chunks),
        held + chunks.flatten() == stream_of(messages),
    ensures
        calls_read(held, chunks, messages),
    decreases messages.len(),
{
    lemma_a_call_reads_the_stream(held, chunks, messages);
    if messages.len() > 0 {
        let (outcome, held_then, chunks_then) = read_call(held, chunks);
        law_however_a_stream_is_cut_it_reads_the_same(held_then, chunks_then, messages.skip(1));
    }
}

} // verus!
