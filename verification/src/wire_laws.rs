//! What the functions that put bytes on the wire and take them off it do, said of their
//! arguments and results alone.
use crate::bits::Bitfield;
use crate::buffer::{
    be_bytes, be_value, bytes_view, cursor_bytes, cursor_position, lemma_be_bytes_of_value,
    lemma_be_round_trip,
};
use crate::connection::{Connection, ReadStep};
use crate::handshake::{
    has_protocol_header, is_sendable, receive_handshake, send_handshake, Handshake, HANDSHAKE_LEN,
};
use crate::message::{Message, MsgError, PeerMessage};
use bytes::Bytes;
use std::io::Cursor;
use vstd::arithmetic::power2::{lemma2_to64, pow2};
use vstd::prelude::*;
use vstd::string::*;
use vstd::utf8::*;

verus! {

/// Whether `bytes` start with the name of the protocol and its length.
pub open spec fn names_the_protocol(bytes: Seq<u8>) -> bool {
    &&& bytes[0] == 19
    &&& bytes.subrange(1, 20) == encode_utf8("BitTorrent protocol"@)
}

/// A handshake is sent as the name of the protocol, eight zeros, the hash and the id, each
/// as it is.
pub proof fn law_a_handshake_is_sent_as_it_is(handshake: Handshake, r: Bytes)
    requires
        call_ensures(send_handshake, (handshake,), r),
    ensures
        ({
            let sent = bytes_view(r);
            let hash = bytes_view(handshake.info_hash);
            let id = bytes_view(handshake.peer_id);
            &&& sent.len() == 28 + hash.len() + id.len()
            &&& names_the_protocol(sent)
            &&& forall|i: int| 20 <= i < 28 ==> #[trigger] sent[i] == 0
            &&& sent.subrange(28, 28 + hash.len() as int) == hash
            &&& sent.skip(28 + hash.len() as int) == id
        }),
{
    reveal_strlit("BitTorrent protocol");
    is_ascii_spec_bytes("BitTorrent protocol");
    let sent = bytes_view(r);
    let hash = bytes_view(handshake.info_hash);
    assert(sent.subrange(1, 20) =~= encode_utf8("BitTorrent protocol"@));
    assert(sent.subrange(28, 28 + hash.len() as int) =~= hash);
    assert(sent.skip(28 + hash.len() as int) =~= bytes_view(handshake.peer_id));
}

/// Every handshake whose bytes fit in memory can be sent, and it is known which do.
pub proof fn law_a_handshake_that_fits_can_be_sent(handshake: Handshake, r: bool)
    ensures
        ({
            let fits = 28 + bytes_view(handshake.info_hash).len() + bytes_view(
                handshake.peer_id,
            ).len() <= isize::MAX;
            &&& fits ==> call_requires(send_handshake, (handshake,))
            &&& call_requires(is_sendable, (&handshake,))
            &&& call_ensures(is_sendable, (&handshake,), r) ==> r == fits
        }),
{
    reveal_strlit("BitTorrent protocol");
    is_ascii_spec_bytes("BitTorrent protocol");
}

/// The received bytes are told to be a handshake exactly if they start with the name of the
/// protocol.
pub proof fn law_the_protocol_is_told(buffer: &[u8; HANDSHAKE_LEN], r: bool)
    ensures
        call_requires(has_protocol_header, (buffer,)),
        call_ensures(has_protocol_header, (buffer,), r) ==> r == names_the_protocol(buffer@),
{
    reveal_strlit("BitTorrent protocol");
    is_ascii_spec_bytes("BitTorrent protocol");
    let name = encode_utf8("BitTorrent protocol"@);
    if call_ensures(has_protocol_header, (buffer,), r) && r {
        assert forall|i: int| 0 <= i < 19 implies buffer@.subrange(1, 20)[i] == name[i] by {
            assert(buffer@.take(20)[i + 1] == buffer@[i + 1]);
        }
        assert(buffer@.take(20)[0] == 19);
        assert(buffer@.subrange(1, 20) =~= name);
    }
    if names_the_protocol(buffer@) {
        let named = seq![19u8] + name;
        assert forall|i: int| 0 <= i < 20 implies buffer@.take(20)[i] == named[i] by {
            if i > 0 {
                assert(buffer@.subrange(1, 20)[i - 1] == name[i - 1]);
            }
        }
        assert(buffer@.take(20) =~= named);
    }
}

/// Where the protocol is named a handshake is read: the hash is the twenty bytes from 29 on,
/// and the id is the nineteen bytes behind them.
pub proof fn law_a_handshake_is_read_where_it_stands(buffer: &[u8; HANDSHAKE_LEN], r: Handshake)
    ensures
        names_the_protocol(buffer@) ==> call_requires(receive_handshake, (buffer,)),
        call_ensures(receive_handshake, (buffer,), r) ==> {
            let hash = bytes_view(r.info_hash);
            let id = bytes_view(r.peer_id);
            &&& hash.len() == 20
            &&& forall|i: int| 0 <= i < 20 ==> #[trigger] hash[i] == buffer@[29 + i]
            &&& id.len() == 19
            &&& forall|i: int| 0 <= i < 19 ==> #[trigger] id[i] == buffer@[49 + i]
        },
{
    reveal_strlit("BitTorrent protocol");
    is_ascii_spec_bytes("BitTorrent protocol");
    if names_the_protocol(buffer@) {
        let name = encode_utf8("BitTorrent protocol"@);
        let named = seq![19u8] + name;
        assert forall|i: int| 0 <= i < 20 implies buffer@.take(20)[i] == named[i] by {
            if i > 0 {
                assert(buffer@.subrange(1, 20)[i - 1] == name[i - 1]);
            }
        }
        assert(buffer@.take(20) =~= named);
    }
}

/// Whether the bit at place `k` of `byte` is set, the most significant bit being at place 0.
pub open spec fn has_bit(byte: u8, k: int) -> bool {
    byte as int / pow2((7 - k) as nat) as int % 2 == 1
}

/// Whether `bits` are those of `data`: eight for each byte, the most significant first.
pub open spec fn spells(bits: Seq<bool>, data: Seq<u8>) -> bool {
    &&& bits.len() == 8 * data.len()
    &&& forall|i: int, k: int|
        0 <= i < data.len() && 0 <= k < 8 ==> #[trigger] bits[8 * i + k] == #[trigger] has_bit(
            data[i],
            k,
        )
}

pub(crate) proof fn lemma_spelled_bits(data: Seq<u8>)
    ensures
        spells(crate::bits::bits_of_bytes(data), data),
{
    let bits = crate::bits::bits_of_bytes(data);
    lemma2_to64();
    assert forall|i: int, k: int| 0 <= i < data.len() && 0 <= k < 8 implies #[trigger] bits[8 * i
        + k] == #[trigger] has_bit(data[i], k) by {
        assert((8 * i + k) / 8 == i && (8 * i + k) % 8 == k);
        assert(0 <= 8 * i + k < 8 * data.len());
    }
}

/// A bitfield made of bytes has eight bits for each, the most significant first.
pub proof fn law_a_bitfield_spells_its_bytes(data: &[u8], r: Bitfield)
    ensures
        data@.len() <= usize::MAX / 64 ==> call_requires(Bitfield::from_slice, (data,)),
        call_ensures(Bitfield::from_slice, (data,), r) ==> spells(r@, data@),
{
    lemma_spelled_bits(data@);
}

/// What is said of a bitfield is what its bits are.
pub proof fn law_a_bitfield_tells_its_bits(
    b: &Bitfield,
    bit: bool,
    len: usize,
    index: usize,
    r: Bitfield,
    n: usize,
    set: bool,
)
    ensures
        len <= usize::MAX / 8 ==> call_requires(Bitfield::repeat, (bit, len)),
        call_ensures(Bitfield::repeat, (bit, len), r) ==> r@.len() == len && forall|i: int|
            0 <= i < len ==> #[trigger] r@[i] == bit,
        call_requires(Bitfield::len, (b,)),
        call_ensures(Bitfield::len, (b,), n) ==> n == b@.len(),
        index < b@.len() ==> call_requires(Bitfield::get, (b, index)),
        call_ensures(Bitfield::get, (b, index), set) ==> set == b@[index as int],
        call_requires(Bitfield::all, (b,)),
        call_ensures(Bitfield::all, (b,), set) ==> set == !b@.contains(false),
{
    if call_ensures(Bitfield::all, (b,), set) {
        if set {
            assert(forall|i: int| 0 <= i < b@.len() ==> b@[i]);
        } else {
            let i = choose|i: int| 0 <= i < b@.len() && !b@[i];
            assert(b@[i] == false);
        }
    }
}

/// Writing one bit leaves the others as they are.
pub proof fn law_a_written_bit_is_read_back(b: &mut Bitfield, index: usize, value: bool)
    requires
        index < old(b)@.len(),
    ensures
        call_requires(Bitfield::set, (b, index, value)),
        call_ensures(Bitfield::set, (b, index, value), ()) ==> {
            &&& final(b)@.len() == old(b)@.len()
            &&& final(b)@[index as int] == value
            &&& forall|i: int|
                0 <= i < old(b)@.len() && i != index ==> #[trigger] final(b)@[i] == old(b)@[i]
        },
{
}

/// Which messages are understood: choke, unchoke and interested whatever comes with them, a
/// bitfield with a payload whose bits can be counted, and a piece with two numbers at least.
pub open spec fn can_be_understood(id: u8, payload: Option<Seq<u8>>) -> bool {
    match payload {
        None => id <= 2,
        Some(payload) => id <= 2 || (id == 5 && payload.len() <= usize::MAX / 64) || (id == 7
            && payload.len() >= 8),
    }
}

/// It is known which messages are understood, and each of them is.
pub proof fn law_it_is_known_what_is_understood(msg: Message, r: bool)
    ensures
        call_requires(Message::is_understood, (&msg,)),
        call_ensures(Message::is_understood, (&msg,), r) ==> r == can_be_understood(
            msg@.id,
            msg@.payload,
        ),
        can_be_understood(msg@.id, msg@.payload) ==> call_requires(PeerMessage::from, (msg,)),
{
    if let Some(payload) = msg@.payload {
        assert(payload.len() * 8 <= usize::MAX / 8 <==> payload.len() <= usize::MAX / 64);
    }
}

/// What a message means: its id tells the kind, the bits of a bitfield are those of the
/// whole payload, and a piece holds two numbers and the rest of the payload.
pub proof fn law_what_a_message_means(msg: Message, r: PeerMessage)
    requires
        can_be_understood(msg@.id, msg@.payload),
        call_ensures(PeerMessage::from, (msg,), r),
    ensures
        msg@.id == 0 ==> r is Choke,
        msg@.id == 1 ==> r is Unchoke,
        msg@.id == 2 ==> r is Interested,
        msg@.id == 5 ==> (r matches PeerMessage::Bitfield { bits } && spells(
            bits@,
            msg@.payload->0,
        )),
        msg@.id == 7 ==> (r matches PeerMessage::Piece { index, begin, data } && index == be_value(
            msg@.payload->0,
            0,
        ) && begin == be_value(msg@.payload->0, 4) && bytes_view(data) == msg@.payload->0.skip(8)),
{
    if msg@.id == 5 {
        lemma_spelled_bits(msg@.payload->0);
    }
    if msg@.id == 7 {
        lemma_be_bytes_of_value(msg@.payload->0, 0);
        lemma_be_bytes_of_value(msg@.payload->0, 4);
    }
}

/// What is sent to say something: a message of the kind's id, for a request with the three
/// numbers that it asks for.
pub proof fn law_what_is_sent_to_say_it(said: PeerMessage, r: Message)
    ensures
        said is Choke || said is Unchoke || said is Interested || said is NotInterested
            || said is Request ==> call_requires(Message::from, (said,)),
        call_ensures(Message::from, (said,), r) ==> {
            &&& said is Choke ==> r@.id == 0
            &&& said is Unchoke ==> r@.id == 1
            &&& said is Interested ==> r@.id == 2
            &&& said is NotInterested ==> r@.id == 3
            &&& said is Choke || said is Unchoke || said is Interested || said is NotInterested
                ==> r@.length == 1 && r@.payload is None
            &&& said matches PeerMessage::Request { index, begin, length } ==> {
                &&& r@.id == 6
                &&& r@.length == 13
                &&& r@.payload matches Some(payload)
                &&& asks_for(payload, index, begin, length)
            }
        },
{
    if let PeerMessage::Request { index, begin, length } = said {
        lemma_request_payload(index, begin, length);
    }
}

/// Whether `payload` is three numbers: `index`, `begin` and `length`.
pub open spec fn asks_for(payload: Seq<u8>, index: u32, begin: u32, length: u32) -> bool {
    &&& payload.len() == 12
    &&& be_value(payload, 0) == index
    &&& be_value(payload, 4) == begin
    &&& be_value(payload, 8) == length
}

pub(crate) proof fn lemma_request_payload(index: u32, begin: u32, length: u32)
    ensures
        asks_for(
            be_bytes(index as int) + be_bytes(begin as int) + be_bytes(length as int),
            index,
            begin,
            length,
        ),
{
    let payload = be_bytes(index as int) + be_bytes(begin as int) + be_bytes(length as int);
    assert(payload.subrange(0, 4) =~= be_bytes(index as int));
    assert(payload.subrange(4, 8) =~= be_bytes(begin as int));
    assert(payload.subrange(8, 12) =~= be_bytes(length as int));
    lemma_be_round_trip(index as int, payload, 0);
    lemma_be_round_trip(begin as int, payload, 4);
    lemma_be_round_trip(length as int, payload, 8);
}

/// The number of bytes in a payload.
pub open spec fn payload_len(payload: Option<Seq<u8>>) -> nat {
    match payload {
        None => 0,
        Some(payload) => payload.len(),
    }
}

/// Whether `bytes` are a message as it goes over the wire: its length in four bytes, its id,
/// and its payload.
pub open spec fn carries(
    bytes: Seq<u8>,
    length: i32,
    id: u8,
    payload: Option<Seq<u8>>,
) -> bool {
    &&& bytes.len() == 5 + payload_len(payload)
    &&& be_value(bytes, 0) == if length >= 0 {
        length as int
    } else {
        length + 0x1_0000_0000
    }
    &&& bytes[4] == id
    &&& payload is Some ==> bytes.skip(5) == payload->0
}

/// A message is written as its length, its id and its payload, each as it is, by itself and
/// on a connection.
pub proof fn law_a_message_is_written_as_it_is(c: &Connection, msg: &Message, r: Bytes, fits: bool)
    ensures
        call_ensures(Message::to_bytes, (msg,), r) || call_ensures(
            Connection::write_msg,
            (c, msg),
            r,
        ) ==> carries(bytes_view(r), msg@.length, msg@.id, msg@.payload),
        5 + payload_len(msg@.payload) <= isize::MAX ==> call_requires(Message::to_bytes, (msg,))
            && call_requires(Connection::write_msg, (c, msg)),
        call_requires(Message::is_writable, (msg,)),
        call_ensures(Message::is_writable, (msg,), fits) ==> fits == (5 + payload_len(
            msg@.payload,
        ) <= isize::MAX),
{
    let written = crate::message::message_bytes(msg@);
    let pattern = if msg@.length >= 0 {
        msg@.length as int
    } else {
        msg@.length + 0x1_0000_0000
    };
    assert(written.subrange(0, 4) =~= be_bytes(pattern));
    lemma_be_round_trip(pattern, written, 0);
    if let Some(payload) = msg@.payload {
        assert(written.skip(5) =~= payload);
    }
}

/// What a check finds at the position of `input`, where four bytes spell `n`: a frame of `n`
/// bytes behind them, or that it is not all there.
pub proof fn law_a_check_moves_over_the_frame(
    input: &mut Cursor<&[u8]>,
    n: int,
    r: Result<(), MsgError>,
)
    requires
        call_ensures(Message::check, (input,), r),
    ensures
        ({
            let buffer = cursor_bytes(*old(input));
            let at = cursor_position(*old(input)) as int;
            let to = cursor_position(*final(input));
            &&& cursor_bytes(*final(input)) == buffer
            &&& at + 4 > buffer.len() ==> r == Err::<(), MsgError>(MsgError::Incomplete) && to == at
            &&& at + 4 <= buffer.len() && 0 <= n < 0x1_0000_0000 && buffer.subrange(at, at + 4)
                == be_bytes(n) ==> if n < 0x8000_0000 && at + 4 + n <= buffer.len() {
                r == Ok::<(), MsgError>(()) && to == at + 4 + n
            } else {
                r == Err::<(), MsgError>(MsgError::Incomplete) && to == at + 4
            }
        }),
{
    let buffer = cursor_bytes(*old(input));
    let at = cursor_position(*old(input)) as int;
    if at + 4 <= buffer.len() && 0 <= n < 0x1_0000_0000 && buffer.subrange(at, at + 4) == be_bytes(
        n,
    ) {
        lemma_be_round_trip(n, buffer, at);
    }
}

/// What is parsed at the position of `input`, where four bytes spell `n`: a message of that
/// length with the id behind them. From a length of six on it has a payload, which is taken
/// from the sixth byte of the buffer on.
pub proof fn law_a_message_is_parsed_where_it_stands(
    input: &mut Cursor<&[u8]>,
    n: int,
    r: Result<Message, MsgError>,
)
    requires
        0 <= n < 0x1_0000_0000,
        cursor_position(*old(input)) + 5 <= cursor_bytes(*old(input)).len(),
        cursor_bytes(*old(input)).subrange(
            cursor_position(*old(input)) as int,
            cursor_position(*old(input)) + 4,
        ) == be_bytes(n),
    ensures
        ({
            let buffer = cursor_bytes(*old(input));
            let at = cursor_position(*old(input)) as int;
            let to = cursor_position(*final(input));
            let long = 5 < n < 0x8000_0000;
            &&& !long || n + 4 <= i32::MAX && at + 4 + n <= buffer.len() ==> call_requires(
                Message::parse,
                (input,),
            )
            &&& call_ensures(Message::parse, (input,), r) ==> {
                &&& cursor_bytes(*final(input)) == buffer
                &&& r matches Ok(msg)
                &&& msg@.length == if n < 0x8000_0000 {
                    n
                } else {
                    n - 0x1_0000_0000
                }
                &&& msg@.id == buffer[at + 4]
                &&& if long {
                    &&& msg@.payload matches Some(payload)
                    &&& n + 4 <= buffer.len() ==> payload.len() == n - 1 && forall|i: int|
                        0 <= i < n - 1 ==> #[trigger] payload[i] == buffer[5 + i]
                    &&& to == at + 4 + n
                } else {
                    &&& msg@.payload is None
                    &&& to == at + 5
                }
            }
        }),
{
    let buffer = cursor_bytes(*old(input));
    lemma_be_round_trip(n, buffer, cursor_position(*old(input)) as int);
}

/// Reading takes the next frame off what was received, whole, and gives its message: its
/// length, its first byte as the id, and behind that its payload where it has more than
/// five bytes. An empty frame takes the byte behind it for its id.
pub proof fn law_reading_takes_one_frame_off(
    c: &mut Connection,
    frame: Seq<u8>,
    rest: Seq<u8>,
    received: Option<usize>,
    parsed: Result<Option<Message>, String>,
    read: Result<ReadStep, String>,
)
    requires
        old(c)@ == be_bytes(frame.len() as int) + frame + rest,
        frame.len() + 4 <= i32::MAX,
        frame.len() > 0 || rest.len() > 0,
        received != Some(0usize),
    ensures
        call_requires(Connection::parse_msg, (c,)),
        call_requires(Connection::read_msg, (c, received)),
        call_ensures(Connection::parse_msg, (c,), parsed) ==> {
            &&& final(c)@ == rest
            &&& parsed matches Ok(Some(msg))
            &&& is_message_of(msg, frame, rest)
        },
        call_ensures(Connection::read_msg, (c, received), read) ==> {
            &&& final(c)@ == rest
            &&& read matches Ok(ReadStep::Message(msg))
            &&& is_message_of(msg, frame, rest)
        },
{
    let held = old(c)@;
    let n = frame.len() as int;
    assert(held.subrange(0, 4) =~= be_bytes(n));
    lemma_be_round_trip(n, held, 0);
    assert(held.skip(4 + n) =~= rest);
    if n > 5 {
        assert(held.subrange(5, n + 4) =~= frame.skip(1));
    }
}

/// Whether `msg` is the message of `frame`, with `rest` behind it.
pub open spec fn is_message_of(msg: Message, frame: Seq<u8>, rest: Seq<u8>) -> bool {
    &&& msg@.length == frame.len()
    &&& msg@.id == if frame.len() > 0 {
        frame[0]
    } else {
        rest[0]
    }
    &&& msg@.payload == if frame.len() > 5 {
        Some(frame.skip(1))
    } else {
        None
    }
}

/// Whether `held` is too short for the frame that it starts with: for the four bytes that
/// spell the frame's length `n`, or for the frame.
pub open spec fn waits_for_more(held: Seq<u8>, n: int) -> bool {
    ||| held.len() < 4
    ||| {
        &&& 0 <= n < 0x1_0000_0000
        &&& held.subrange(0, 4) == be_bytes(n)
        &&& n >= 0x8000_0000 || held.len() < 4 + n
    }
}

/// Nothing is read and nothing is taken off while the next frame is not all there.
pub proof fn law_reading_waits_for_the_frame(
    c: &mut Connection,
    n: int,
    received: Option<usize>,
    parsed: Result<Option<Message>, String>,
    read: Result<ReadStep, String>,
)
    requires
        waits_for_more(old(c)@, n),
        received != Some(0usize),
    ensures
        call_requires(Connection::parse_msg, (c,)),
        call_requires(Connection::read_msg, (c, received)),
        call_ensures(Connection::parse_msg, (c,), parsed) ==> final(c)@ == old(c)@ && parsed
            == Ok::<Option<Message>, String>(None),
        call_ensures(Connection::read_msg, (c, received), read) ==> final(c)@ == old(c)@ && read
            == Ok::<ReadStep, String>(ReadStep::ReceiveMore),
{
    if old(c)@.len() >= 4 {
        lemma_be_round_trip(n, old(c)@, 0);
    }
}

/// When the peer closes the connection nothing is left to read, or a frame was cut short.
pub proof fn law_a_closed_connection_is_told(c: &mut Connection, read: Result<ReadStep, String>)
    ensures
        call_requires(Connection::read_msg, (c, Some(0usize))),
        call_ensures(Connection::read_msg, (c, Some(0usize)), read) ==> {
            &&& final(c)@ == old(c)@
            &&& old(c)@.len() == 0 ==> read == Ok::<ReadStep, String>(ReadStep::Closed)
            &&& old(c)@.len() > 0 ==> read is Err && read->Err_0@ == "Connection reset by peer"@
        },
{
}

/// What is received goes behind what is held, in a new connection behind nothing.
pub proof fn law_what_is_received_is_held(
    c: &mut Connection,
    data: &[u8],
    new: Connection,
    count: usize,
    room: bool,
)
    ensures
        call_requires(Connection::new, ()),
        call_ensures(Connection::new, (), new) ==> new@.len() == 0,
        old(c)@.len() + data@.len() <= isize::MAX ==> call_requires(Connection::receive, (c, data)),
        call_ensures(Connection::receive, (c, data), ()) ==> final(c)@ == old(c)@ + data@,
        call_requires(Connection::can_receive, (&*old(c), count)),
        call_ensures(Connection::can_receive, (&*old(c), count), room) ==> room == (old(c)@.len()
            + count <= isize::MAX),
{
}

/// What is held cannot be read exactly if it starts with a frame, of the length `n`, that is
/// all there and has no id, or is so long that four bytes more cannot be counted.
pub proof fn law_it_is_known_what_can_be_read(c: &Connection, n: int, r: bool)
    requires
        c@.len() < 4 || 0 <= n < 0x1_0000_0000 && c@.subrange(0, 4) == be_bytes(n),
        call_ensures(Connection::is_readable, (c,), r),
    ensures
        r == !(c@.len() >= 4 && n < 0x8000_0000 && 4 + n <= c@.len() && (c@.len() < 5 || n + 4
            > i32::MAX)),
{
    if c@.len() >= 4 {
        lemma_be_round_trip(n, c@, 0);
    }
}

/// An error reads as what it says.
pub proof fn law_an_error_reads_as_it_says(error: &MsgError, r: String)
    ensures
        call_requires(MsgError::to_string, (error,)),
        call_ensures(MsgError::to_string, (error,), r) ==> r@ == match error {
            MsgError::Incomplete => "stream ended early"@,
            MsgError::Other(err) => err@,
        },
{
}

} // verus!
