//! The handshake that opens a connection between two peers.
use crate::buffer::{
    buffer_freeze, buffer_put_bytes, buffer_put_slice, buffer_put_u8, buffer_view,
    buffer_with_capacity, bytes_as_slice, bytes_copy_from_slice, bytes_len, bytes_view,
};
use bytes::Bytes;
use vstd::prelude::*;
use vstd::string::*;
use vstd::utf8::*;

verus! {

/// The number of bytes in a handshake.
pub const HANDSHAKE_LEN: usize = 68;

/// What two peers tell each other first: which torrent they are about, and who
/// they are.
pub struct Handshake {
    pub info_hash: Bytes,
    pub peer_id: Bytes,
}

/// What a `Handshake` stands for.
#[verifier::ext_equal]
pub struct HandshakeView {
    pub info_hash: Seq<u8>,
    pub peer_id: Seq<u8>,
}

impl View for Handshake {
    type V = HandshakeView;

    open spec fn view(&self) -> HandshakeView {
        HandshakeView {
            info_hash: bytes_view(self.info_hash),
            peer_id: bytes_view(self.peer_id),
        }
    }
}

/// The twenty bytes that name the protocol: the length of the name, and the
/// name.
pub open spec fn protocol_header() -> Seq<u8> {
    seq![19u8] + encode_utf8("BitTorrent protocol"@)
}

/// The bytes of a handshake on the wire: the name of the protocol, eight zeros,
/// the hash and the peer's id.
pub open spec fn handshake_bytes(handshake: HandshakeView) -> Seq<u8> {
    protocol_header() + Seq::new(8, |i: int| 0u8) + handshake.info_hash + handshake.peer_id
}

/// The handshake that is read off the bytes of the wire: the hash from the
/// twenty bytes at 29, the peer's id from what follows them.
pub open spec fn handshake_of_bytes(buffer: Seq<u8>) -> HandshakeView {
    HandshakeView { info_hash: buffer.subrange(29, 49), peer_id: buffer.skip(49) }
}

proof fn lemma_protocol_header()
    ensures
        protocol_header().len() == 20,
        encode_utf8("BitTorrent protocol"@).len() == 19,
{
    reveal_strlit("BitTorrent protocol");
    is_ascii_spec_bytes("BitTorrent protocol");
}

/// Whether the received bytes start with the name of the protocol.
pub fn has_protocol_header(buffer: &[u8; HANDSHAKE_LEN]) -> (r: bool)
    ensures
        r == (buffer@.take(20) == protocol_header()),
{
    proof {
        lemma_protocol_header();
    }
    let name = "BitTorrent protocol".as_bytes();
    if buffer[0] != 19 {
        assert(buffer@.take(20)[0] != protocol_header()[0]);
        return false;
    }
    for i in 0..19usize
        invariant
            name@ == encode_utf8("BitTorrent protocol"@),
            name@.len() == 19,
            protocol_header().len() == 20,
            buffer@.len() == 68,
            buffer@[0] == 19,
            forall|j: int| 0 <= j < i ==> buffer@[j + 1] == name@[j],
    {
        if buffer[i + 1] != name[i] {
            assert(buffer@.take(20)[i + 1] != protocol_header()[i + 1]);
            return false;
        }
    }
    assert forall|k: int| 0 <= k < 20 implies buffer@.take(20)[k] == protocol_header()[k] by {
        if k > 0 {
            assert(buffer@[(k - 1) + 1] == name@[k - 1]);
        }
    }
    assert(buffer@.take(20) =~= protocol_header());
    true
}

/// The handshake that the received bytes hold.
pub fn receive_handshake(buffer: &[u8; HANDSHAKE_LEN]) -> (r: Handshake)
    requires
        buffer@.take(20) == protocol_header(),
    ensures
        r@ == handshake_of_bytes(buffer@),
{
    let bytes = buffer.as_slice();
    let handshake = Handshake {
        info_hash: bytes_copy_from_slice(vstd::slice::slice_subrange(bytes, 29, 49)),
        peer_id: bytes_copy_from_slice(vstd::slice::slice_subrange(bytes, 49, HANDSHAKE_LEN)),
    };
    assert(buffer@.subrange(49, 68) =~= buffer@.skip(49));
    handshake
}

/// Whether the bytes of `handshake` fit in memory.
pub fn is_sendable(handshake: &Handshake) -> (r: bool)
    ensures
        r == (handshake_bytes(handshake@).len() <= isize::MAX),
{
    proof {
        lemma_protocol_header();
    }
    let size = 28 + bytes_len(&handshake.info_hash) as u128 + bytes_len(
        &handshake.peer_id,
    ) as u128;
    size <= isize::MAX as u128
}

/// The bytes to send for `handshake`.
pub fn send_handshake(handshake: Handshake) -> (r: Bytes)
    requires
        handshake_bytes(handshake@).len() <= isize::MAX,
    ensures
        bytes_view(r) == handshake_bytes(handshake@),
{
    proof {
        lemma_protocol_header();
    }
    let mut header = buffer_with_capacity(32);
    buffer_put_u8(&mut header, 19);
    buffer_put_slice(&mut header, "BitTorrent protocol".as_bytes());
    assert(buffer_view(header) =~= protocol_header());
    buffer_put_bytes(&mut header, 0, 8);
    buffer_put_slice(&mut header, bytes_as_slice(&handshake.info_hash));
    buffer_put_slice(&mut header, bytes_as_slice(&handshake.peer_id));
    assert(buffer_view(header) =~= handshake_bytes(handshake@));
    buffer_freeze(header)
}

/// A handshake with a hash and an id of twenty bytes each fills exactly the
/// bytes that a peer waits for, and they start as the peer asks.
pub proof fn law_handshake_is_accepted(handshake: HandshakeView)
    requires
        handshake.info_hash.len() == 20,
        handshake.peer_id.len() == 20,
    ensures
        handshake_bytes(handshake).len() == HANDSHAKE_LEN,
        handshake_bytes(handshake).take(20) == protocol_header(),
{
    lemma_protocol_header();
    assert(handshake_bytes(handshake).take(20) =~= protocol_header());
}

/// What is read off a sent handshake is what was sent, one byte further on: the
/// hash without its first byte and with the first byte of the id behind it, and
/// the id without its first byte.
pub proof fn law_handshake_is_read_one_byte_on(handshake: HandshakeView)
    requires
        handshake.info_hash.len() == 20,
        handshake.peer_id.len() == 20,
    ensures
        ({
            let read = handshake_of_bytes(handshake_bytes(handshake));
            &&& read.info_hash == handshake.info_hash.skip(1).push(handshake.peer_id[0])
            &&& read.peer_id == handshake.peer_id.skip(1)
        }),
{
    lemma_protocol_header();
    let read = handshake_of_bytes(handshake_bytes(handshake));
    assert(read.info_hash =~= handshake.info_hash.skip(1).push(handshake.peer_id[0]));
    assert(read.peer_id =~= handshake.peer_id.skip(1));
}

} // verus!
