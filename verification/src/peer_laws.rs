//! What a peer does about each thing that happens to it, said of what happens and of what is
//! done alone.
use crate::bencode::{bencode_dict, ItemView};
use crate::buffer::{be_value, bytes_view, lemma_be_bytes_of_value};
use crate::digest::sha1_of;
use crate::handshake::Handshake;
use crate::message::Message;
use crate::metainfo::MetaInfo;
use crate::peer::{
    actions, actions_view, handshake_about, peer_handler, peer_handshake, PeerAction, PeerCommand,
    PeerEvent, PeerState, PeerStateView, PeerUpdate,
};
use crate::storage::{storage_is_well_formed, with_block, BlockStorage, StorageView};
use crate::torrent_laws::{
    full_blocks, holds_block, is_file_of, is_taken_out, lemma_divide, lemma_file,
    lemma_the_fields_are_listed, lists_the_fields, stands_for,
};
use crate::wire_laws::{can_be_understood, lemma_request_payload, lemma_spelled_bits, spells};
use bytes::Bytes;
use vstd::prelude::*;
use vstd::string::*;
use vstd::utf8::*;

verus! {

/// Whether `action` writes a request for `length` bytes of `index` from `begin` on.
pub open spec fn is_request(action: PeerAction, index: u32, begin: int, length: int) -> bool {
    &&& action matches PeerAction::Write(msg)
    &&& msg@.id == 6
    &&& msg@.length == 13
    &&& msg@.payload matches Some(payload)
    &&& payload.len() == 12
    &&& be_value(payload, 0) == index
    &&& be_value(payload, 4) == begin
    &&& be_value(payload, 8) == length
}

/// Whatever its state is, a peer that is told to request a piece writes a request for each of
/// its blocks, one more than full blocks fit into it, in 32 bits: each for 16384 bytes from
/// where the one before ends. It gives up where their starts cannot be counted.
pub proof fn law_a_piece_is_requested_block_after_block(
    s: &mut PeerState,
    index: u32,
    full: int,
    count: u32,
    r: Option<Vec<PeerAction>>,
)
    requires
        old(s).wf(),
        full_blocks(old(s)@.storage.info.piece_length as int, full),
        (full + 1 - count) % 0x1_0000_0000 == 0,
    ensures
        ({
            let event = PeerEvent::Command(PeerCommand::RequestPiece { index });
            &&& call_requires(peer_handler, (s, event))
            &&& call_ensures(peer_handler, (s, event), r) ==> {
                &&& final(s)@ == old(s)@
                &&& r is Some <==> count <= 0x4_0000
                &&& r matches Some(done) ==> done@.len() == count && forall|i: int|
                    0 <= i < count ==> is_request(#[trigger] done@[i], index, i * 16384, 16384)
            }
        }),
{
    let event = PeerEvent::Command(PeerCommand::RequestPiece { index });
    lemma_divide(old(s)@.storage.info.piece_length as int, full);
    let n = full + 1;
    assert(n % 0x1_0000_0000 == count as int);
    if call_ensures(peer_handler, (s, event), r) && r is Some {
        let done = r->0@;
        let told = actions(old(s)@, event@);
        assert(actions_view(done) == told);
        assert forall|i: int| 0 <= i < count implies is_request(
            #[trigger] done[i],
            index,
            i * 16384,
            16384,
        ) by {
            assert(actions_view(done)[i] == done[i]@);
            assert(told[i] == done[i]@);
            lemma_request_payload(index, (i * 16384) as u32, 16384);
        }
    }
}

/// Whether `action` writes a request for bytes of `index` among which is that at `offset`.
pub open spec fn asks_for_byte(action: PeerAction, index: u32, offset: int) -> bool {
    &&& action matches PeerAction::Write(msg)
    &&& msg@.id == 6
    &&& msg@.payload matches Some(payload)
    &&& payload.len() == 12
    &&& be_value(payload, 0) == index
    &&& be_value(payload, 4) <= offset < be_value(payload, 4) + be_value(payload, 8)
}

/// Whatever its state is, a peer that is told to request a piece asks for every byte of it.
pub proof fn law_every_byte_of_a_piece_is_asked_for(
    s: &mut PeerState,
    index: u32,
    offset: int,
    r: Option<Vec<PeerAction>>,
)
    requires
        old(s).wf(),
        0 <= offset < old(s)@.storage.info.piece_length <= 0xffff_ffff,
        call_ensures(
            peer_handler,
            (s, PeerEvent::Command(PeerCommand::RequestPiece { index })),
            r,
        ),
    ensures
        r matches Some(done) && exists|i: int|
            0 <= i < done@.len() && asks_for_byte(#[trigger] done@[i], index, offset),
{
    let length = old(s)@.storage.info.piece_length as int;
    let full = length / 16384;
    law_a_piece_is_requested_block_after_block(s, index, full, (full + 1) as u32, r);
    let i = offset / 16384;
    assert(is_request(r->0@[i], index, i * 16384, 16384));
    assert(asks_for_byte(r->0@[i], index, offset));
}

proof fn lemma_one_action(done: Seq<PeerAction>, i: int)
    requires
        0 <= i < done.len(),
    ensures
        actions_view(done)[i] == done[i]@,
        actions_view(done).len() == done.len(),
{
}

/// A bitfield is told, with all its bits, and answered with interest, whatever the state is.
pub proof fn law_a_bitfield_is_told_and_answered(
    s: &mut PeerState,
    msg: Message,
    r: Option<Vec<PeerAction>>,
)
    requires
        old(s).wf(),
        msg@.id == 5,
        can_be_understood(msg@.id, msg@.payload),
    ensures
        call_requires(peer_handler, (s, PeerEvent::Read(Some(msg)))),
        call_ensures(peer_handler, (s, PeerEvent::Read(Some(msg))), r) ==> {
            &&& final(s)@ == old(s)@
            &&& r matches Some(done)
            &&& done@.len() == 2
            &&& done@[0] matches PeerAction::Update(PeerUpdate::Bitfield { peer_id, bits })
            &&& peer_id == old(s)@.peer_id
            &&& spells(bits@, msg@.payload->0)
            &&& done@[1] matches PeerAction::Write(answer)
            &&& answer@.id == 2
            &&& answer@.length == 1
            &&& answer@.payload is None
        },
{
    lemma_spelled_bits(msg@.payload->0);
    if call_ensures(peer_handler, (s, PeerEvent::Read(Some(msg))), r) {
        assert(r is Some);
        assert(actions_view(r->0@).len() == r->0@.len());
        lemma_one_action(r->0@, 0);
        lemma_one_action(r->0@, 1);
    }
}

/// Being unchoked is told and nothing else changes; being choked is noted and nothing is
/// done; both whatever the state is.
pub proof fn law_choking_and_unchoking_are_noted(
    s: &mut PeerState,
    msg: Message,
    r: Option<Vec<PeerAction>>,
)
    requires
        old(s).wf(),
        msg@.id <= 1,
    ensures
        call_requires(peer_handler, (s, PeerEvent::Read(Some(msg)))),
        call_ensures(peer_handler, (s, PeerEvent::Read(Some(msg))), r) ==> {
            &&& r matches Some(done)
            &&& msg@.id == 1 ==> {
                &&& done@.len() == 1
                &&& done@[0] matches PeerAction::Update(PeerUpdate::Unchoked { peer_id })
                &&& peer_id == old(s)@.peer_id
                &&& final(s)@ == old(s)@
            }
            &&& msg@.id == 0 ==> {
                &&& done@.len() == 0
                &&& final(s)@.choked
                &&& final(s)@.peer_id == old(s)@.peer_id
                &&& final(s)@.reqs_per_piece == old(s)@.reqs_per_piece
                &&& final(s)@.downloaded_bytes == old(s)@.downloaded_bytes
                &&& final(s)@.storage == old(s)@.storage
            }
        },
{
    if call_ensures(peer_handler, (s, PeerEvent::Read(Some(msg))), r) {
        assert(actions_view(r->0@).len() == r->0@.len());
        if msg@.id == 1 {
            lemma_one_action(r->0@, 0);
        }
    }
}

/// A peer gives up exactly on messages that are not understood, on interest, on blocks that
/// do not fit and on pieces that are not in order; here on the first two.
pub proof fn law_other_messages_are_given_up_on(
    s: &mut PeerState,
    msg: Message,
    r: Option<Vec<PeerAction>>,
)
    requires
        old(s).wf(),
        !can_be_understood(msg@.id, msg@.payload) || msg@.id == 2,
    ensures
        call_requires(peer_handler, (s, PeerEvent::Read(Some(msg)))),
        call_ensures(peer_handler, (s, PeerEvent::Read(Some(msg))), r) ==> r is None && final(s)@
            == old(s)@,
{
    if let Some(payload) = msg@.payload {
        assert(payload.len() * 8 <= usize::MAX / 8 <==> payload.len() <= usize::MAX / 64);
    }
}

/// A closed connection brings nothing to do, an exit command to stop, and neither changes
/// anything. When a second has gone by the bytes that came in are told, in 32 bits, and
/// counted anew.
pub proof fn law_what_is_done_when_nothing_is_read(
    s: &mut PeerState,
    closed: Option<Vec<PeerAction>>,
    exit: Option<Vec<PeerAction>>,
    tick: Option<Vec<PeerAction>>,
)
    requires
        old(s).wf(),
    ensures
        call_requires(peer_handler, (s, PeerEvent::Read(None))),
        call_ensures(peer_handler, (s, PeerEvent::Read(None)), closed) ==> closed is Some
            && closed->0@.len() == 0 && final(s)@ == old(s)@,
        call_requires(peer_handler, (s, PeerEvent::Command(PeerCommand::Exit))),
        call_ensures(peer_handler, (s, PeerEvent::Command(PeerCommand::Exit)), exit) ==> exit
            is Some && exit->0@.len() == 1 && exit->0@[0] is Stop && final(s)@ == old(s)@,
        call_requires(peer_handler, (s, PeerEvent::Tick)),
        call_ensures(peer_handler, (s, PeerEvent::Tick), tick) ==> {
            &&& tick matches Some(done)
            &&& done@.len() == 1
            &&& done@[0] matches PeerAction::Update(PeerUpdate::Downloaded { peer_id, bytes })
            &&& peer_id == old(s)@.peer_id
            &&& (old(s)@.downloaded_bytes - bytes) % 0x1_0000_0000 == 0
            &&& final(s)@.downloaded_bytes == 0
            &&& final(s)@.peer_id == old(s)@.peer_id
            &&& final(s)@.choked == old(s)@.choked
            &&& final(s)@.reqs_per_piece == old(s)@.reqs_per_piece
            &&& final(s)@.storage == old(s)@.storage
        },
{
    if call_ensures(peer_handler, (s, PeerEvent::Read(None)), closed) {
        assert(actions_view(closed->0@).len() == closed->0@.len());
    }
    if call_ensures(peer_handler, (s, PeerEvent::Command(PeerCommand::Exit)), exit) {
        assert(actions_view(exit->0@).len() == exit->0@.len());
        lemma_one_action(exit->0@, 0);
    }
    if call_ensures(peer_handler, (s, PeerEvent::Tick), tick) {
        assert(actions_view(tick->0@).len() == tick->0@.len());
        lemma_one_action(tick->0@, 0);
    }
}

proof fn lemma_held_block(
    before: StorageView,
    after: StorageView,
    piece: u32,
    block: int,
    data: Seq<u8>,
)
    requires
        storage_is_well_formed(before),
        0 <= block < 16,
        holds_block(before, after, piece, block, data),
    ensures
        after == with_block(before, piece, block, data),
{
    let put = with_block(before, piece, block, data);
    assert(after.blocks[piece] =~= put.blocks[piece]);
    assert(after.completed[piece] =~= put.completed[piece]);
    assert(after.blocks =~= put.blocks);
    assert(after.completed =~= put.completed);
}

/// Whether nothing but the bytes downloaded and the blocks differ.
pub open spec fn only_blocks_differ(before: PeerStateView, after: PeerStateView) -> bool {
    &&& after.peer_id == before.peer_id
    &&& after.choked == before.choked
    &&& after.reqs_per_piece == before.reqs_per_piece
}

/// A block that cannot be numbered among sixteen, or whose bytes cannot be counted, is given
/// up on, and nothing changes.
pub proof fn law_a_block_that_does_not_fit_is_given_up_on(
    s: &mut PeerState,
    msg: Message,
    r: Option<Vec<PeerAction>>,
)
    requires
        old(s).wf(),
        msg@.id == 7,
        msg@.payload is Some,
        msg@.payload->0.len() >= 8,
        be_value(msg@.payload->0, 4) >= 262144 || old(s)@.downloaded_bytes
            + msg@.payload->0.len() - 8 > usize::MAX,
    ensures
        call_requires(peer_handler, (s, PeerEvent::Read(Some(msg)))),
        call_ensures(peer_handler, (s, PeerEvent::Read(Some(msg))), r) ==> r is None && final(s)@
            == old(s)@,
{
    lemma_be_bytes_of_value(msg@.payload->0, 0);
    lemma_be_bytes_of_value(msg@.payload->0, 4);
}

/// A block that fits is held from then on and its bytes are counted. If that completes its
/// piece, and the piece has the digest that the torrent gives, its blocks are handed over to
/// be written to its file, it is told as finished, and it is no longer held. If it does not
/// complete the piece nothing is done. Where the piece cannot be told to be in order the
/// peer gives up. `held` is the storage with the block put in; `known`, `done`,
/// `comparable`, `digest` and `same` are what its functions say of the piece.
pub proof fn law_a_block_is_held_and_completes_its_piece(
    s: &mut PeerState,
    msg: Message,
    held: &BlockStorage,
    known: bool,
    done: bool,
    comparable: bool,
    digest: Vec<u8>,
    same: bool,
    r: Option<Vec<PeerAction>>,
)
    requires
        old(s).wf(),
        msg@.id == 7,
        msg@.payload is Some,
        msg@.payload->0.len() >= 8,
        be_value(msg@.payload->0, 4) < 262144,
        old(s)@.downloaded_bytes + msg@.payload->0.len() - 8 <= usize::MAX,
        holds_block(
            old(s)@.storage,
            held@,
            be_value(msg@.payload->0, 0) as u32,
            be_value(msg@.payload->0, 4) / 16384,
            msg@.payload->0.skip(8),
        ),
        call_ensures(
            BlockStorage::knows_progress,
            (held, be_value(msg@.payload->0, 0) as u32),
            known,
        ),
        call_ensures(
            BlockStorage::is_completed,
            (held, be_value(msg@.payload->0, 0) as u32),
            done,
        ),
        call_ensures(
            BlockStorage::is_comparable,
            (held, be_value(msg@.payload->0, 0) as u32),
            comparable,
        ),
        call_ensures(
            BlockStorage::digest_of_piece,
            (held, be_value(msg@.payload->0, 0) as u32),
            digest,
        ),
        call_ensures(
            BlockStorage::is_digest_of,
            (held, be_value(msg@.payload->0, 0) as u32, &digest),
            same,
        ),
    ensures
        call_requires(peer_handler, (s, PeerEvent::Read(Some(msg)))),
        call_ensures(peer_handler, (s, PeerEvent::Read(Some(msg))), r) ==> {
            let index = be_value(msg@.payload->0, 0) as u32;
            &&& only_blocks_differ(old(s)@, final(s)@)
            &&& final(s)@.downloaded_bytes == old(s)@.downloaded_bytes + msg@.payload->0.len() - 8
            &&& r is Some <==> known && (done ==> comparable && same)
            &&& r is None || !done ==> final(s)@.storage == held@
            &&& r is Some && !done ==> r->0@.len() == 0
            &&& r is Some && done ==> {
                &&& is_taken_out(held@, final(s)@.storage, index)
                &&& r->0@.len() == 2
                &&& r->0@[0] matches PeerAction::Store(file)
                &&& is_file_of(file, held@, index)
                &&& r->0@[1] matches PeerAction::Update(
                    PeerUpdate::FinishedPiece { peer_id, index: finished },
                )
                &&& peer_id == old(s)@.peer_id
                &&& finished == index
            }
        },
{
    let payload = msg@.payload->0;
    let index = be_value(payload, 0) as u32;
    lemma_be_bytes_of_value(payload, 0);
    lemma_be_bytes_of_value(payload, 4);
    lemma_held_block(old(s)@.storage, held@, index, be_value(payload, 4) / 16384, payload.skip(8));
    if call_ensures(peer_handler, (s, PeerEvent::Read(Some(msg))), r) {
        if r is Some {
            assert(actions_view(r->0@).len() == r->0@.len());
        }
        if r is Some && done {
            lemma_one_action(r->0@, 0);
            lemma_one_action(r->0@, 1);
            lemma_file(r->0@[0]->Store_0, held@, index);
        }
    }
}

/// A peer starts with its id, choked, with nothing downloaded, no piece begun, and the number
/// of full blocks that its torrent's pieces have.
pub proof fn law_a_peer_starts_afresh(peer_id: u8, info: MetaInfo, r: PeerState)
    ensures
        call_requires(PeerState::new, (peer_id, info)),
        call_ensures(PeerState::new, (peer_id, info), r) ==> {
            &&& r.wf()
            &&& r@.peer_id == peer_id
            &&& r@.choked
            &&& r@.downloaded_bytes == 0
            &&& full_blocks(info.info.piece_length as int, r@.reqs_per_piece as int)
            &&& r@.storage.blocks.dom() == Set::<u32>::empty()
            &&& r@.storage.completed.dom() == Set::<u32>::empty()
            &&& r@.storage.info.pieces == info.info.pieces@
            &&& r@.storage.info.piece_length == info.info.piece_length
            &&& r@.storage.info.length == info.info.length
        },
{
}

/// A block that is stored is held from then on and its bytes are counted.
pub proof fn law_a_stored_block_is_held(s: &mut PeerState, index: u32, begin: u32, data: Bytes)
    requires
        old(s).wf(),
        begin < 262144,
        old(s)@.downloaded_bytes + bytes_view(data).len() <= usize::MAX,
    ensures
        call_requires(PeerState::store_block, (s, index, begin, data)),
        call_ensures(PeerState::store_block, (s, index, begin, data), ()) ==> {
            &&& only_blocks_differ(old(s)@, final(s)@)
            &&& final(s)@.downloaded_bytes == old(s)@.downloaded_bytes + bytes_view(data).len()
            &&& holds_block(
                old(s)@.storage,
                final(s)@.storage,
                index,
                begin as int / 16384,
                bytes_view(data),
            )
        },
{
}

/// A piece is finished with a digest exactly if that is the one that the torrent gives.
pub proof fn law_a_piece_is_finished_with_its_digest(
    s: &mut PeerState,
    index: u32,
    digest: &Vec<u8>,
    r: Option<Vec<PeerAction>>,
)
    requires
        old(s).wf(),
        old(s)@.storage.blocks.contains_key(index),
        20 * index <= u32::MAX,
        20 * index + 20 <= old(s)@.storage.info.pieces.len(),
        digest@.len() * 2 <= isize::MAX,
    ensures
        call_requires(PeerState::finish_piece, (s, index, digest)),
        call_ensures(PeerState::finish_piece, (s, index, digest), r) ==> {
            &&& r is Some <==> stands_for(old(s)@.storage.info.pieces, index, digest@)
            &&& r is None ==> final(s)@ == old(s)@
            &&& r is Some ==> {
                &&& only_blocks_differ(old(s)@, final(s)@)
                &&& final(s)@.downloaded_bytes == old(s)@.downloaded_bytes
                &&& is_taken_out(old(s)@.storage, final(s)@.storage, index)
                &&& r->0@.len() == 2
                &&& r->0@[0] matches PeerAction::Store(file)
                &&& is_file_of(file, old(s)@.storage, index)
                &&& r->0@[1] matches PeerAction::Update(
                    PeerUpdate::FinishedPiece { peer_id, index: finished },
                )
                &&& peer_id == old(s)@.peer_id
                &&& finished == index
            }
        },
{
    let pieces = old(s)@.storage.info.pieces;
    let given = pieces.subrange(20 * index, 20 * index + 20);
    if digest@ == given {
        assert forall|i: int| 0 <= i < 20 implies #[trigger] digest@[i] == pieces[20 * index
            + i] by {
            assert(digest@[i] == given[i]);
        }
    }
    if stands_for(pieces, index, digest@) {
        assert(digest@ =~= given);
    }
    if call_ensures(PeerState::finish_piece, (s, index, digest), r) && r is Some {
        assert(actions_view(r->0@).len() == r->0@.len());
        lemma_one_action(r->0@, 0);
        lemma_one_action(r->0@, 1);
        lemma_file(r->0@[0]->Store_0, old(s)@.storage, index);
    }
}

/// A peer opens a connection with the hash of its torrent, as it is, and its own id.
pub proof fn law_a_peer_opens_with_the_hash(
    info: &MetaInfo,
    entries: Seq<(Seq<u8>, ItemView)>,
    hash: Vec<u8>,
    about: Handshake,
    opening: Handshake,
)
    requires
        lists_the_fields(info.info, entries),
    ensures
        call_requires(handshake_about, (hash,)),
        call_ensures(handshake_about, (hash,), about) ==> bytes_view(about.info_hash) == hash@
            && bytes_view(about.peer_id) == encode_utf8("AAAAAAAAAAAAAAAAAAAB"@),
        bencode_dict(entries).len() <= isize::MAX && bencode_dict(entries).len()
            <= 0x1fff_ffff_ffff_ffff ==> call_requires(peer_handshake, (info,)),
        call_ensures(peer_handshake, (info,), opening) ==> bytes_view(opening.info_hash) == sha1_of(
            bencode_dict(entries),
        ) && bytes_view(opening.peer_id) == encode_utf8("AAAAAAAAAAAAAAAAAAAB"@),
{
    lemma_the_fields_are_listed(info.info, entries);
}

/// Whatever happens, a peer stays well formed, and can take in what happens next.
pub proof fn law_a_peer_stays_well_formed(
    s: &mut PeerState,
    event: PeerEvent,
    r: Option<Vec<PeerAction>>,
    index: u32,
    begin: u32,
    data: Bytes,
    digest: &Vec<u8>,
)
    requires
        old(s).wf(),
    ensures
        call_requires(peer_handler, (s, event)),
        call_ensures(peer_handler, (s, event), r) ==> final(s).wf(),
        call_ensures(PeerState::store_block, (s, index, begin, data), ()) ==> final(s).wf(),
        call_ensures(PeerState::finish_piece, (s, index, digest), r) ==> final(s).wf(),
{
}

} // verus!
