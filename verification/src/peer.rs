//! What a peer is told, what it tells, and what it does about it.
use crate::bits::Bitfield;
use crate::buffer::{be_bytes, bytes_copy_from_slice, bytes_from_vec, bytes_len, bytes_view};
use crate::connection::is_framed;
use crate::digest::{sha1_of, SHA1_MAX_BYTES};
use crate::handshake::{Handshake, HandshakeView};
use crate::message::{
    is_understood, law_piece_payload_is_read_back, meaning, message_saying, Message, MessageView,
    PeerMessage, PeerMessageView,
};
use crate::metainfo::{
    bencode_info, divide, hash_info, info_is_hashable, last_piece_is_sized,
    spec_last_piece_index, MetaInfo, BLOCK_SIZE,
};
use crate::storage::{
    blocks_awaited, concat, decimal_text, law_storage_stays_well_formed, piece_digest, piece_file,
    piece_has_digest, piece_is_comparable, piece_is_completed, piece_is_genuine, progress_is_known,
    storage_is_well_formed, with_block, without_piece, BlockStorage, PieceFile, PieceFileView,
    StorageView,
};
use crate::wrap::{i64_as_u32, usize_as_u32, wrap_u32};
use bytes::Bytes;
use vstd::prelude::*;
use vstd::string::*;
use vstd::utf8::*;

verus! {

/// What a peer is told to do.
#[derive(Debug)]
pub enum PeerCommand {
    RequestPiece { index: u32 },
    Exit,
}

/// What a peer tells.
#[derive(Debug)]
pub enum PeerUpdate {
    Unchoked { peer_id: u8 },
    Choked { peer_id: u8 },
    Bitfield { peer_id: u8, bits: Bitfield },
    FinishedPiece { peer_id: u8, index: u32 },
    Downloaded { peer_id: u8, bytes: u32 },
}

/// What a `PeerUpdate` stands for.
#[verifier::ext_equal]
pub enum PeerUpdateView {
    Unchoked { peer_id: u8 },
    Choked { peer_id: u8 },
    Bitfield { peer_id: u8, bits: Seq<bool> },
    FinishedPiece { peer_id: u8, index: u32 },
    Downloaded { peer_id: u8, bytes: u32 },
}

impl View for PeerUpdate {
    type V = PeerUpdateView;

    open spec fn view(&self) -> PeerUpdateView {
        match *self {
            PeerUpdate::Unchoked { peer_id } => PeerUpdateView::Unchoked { peer_id },
            PeerUpdate::Choked { peer_id } => PeerUpdateView::Choked { peer_id },
            PeerUpdate::Bitfield { peer_id, bits } => PeerUpdateView::Bitfield {
                peer_id,
                bits: bits@,
            },
            PeerUpdate::FinishedPiece { peer_id, index } => PeerUpdateView::FinishedPiece {
                peer_id,
                index,
            },
            PeerUpdate::Downloaded { peer_id, bytes } => PeerUpdateView::Downloaded {
                peer_id,
                bytes,
            },
        }
    }
}

/// What happens to a peer.
#[derive(Debug)]
pub enum PeerEvent {
    /// The connection was read: a message, or nothing where it is closed.
    Read(Option<Message>),
    /// A command came in.
    Command(PeerCommand),
    /// Another second has gone by.
    Tick,
}

/// What a `PeerEvent` stands for.
#[verifier::ext_equal]
pub enum PeerEventView {
    Read(Option<MessageView>),
    Command(PeerCommand),
    Tick,
}

impl View for PeerEvent {
    type V = PeerEventView;

    open spec fn view(&self) -> PeerEventView {
        match *self {
            PeerEvent::Read(Some(message)) => PeerEventView::Read(Some(message@)),
            PeerEvent::Read(None) => PeerEventView::Read(None),
            PeerEvent::Command(command) => PeerEventView::Command(command),
            PeerEvent::Tick => PeerEventView::Tick,
        }
    }
}

/// What a peer does about it.
#[derive(Debug)]
pub enum PeerAction {
    /// Tell an update.
    Update(PeerUpdate),
    /// Write a message to the connection.
    Write(Message),
    /// Write a piece to its file.
    Store(PieceFile),
    /// Stop.
    Stop,
}

/// What a `PeerAction` stands for.
#[verifier::ext_equal]
pub enum PeerActionView {
    Update(PeerUpdateView),
    Write(MessageView),
    Store(PieceFileView),
    Stop,
}

impl View for PeerAction {
    type V = PeerActionView;

    open spec fn view(&self) -> PeerActionView {
        match *self {
            PeerAction::Update(update) => PeerActionView::Update(update@),
            PeerAction::Write(message) => PeerActionView::Write(message@),
            PeerAction::Store(file) => PeerActionView::Store(file@),
            PeerAction::Stop => PeerActionView::Stop,
        }
    }
}

/// What actions, one after the other, stand for.
pub open spec fn actions_view(actions: Seq<PeerAction>) -> Seq<PeerActionView> {
    actions.map_values(|action: PeerAction| action@)
}

/// Where a peer stands.
pub struct PeerState {
    peer_id: u8,
    choked: bool,
    reqs_per_piece: i64,
    downloaded_bytes: usize,
    block_storage: BlockStorage,
}

/// What a `PeerState` stands for.
#[verifier::ext_equal]
pub struct PeerStateView {
    pub peer_id: u8,
    pub choked: bool,
    pub reqs_per_piece: i64,
    pub downloaded_bytes: usize,
    pub storage: StorageView,
}

impl View for PeerState {
    type V = PeerStateView;

    closed spec fn view(&self) -> PeerStateView {
        PeerStateView {
            peer_id: self.peer_id,
            choked: self.choked,
            reqs_per_piece: self.reqs_per_piece,
            downloaded_bytes: self.downloaded_bytes,
            storage: self.block_storage@,
        }
    }
}

/// The storage is well formed, and the number of full blocks in a piece is what
/// its length says.
pub open spec fn state_is_well_formed(state: PeerStateView) -> bool {
    &&& storage_is_well_formed(state.storage)
    &&& state.reqs_per_piece == divide(state.storage.info.piece_length as int, BLOCK_SIZE as int)
}

/// The number of requests that a piece takes: one more than full blocks fit
/// into it, in 32 bits.
pub open spec fn request_count(state: PeerStateView) -> u32 {
    wrap_u32(state.reqs_per_piece + 1)
}

/// The requests for a piece, block after block.
pub open spec fn piece_requests(state: PeerStateView, index: u32) -> Seq<PeerActionView> {
    Seq::new(
        request_count(state) as nat,
        |i: int|
            PeerActionView::Write(
                message_saying(
                    PeerMessageView::Request {
                        index,
                        begin: (i * BLOCK_SIZE) as u32,
                        length: BLOCK_SIZE,
                    },
                ),
            ),
    )
}

/// Whether a block can be put in: it is one of sixteen, and the bytes downloaded
/// can be counted.
pub open spec fn block_fits(state: PeerStateView, begin: u32, data: Seq<u8>) -> bool {
    &&& begin / BLOCK_SIZE < 16
    &&& state.downloaded_bytes + data.len() <= usize::MAX
}

/// The state with a block put in.
pub open spec fn with_piece_data(
    state: PeerStateView,
    index: u32,
    begin: u32,
    data: Seq<u8>,
) -> PeerStateView {
    PeerStateView {
        downloaded_bytes: (state.downloaded_bytes + data.len()) as usize,
        storage: with_block(state.storage, index, (begin / BLOCK_SIZE) as int, data),
        ..state
    }
}

/// Whether a piece, once it is completed, can be handed over.
pub open spec fn piece_is_in_order(storage: StorageView, index: u32) -> bool {
    &&& progress_is_known(storage, index)
    &&& piece_is_completed(storage, index) ==> {
        &&& piece_is_comparable(storage, index)
        &&& piece_is_genuine(storage, index)
    }
}

/// Whether a peer goes on after `event`. It gives up on messages that it does
/// not understand or has no use for, on blocks that do not fit, on pieces that
/// are not as the torrent says, and on pieces with more blocks than a request
/// can number.
pub open spec fn goes_on(state: PeerStateView, event: PeerEventView) -> bool {
    match event {
        PeerEventView::Read(Some(message)) => {
            &&& is_understood(message)
            &&& match meaning(message) {
                PeerMessageView::Interested => false,
                PeerMessageView::Piece { index, begin, data } => {
                    &&& block_fits(state, begin, data)
                    &&& piece_is_in_order(
                        with_piece_data(state, index, begin, data).storage,
                        index,
                    )
                },
                _ => true,
            }
        },
        PeerEventView::Command(PeerCommand::RequestPiece { .. }) => request_count(state)
            <= 0x4_0000,
        _ => true,
    }
}

/// Where a peer stands after `event`, if it goes on.
pub open spec fn next_state(state: PeerStateView, event: PeerEventView) -> PeerStateView {
    match event {
        PeerEventView::Read(Some(message)) => match meaning(message) {
            PeerMessageView::Choke => PeerStateView { choked: true, ..state },
            PeerMessageView::Piece { index, begin, data } => {
                let taken = with_piece_data(state, index, begin, data);
                if piece_is_completed(taken.storage, index) {
                    PeerStateView { storage: without_piece(taken.storage, index), ..taken }
                } else {
                    taken
                }
            },
            _ => state,
        },
        PeerEventView::Tick => PeerStateView { downloaded_bytes: 0, ..state },
        _ => state,
    }
}

/// What a peer does about a completed piece: it stores the piece and tells that it
/// is finished.
pub open spec fn piece_actions(state: PeerStateView, index: u32) -> Seq<PeerActionView> {
    seq![
        PeerActionView::Store(piece_file(state.storage, index)),
        PeerActionView::Update(
            PeerUpdateView::FinishedPiece { peer_id: state.peer_id, index },
        ),
    ]
}

/// What a peer does about `event`, if it goes on.
pub open spec fn actions(state: PeerStateView, event: PeerEventView) -> Seq<PeerActionView> {
    let peer_id = state.peer_id;
    match event {
        PeerEventView::Read(Some(message)) => match meaning(message) {
            PeerMessageView::Bitfield { bits } => seq![
                PeerActionView::Update(PeerUpdateView::Bitfield { peer_id, bits }),
                PeerActionView::Write(message_saying(PeerMessageView::Interested)),
            ],
            PeerMessageView::Unchoke => seq![
                PeerActionView::Update(PeerUpdateView::Unchoked { peer_id }),
            ],
            PeerMessageView::Piece { index, begin, data } => {
                let taken = with_piece_data(state, index, begin, data);
                if piece_is_completed(taken.storage, index) {
                    piece_actions(taken, index)
                } else {
                    Seq::empty()
                }
            },
            _ => Seq::empty(),
        },
        PeerEventView::Read(None) => Seq::empty(),
        PeerEventView::Command(PeerCommand::RequestPiece { index }) => piece_requests(
            state,
            index,
        ),
        PeerEventView::Command(PeerCommand::Exit) => seq![PeerActionView::Stop],
        PeerEventView::Tick => seq![
            PeerActionView::Update(
                PeerUpdateView::Downloaded {
                    peer_id,
                    bytes: wrap_u32(state.downloaded_bytes as int),
                },
            ),
        ],
    }
}

/// Where a peer stands when it gives up over `event`: a block that fits was put
/// in, and nothing else has changed.
pub open spec fn last_state(state: PeerStateView, event: PeerEventView) -> PeerStateView {
    match event {
        PeerEventView::Read(Some(message)) => match meaning(message) {
            PeerMessageView::Piece { index, begin, data } => if is_understood(message)
                && block_fits(state, begin, data) {
                with_piece_data(state, index, begin, data)
            } else {
                state
            },
            _ => state,
        },
        _ => state,
    }
}

/// The handshake to open a connection about the torrent with the hash `info_hash`.
pub fn handshake_about(info_hash: Vec<u8>) -> (r: Handshake)
    ensures
        r@ == (HandshakeView {
            info_hash: info_hash@,
            peer_id: encode_utf8("AAAAAAAAAAAAAAAAAAAB"@),
        }),
        r@.peer_id.len() == 20,
{
    proof {
        reveal_strlit("AAAAAAAAAAAAAAAAAAAB");
        is_ascii_spec_bytes("AAAAAAAAAAAAAAAAAAAB");
    }
    Handshake {
        info_hash: bytes_from_vec(info_hash),
        peer_id: bytes_copy_from_slice("AAAAAAAAAAAAAAAAAAAB".as_bytes()),
    }
}

/// The handshake to open a connection about the torrent `info`.
pub fn peer_handshake(info: &MetaInfo) -> (r: Handshake)
    requires
        info_is_hashable(info.info@),
    ensures
        r@ == (HandshakeView {
            info_hash: sha1_of(bencode_info(info.info@)),
            peer_id: encode_utf8("AAAAAAAAAAAAAAAAAAAB"@),
        }),
        r@.info_hash.len() == 20,
        r@.peer_id.len() == 20,
{
    handshake_about(hash_info(info))
}

impl PeerState {
    /// See `state_is_well_formed`.
    pub open spec fn wf(&self) -> bool {
        state_is_well_formed(self@)
    }

    /// The state in which a peer starts: choked, and with nothing downloaded.
    pub fn new(peer_id: u8, info: MetaInfo) -> (r: PeerState)
        ensures
            r.wf(),
            r@ == (PeerStateView {
                peer_id,
                choked: true,
                reqs_per_piece: divide(info.info@.piece_length as int, BLOCK_SIZE as int) as i64,
                downloaded_bytes: 0,
                storage: StorageView {
                    blocks: Map::empty(),
                    completed: Map::empty(),
                    info: info.info@,
                },
            }),
    {
        let reqs_per_piece = info.info.piece_length / BLOCK_SIZE as i64;
        PeerState {
            peer_id,
            choked: true,
            reqs_per_piece,
            downloaded_bytes: 0,
            block_storage: BlockStorage::new(info.info),
        }
    }

    /// Puts in a block that fits.
    pub fn store_block(&mut self, index: u32, begin: u32, data: Bytes)
        requires
            old(self).wf(),
            block_fits(old(self)@, begin, bytes_view(data)),
        ensures
            final(self).wf(),
            final(self)@ == with_piece_data(old(self)@, index, begin, bytes_view(data)),
    {
        self.downloaded_bytes = self.downloaded_bytes + bytes_len(&data);
        let block_idx = (begin / BLOCK_SIZE) as usize;
        self.block_storage.insert_block(index, block_idx, data);
    }

    /// Hands over a piece that is under way, if `digest` is the one that the torrent
    /// gives for it, and tells that it is finished. That the piece is completed and that
    /// its content has this digest is the caller's to know: neither is looked at.
    pub fn finish_piece(&mut self, index: u32, digest: &Vec<u8>) -> (r: Option<Vec<PeerAction>>)
        requires
            old(self).wf(),
            old(self)@.storage.blocks.contains_key(index),
            piece_has_digest(old(self)@.storage.info, index),
            digest@.len() * 2 <= isize::MAX,
        ensures
            final(self).wf(),
            r is Some <==> digest@ == piece_digest(old(self)@.storage.info, index),
            r is Some ==> {
                &&& actions_view(r->0@) == piece_actions(old(self)@, index)
                &&& final(self)@ == (PeerStateView {
                    storage: without_piece(old(self)@.storage, index),
                    ..old(self)@
                })
            },
            r is None ==> final(self)@ == old(self)@,
    {
        match self.block_storage.flush_piece_with_digest(index, digest) {
            None => None,
            Some(file) => {
                let mut done: Vec<PeerAction> = Vec::new();
                done.push(PeerAction::Store(file));
                done.push(
                    PeerAction::Update(PeerUpdate::FinishedPiece { peer_id: self.peer_id, index }),
                );
                assert(actions_view(done@) =~= piece_actions(old(self)@, index));
                Some(done)
            },
        }
    }

    /// Puts in a block that fits, and hands over the piece if that completes it.
    fn take_block(&mut self, index: u32, begin: u32, data: Bytes) -> (r: Option<Vec<PeerAction>>)
        requires
            old(self).wf(),
            block_fits(old(self)@, begin, bytes_view(data)),
        ensures
            final(self).wf(),
            ({
                let taken = with_piece_data(old(self)@, index, begin, bytes_view(data));
                &&& r is Some <==> piece_is_in_order(taken.storage, index)
                &&& r is None ==> final(self)@ == taken
                &&& r is Some && !piece_is_completed(taken.storage, index) ==> {
                    &&& final(self)@ == taken
                    &&& actions_view(r->0@) == Seq::<PeerActionView>::empty()
                }
                &&& r is Some && piece_is_completed(taken.storage, index) ==> {
                    &&& final(self)@ == (PeerStateView {
                        storage: without_piece(taken.storage, index),
                        ..taken
                    })
                    &&& actions_view(r->0@) == piece_actions(taken, index)
                }
            }),
    {
        self.store_block(index, begin, data);
        if !self.block_storage.knows_progress(index) {
            return None;
        }
        if !self.block_storage.is_completed(index) {
            return Some(Vec::new());
        }
        if !self.block_storage.is_comparable(index) {
            return None;
        }
        let digest = self.block_storage.digest_of_piece(index);
        self.finish_piece(index, &digest)
    }
}

/// One step of a peer: takes in `event` and returns what to do about it, or
/// nothing where the peer gives up.
pub fn peer_handler(state: &mut PeerState, event: PeerEvent) -> (r: Option<Vec<PeerAction>>)
    requires
        old(state).wf(),
    ensures
        final(state).wf(),
        r is Some <==> goes_on(old(state)@, event@),
        r is Some ==> actions_view(r->0@) == actions(old(state)@, event@),
        r is Some ==> final(state)@ == next_state(old(state)@, event@),
        r is None ==> final(state)@ == last_state(old(state)@, event@),
{
    let mut done: Vec<PeerAction> = Vec::new();
    match event {
        PeerEvent::Read(None) => {},
        PeerEvent::Read(Some(msg)) => {
            if !msg.is_understood() {
                return None;
            }
            match PeerMessage::from(msg) {
                PeerMessage::Choke => {
                    state.choked = true;
                },
                PeerMessage::Bitfield { bits } => {
                    done.push(
                        PeerAction::Update(PeerUpdate::Bitfield { peer_id: state.peer_id, bits }),
                    );
                    done.push(PeerAction::Write(Message::from(PeerMessage::Interested)));
                },
                PeerMessage::Unchoke => {
                    done.push(PeerAction::Update(PeerUpdate::Unchoked { peer_id: state.peer_id }));
                },
                PeerMessage::Piece { index, begin, data } => {
                    if begin / BLOCK_SIZE >= 16 || bytes_len(&data) > usize::MAX
                        - state.downloaded_bytes {
                        return None;
                    }
                    return state.take_block(index, begin, data);
                },
                _ => {
                    return None;
                },
            }
        },
        PeerEvent::Command(PeerCommand::RequestPiece { index }) => {
            let count = i64_as_u32(state.reqs_per_piece + 1);
            if count > 0x4_0000 {
                return None;
            }
            for i in 0..count
                invariant
                    count <= 0x4_0000,
                    count == request_count(state@),
                    done@.len() == i,
                    forall|k: int|
                        0 <= k < i ==> (#[trigger] done@[k])@ == piece_requests(state@, index)[k],
            {
                done.push(
                    PeerAction::Write(
                        Message::from(
                            PeerMessage::Request {
                                index,
                                begin: i * BLOCK_SIZE,
                                length: BLOCK_SIZE,
                            },
                        ),
                    ),
                );
            }
            assert(actions_view(done@) =~= piece_requests(state@, index));
        },
        PeerEvent::Command(PeerCommand::Exit) => {
            done.push(PeerAction::Stop);
        },
        PeerEvent::Tick => {
            done.push(
                PeerAction::Update(
                    PeerUpdate::Downloaded {
                        peer_id: state.peer_id,
                        bytes: usize_as_u32(state.downloaded_bytes),
                    },
                ),
            );
            state.downloaded_bytes = 0;
        },
    }
    assert(actions_view(done@) =~= actions(old(state)@, event@));
    Some(done)
}

/// A peer tells that a piece is finished only together with a file to store, whose
/// content has the digest that the torrent gives for the piece.
pub proof fn law_only_genuine_pieces_are_finished(
    state: PeerStateView,
    event: PeerEventView,
    peer_id: u8,
    index: u32,
)
    requires
        state_is_well_formed(state),
        goes_on(state, event),
        actions(state, event).contains(
            PeerActionView::Update(PeerUpdateView::FinishedPiece { peer_id, index }),
        ),
    ensures
        peer_id == state.peer_id,
        actions(state, event).len() == 2,
        actions(state, event)[0] matches PeerActionView::Store(file) && file.filename
            == "piece"@ + decimal_text(index as nat) && sha1_of(concat(file.blocks))
            == piece_digest(state.storage.info, index),
        actions(state, event)[1] == PeerActionView::Update(
            PeerUpdateView::FinishedPiece { peer_id, index },
        ),
{
    let finished = PeerActionView::Update(PeerUpdateView::FinishedPiece { peer_id, index });
    let done = actions(state, event);
    let k = choose|k: int| 0 <= k < done.len() && done[k] == finished;
    assert(done[k] == finished);
}

/// Whatever happens, a peer keeps its id and its torrent, and its state stays well
/// formed.
pub proof fn law_a_peer_keeps_its_id_and_torrent(state: PeerStateView, event: PeerEventView)
    requires
        state_is_well_formed(state),
        goes_on(state, event),
    ensures
        state_is_well_formed(next_state(state, event)),
        next_state(state, event).peer_id == state.peer_id,
        next_state(state, event).storage.info == state.storage.info,
        next_state(state, event).reqs_per_piece == state.reqs_per_piece,
{
}

/// The requests for a piece ask for all of it: every byte of a piece lies in the
/// block that some request asks for.
pub proof fn law_requests_cover_a_piece(state: PeerStateView, index: u32, offset: int)
    requires
        state_is_well_formed(state),
        goes_on(state, PeerEventView::Command(PeerCommand::RequestPiece { index })),
        state.reqs_per_piece < u32::MAX,
        0 <= offset < state.storage.info.piece_length,
    ensures
        exists|i: int, begin: u32|
            0 <= i < piece_requests(state, index).len() && begin <= offset < begin + BLOCK_SIZE
                && #[trigger] piece_requests(state, index)[i] == #[trigger] request_action(
                index,
                begin,
            ),
{
    let i = offset / BLOCK_SIZE as int;
    let begin = (i * BLOCK_SIZE) as u32;
    assert(i * BLOCK_SIZE <= offset < i * BLOCK_SIZE + BLOCK_SIZE);
    assert(i <= state.storage.info.piece_length as int / BLOCK_SIZE as int);
    assert(request_count(state) == state.reqs_per_piece + 1);
    assert(piece_requests(state, index)[i] == request_action(index, begin));
}

/// The writing of a request for the block of `index` that starts at `begin`.
pub open spec fn request_action(index: u32, begin: u32) -> PeerActionView {
    PeerActionView::Write(
        message_saying(PeerMessageView::Request { index, begin, length: BLOCK_SIZE }),
    )
}

/// Every message that a peer writes can be read back by its counterpart; see
/// `law_read_gives_back_what_was_written`.
pub proof fn law_written_messages_are_framed(
    state: PeerStateView,
    event: PeerEventView,
    message: MessageView,
)
    requires
        goes_on(state, event),
        actions(state, event).contains(PeerActionView::Write(message)),
    ensures
        is_framed(message),
{
    let done = actions(state, event);
    let k = choose|k: int| 0 <= k < done.len() && done[k] == PeerActionView::Write(message);
    assert(done[k] == PeerActionView::Write(message));
}

/// Where a peer stands after `events`, one after the other.
pub open spec fn state_after(state: PeerStateView, events: Seq<PeerEventView>) -> PeerStateView
    decreases events.len(),
{
    if events.len() == 0 {
        state
    } else {
        next_state(state_after(state, events.drop_last()), events.last())
    }
}

/// Whether a peer goes on through all of `events`.
pub open spec fn goes_on_through(state: PeerStateView, events: Seq<PeerEventView>) -> bool
    decreases events.len(),
{
    events.len() > 0 ==> {
        &&& goes_on_through(state, events.drop_last())
        &&& goes_on(state_after(state, events.drop_last()), events.last())
    }
}

/// The number of bytes that `event` brings.
pub open spec fn bytes_brought(event: PeerEventView) -> int {
    match event {
        PeerEventView::Read(Some(message)) => match meaning(message) {
            PeerMessageView::Piece { data, .. } => data.len() as int,
            _ => 0,
        },
        _ => 0,
    }
}

/// The number of bytes that `events` bring since the last second has gone by, or
/// since they began, with `before` to start with.
pub open spec fn bytes_since_tick(before: int, events: Seq<PeerEventView>) -> int
    decreases events.len(),
{
    if events.len() == 0 {
        before
    } else if events.last() is Tick {
        0
    } else {
        bytes_since_tick(before, events.drop_last()) + bytes_brought(events.last())
    }
}

/// What a peer tells as downloaded when another second has gone by is what came in
/// since the second before, in 32 bits.
pub proof fn law_downloaded_bytes_add_up(state: PeerStateView, events: Seq<PeerEventView>)
    requires
        goes_on_through(state, events),
    ensures
        ({
            let now = state_after(state, events);
            let bytes = bytes_since_tick(state.downloaded_bytes as int, events);
            &&& now.downloaded_bytes == bytes
            &&& actions(now, PeerEventView::Tick) == seq![
                PeerActionView::Update(
                    PeerUpdateView::Downloaded { peer_id: now.peer_id, bytes: wrap_u32(bytes) },
                ),
            ]
        }),
    decreases events.len(),
{
    if events.len() > 0 {
        law_downloaded_bytes_add_up(state, events.drop_last());
    }
}

/// The reading of a piece message that brings the block `block` of the piece
/// `index`.
pub open spec fn block_event(index: u32, block: int, data: Seq<u8>) -> PeerEventView {
    PeerEventView::Read(
        Some(
            MessageView {
                length: (9 + data.len()) as i32,
                id: 7,
                payload: Some(be_bytes(index as int) + be_bytes(block * BLOCK_SIZE) + data),
            },
        ),
    )
}

/// The readings of the blocks `data` of a piece, in the order `order`.
pub open spec fn block_events(index: u32, order: Seq<int>, data: Seq<Seq<u8>>) -> Seq<
    PeerEventView,
> {
    Seq::new(order.len(), |k: int| block_event(index, order[k], data[order[k]]))
}

/// Whether `order` names each of the first `n` blocks once, and no other block.
pub open spec fn is_order_of(order: Seq<int>, n: int) -> bool {
    &&& order.no_duplicates()
    &&& forall|k: int| 0 <= k < order.len() ==> 0 <= #[trigger] order[k] < n
    &&& forall|b: int| 0 <= b < n ==> #[trigger] order.contains(b)
}

/// The sixteen blocks of a piece that start with `data` and are empty behind it.
pub open spec fn padded(data: Seq<Seq<u8>>) -> Seq<Seq<u8>> {
    Seq::new(
        16,
        |b: int|
            if b < data.len() {
                data[b]
            } else {
                Seq::empty()
            },
    )
}

/// Whether a download of the piece `index` can begin with `state` and end well with
/// the blocks `data`: the piece is not under way, it waits for as many blocks, and
/// they have the digest that the torrent gives for it.
pub open spec fn can_download(state: PeerStateView, index: u32, data: Seq<Seq<u8>>) -> bool {
    let info = state.storage.info;
    &&& state_is_well_formed(state)
    &&& !state.storage.blocks.contains_key(index)
    &&& piece_has_digest(info, index)
    &&& index == spec_last_piece_index(info) ==> last_piece_is_sized(info)
    &&& data.len() > 0
    &&& data.len() == blocks_awaited(info, index)
    &&& concat(data).len() <= SHA1_MAX_BYTES
    &&& sha1_of(concat(data)) == piece_digest(info, index)
}

/// Whether of the piece `index` exactly the blocks that `come` names are in, with
/// the content that `data` gives.
spec fn holds_blocks(
    storage: StorageView,
    index: u32,
    come: Seq<int>,
    data: Seq<Seq<u8>>,
) -> bool {
    &&& storage.blocks.contains_key(index)
    &&& storage.completed.contains_key(index)
    &&& forall|b: int|
        0 <= b < 16 ==> #[trigger] storage.completed[index][b] == come.contains(b)
    &&& forall|b: int|
        0 <= b < 16 ==> #[trigger] storage.blocks[index][b] == if come.contains(b) {
            data[b]
        } else {
            Seq::empty()
        }
}

proof fn lemma_block_event(index: u32, block: int, data: Seq<u8>)
    requires
        0 <= block < 16,
    ensures
        block_event(index, block, data) matches PeerEventView::Read(Some(message))
            && is_understood(message) && meaning(message) == (PeerMessageView::Piece {
            index,
            begin: (block * BLOCK_SIZE) as u32,
            data,
        }),
        (block * BLOCK_SIZE) as u32 / BLOCK_SIZE == block,
{
    law_piece_payload_is_read_back(
        (9 + data.len()) as i32,
        index,
        (block * BLOCK_SIZE) as u32,
        data,
    );
}

proof fn lemma_take_contains(order: Seq<int>, k: int, b: int)
    requires
        order.no_duplicates(),
        0 <= k < order.len(),
    ensures
        order.take(k + 1).contains(b) == (order.take(k).contains(b) || b == order[k]),
        !order.take(k).contains(order[k]),
{
    let (less, more) = (order.take(k), order.take(k + 1));
    assert(more[k] == order[k]);
    if less.contains(b) {
        let j = choose|j: int| 0 <= j < less.len() && less[j] == b;
        assert(more[j] == b);
    }
    if more.contains(b) && b != order[k] {
        let j = choose|j: int| 0 <= j < more.len() && more[j] == b;
        assert(less[j] == b);
    }
}

proof fn lemma_block_comes_in(
    storage: StorageView,
    index: u32,
    order: Seq<int>,
    data: Seq<Seq<u8>>,
    k: int,
)
    requires
        storage_is_well_formed(storage),
        order.no_duplicates(),
        0 <= k < order.len(),
        0 <= order[k] < 16,
        k == 0 ==> !storage.blocks.contains_key(index),
        k > 0 ==> holds_blocks(storage, index, order.take(k), data),
    ensures
        storage_is_well_formed(with_block(storage, index, order[k], data[order[k]])),
        holds_blocks(
            with_block(storage, index, order[k], data[order[k]]),
            index,
            order.take(k + 1),
            data,
        ),
{
    law_storage_stays_well_formed(storage, index, order[k], data[order[k]]);
    let after = with_block(storage, index, order[k], data[order[k]]);
    assert forall|b: int| 0 <= b < 16 implies {
        &&& #[trigger] after.completed[index][b] == order.take(k + 1).contains(b)
        &&& after.blocks[index][b] == if order.take(k + 1).contains(b) {
            data[b]
        } else {
            Seq::empty()
        }
    } by {
        lemma_take_contains(order, k, b);
        if k > 0 {
            assert(storage.completed[index][b] == order.take(k).contains(b));
            assert(storage.blocks[index][b] == if order.take(k).contains(b) {
                data[b]
            } else {
                Seq::empty()
            });
        }
    }
    assert forall|b: int| 0 <= b < 16 implies #[trigger] after.blocks[index][b] == if order.take(
        k + 1,
    ).contains(b) {
        data[b]
    } else {
        Seq::empty()
    } by {
        assert(after.completed[index][b] == order.take(k + 1).contains(b));
    }
}

proof fn lemma_bytes_grow(before: int, events: Seq<PeerEventView>, k: int)
    requires
        0 <= k <= events.len(),
        forall|i: int| 0 <= i < events.len() ==> !((#[trigger] events[i]) is Tick),
    ensures
        bytes_since_tick(before, events.take(k)) <= bytes_since_tick(before, events),
    decreases events.len() - k,
{
    if k == events.len() {
        assert(events.take(k) =~= events);
    } else {
        lemma_bytes_grow(before, events, k + 1);
        assert(events.take(k + 1).drop_last() =~= events.take(k));
        assert(events.take(k + 1).last() == events[k]);
    }
}

proof fn lemma_blocks_come_in(
    state: PeerStateView,
    index: u32,
    order: Seq<int>,
    data: Seq<Seq<u8>>,
    k: int,
)
    requires
        can_download(state, index, data),
        is_order_of(order, data.len() as int),
        bytes_since_tick(state.downloaded_bytes as int, block_events(index, order, data))
            <= usize::MAX,
        0 <= k < order.len(),
    ensures
        ({
            let events = block_events(index, order, data);
            let now = state_after(state, events.take(k));
            &&& goes_on_through(state, events.take(k))
            &&& state_is_well_formed(now)
            &&& now.peer_id == state.peer_id
            &&& now.storage.info == state.storage.info
            &&& k == 0 ==> !now.storage.blocks.contains_key(index)
            &&& k > 0 ==> holds_blocks(now.storage, index, order.take(k), data)
            &&& now.downloaded_bytes + data[order[k]].len() <= usize::MAX
            &&& k > 0 ==> actions(state_after(state, events.take(k - 1)), events[k - 1])
                == Seq::<PeerActionView>::empty()
        }),
    decreases k,
{
    let events = block_events(index, order, data);
    assert forall|i: int| 0 <= i < events.len() implies !((#[trigger] events[i]) is Tick) by {}
    if k > 0 {
        let last = order[k - 1];
        lemma_blocks_come_in(state, index, order, data, k - 1);
        let before = state_after(state, events.take(k - 1));
        assert(events.take(k).drop_last() =~= events.take(k - 1));
        assert(events.take(k).last() == events[k - 1]);
        lemma_block_event(index, last, data[last]);
        lemma_block_comes_in(before.storage, index, order, data, k - 1);
        lemma_take_contains(order, k, order[k]);
        let taken = with_block(before.storage, index, last, data[last]);
        assert(!taken.completed[index][order[k]]);
        assert(!piece_is_completed(taken, index));
        assert(goes_on(before, events[k - 1]));
        assert(actions(before, events[k - 1]) =~= Seq::<PeerActionView>::empty());
    } else {
        assert(events.take(0) =~= Seq::empty());
    }
    lemma_bytes_grow(state.downloaded_bytes as int, events, k + 1);
    assert(events.take(k + 1).drop_last() =~= events.take(k));
    assert(events.take(k + 1).last() == events[k]);
    lemma_block_event(index, order[k], data[order[k]]);
    law_downloaded_bytes_add_up(state, events.take(k));
}

proof fn lemma_padding_adds_nothing(data: Seq<Seq<u8>>, n: int)
    requires
        data.len() <= n <= 16,
    ensures
        concat(padded(data).take(n)) == concat(data),
    decreases n,
{
    if n == data.len() {
        assert(padded(data).take(n) =~= data);
    } else {
        lemma_padding_adds_nothing(data, n - 1);
        assert(padded(data).take(n).drop_last() =~= padded(data).take(n - 1));
        assert(padded(data).take(n).last() =~= Seq::<u8>::empty());
        assert(concat(padded(data).take(n)) =~= concat(data));
    }
}

/// A piece that comes in block after block, in whatever order, is finished by its
/// last block and not before: then the peer stores the blocks, tells that the piece
/// is finished, and keeps none of it.
pub proof fn law_a_piece_is_finished_by_its_last_block(
    state: PeerStateView,
    index: u32,
    order: Seq<int>,
    data: Seq<Seq<u8>>,
)
    requires
        can_download(state, index, data),
        is_order_of(order, data.len() as int),
        bytes_since_tick(state.downloaded_bytes as int, block_events(index, order, data))
            <= usize::MAX,
    ensures
        ({
            let events = block_events(index, order, data);
            let end = events.len() - 1;
            &&& goes_on_through(state, events)
            &&& forall|k: int|
                0 <= k < end ==> actions(
                    state_after(state, #[trigger] events.take(k)),
                    events[k],
                ) == Seq::<PeerActionView>::empty()
            &&& actions(state_after(state, events.take(end)), events[end]) == seq![
                PeerActionView::Store(
                    PieceFileView {
                        filename: "piece"@ + decimal_text(index as nat),
                        blocks: padded(data),
                    },
                ),
                PeerActionView::Update(
                    PeerUpdateView::FinishedPiece { peer_id: state.peer_id, index },
                ),
            ]
            &&& !state_after(state, events).storage.blocks.contains_key(index)
        }),
{
    let events = block_events(index, order, data);
    assert(order.contains(0));
    let end = events.len() - 1;
    let last = order[end];
    lemma_blocks_come_in(state, index, order, data, end);
    let before = state_after(state, events.take(end));
    assert(events.drop_last() =~= events.take(end));
    lemma_block_event(index, last, data[last]);
    lemma_block_comes_in(before.storage, index, order, data, end);
    assert(order.take(end + 1) =~= order);
    let taken = with_block(before.storage, index, last, data[last]);
    assert(taken.blocks[index] =~= padded(data)) by {
        assert forall|b: int| 0 <= b < 16 implies taken.blocks[index][b] == padded(data)[b] by {
            assert(b < data.len() ==> order.contains(b));
        }
    }
    lemma_padding_adds_nothing(data, 16);
    assert(padded(data).take(16) =~= padded(data));
    assert(piece_is_completed(taken, index));
    assert(goes_on(before, events[end]));
    assert(actions(before, events[end]) =~= piece_actions(
        with_piece_data(before, index, (last * BLOCK_SIZE) as u32, data[last]),
        index,
    ));
    assert forall|k: int| 0 <= k < end implies actions(
        state_after(state, #[trigger] events.take(k)),
        events[k],
    ) == Seq::<PeerActionView>::empty() by {
        lemma_blocks_come_in(state, index, order, data, k + 1);
    }
}

/// A peer stops at an exit command, and at nothing else.
pub proof fn law_only_an_exit_command_stops(state: PeerStateView, event: PeerEventView)
    ensures
        actions(state, event).contains(PeerActionView::Stop) <==> event == PeerEventView::Command(
            PeerCommand::Exit,
        ),
        goes_on(state, PeerEventView::Command(PeerCommand::Exit)),
{
    let done = actions(state, event);
    if done.contains(PeerActionView::Stop) {
        let k = choose|k: int| 0 <= k < done.len() && done[k] == PeerActionView::Stop;
        assert(done[k] == PeerActionView::Stop);
    }
    if event == PeerEventView::Command(PeerCommand::Exit) {
        assert(done[0] == PeerActionView::Stop);
    }
}

/// The peer that `update` is about.
pub open spec fn teller(update: PeerUpdateView) -> u8 {
    match update {
        PeerUpdateView::Unchoked { peer_id } => peer_id,
        PeerUpdateView::Choked { peer_id } => peer_id,
        PeerUpdateView::Bitfield { peer_id, .. } => peer_id,
        PeerUpdateView::FinishedPiece { peer_id, .. } => peer_id,
        PeerUpdateView::Downloaded { peer_id, .. } => peer_id,
    }
}

/// Whatever has happened before, all that a peer tells is about the peer that it was
/// when it started.
pub proof fn law_every_update_carries_the_id(
    state: PeerStateView,
    events: Seq<PeerEventView>,
    event: PeerEventView,
    update: PeerUpdateView,
)
    requires
        actions(state_after(state, events), event).contains(PeerActionView::Update(update)),
    ensures
        teller(update) == state.peer_id,
{
    lemma_id_is_kept(state, events);
    let done = actions(state_after(state, events), event);
    let k = choose|k: int| 0 <= k < done.len() && done[k] == PeerActionView::Update(update);
    assert(done[k] == PeerActionView::Update(update));
}

proof fn lemma_id_is_kept(state: PeerStateView, events: Seq<PeerEventView>)
    ensures
        state_after(state, events).peer_id == state.peer_id,
    decreases events.len(),
{
    if events.len() > 0 {
        lemma_id_is_kept(state, events.drop_last());
    }
}

/// The number of bytes that `actions` tell as downloaded.
pub open spec fn bytes_told(actions: Seq<PeerActionView>) -> int
    decreases actions.len(),
{
    if actions.len() == 0 {
        0
    } else {
        bytes_told(actions.drop_last()) + match actions.last() {
            PeerActionView::Update(PeerUpdateView::Downloaded { bytes, .. }) => bytes as int,
            _ => 0,
        }
    }
}

/// The number of bytes that a peer tells as downloaded in all that it does about `events`.
pub open spec fn all_bytes_told(state: PeerStateView, events: Seq<PeerEventView>) -> int
    decreases events.len(),
{
    if events.len() == 0 {
        0
    } else {
        let before = events.drop_last();
        all_bytes_told(state, before) + bytes_told(
            actions(state_after(state, before), events.last()),
        )
    }
}

/// The number of bytes that `events` bring.
pub open spec fn all_bytes_brought(events: Seq<PeerEventView>) -> int
    decreases events.len(),
{
    if events.len() == 0 {
        0
    } else {
        all_bytes_brought(events.drop_last()) + bytes_brought(events.last())
    }
}

/// Whether 32 bits can count the bytes that come in before each second that goes by, with
/// `before` to start with.
pub open spec fn ticks_can_count(before: int, events: Seq<PeerEventView>) -> bool {
    forall|i: int|
        0 <= i < events.len() && (#[trigger] events[i]) is Tick ==> bytes_since_tick(
            before,
            events.take(i),
        ) <= u32::MAX
}

proof fn lemma_nothing_told(done: Seq<PeerActionView>)
    requires
        forall|k: int|
            0 <= k < done.len() ==> !((#[trigger] done[k]) matches PeerActionView::Update(
                PeerUpdateView::Downloaded { .. },
            )),
    ensures
        bytes_told(done) == 0,
    decreases done.len(),
{
    if done.len() > 0 {
        let less = done.drop_last();
        assert forall|k: int| 0 <= k < less.len() implies !((
        #[trigger] less[k]) matches PeerActionView::Update(PeerUpdateView::Downloaded { .. })) by {
            assert(less[k] == done[k]);
        }
        lemma_nothing_told(less);
        assert(done[done.len() - 1] == done.last());
    }
}

/// All the bytes that a peer has told as downloaded, and those that came in since the
/// last second has gone by, are all the bytes that have come in. So when a second has
/// just gone by, what was told adds up to what came in.
pub proof fn law_all_downloaded_bytes_are_told(state: PeerStateView, events: Seq<PeerEventView>)
    requires
        goes_on_through(state, events),
        ticks_can_count(state.downloaded_bytes as int, events),
    ensures
        all_bytes_told(state, events) + state_after(state, events).downloaded_bytes
            == state.downloaded_bytes + all_bytes_brought(events),
        events.len() > 0 && events.last() is Tick ==> all_bytes_told(state, events)
            == state.downloaded_bytes + all_bytes_brought(events),
    decreases events.len(),
{
    if events.len() > 0 {
        let less = events.drop_last();
        let event = events.last();
        let before = state_after(state, less);
        let done = actions(before, event);
        assert(ticks_can_count(state.downloaded_bytes as int, less)) by {
            assert forall|i: int|
                0 <= i < less.len() && (#[trigger] less[i]) is Tick implies bytes_since_tick(
                state.downloaded_bytes as int,
                less.take(i),
            ) <= u32::MAX by {
                assert(less[i] == events[i]);
                assert(less.take(i) =~= events.take(i));
            }
        }
        law_all_downloaded_bytes_are_told(state, less);
        if event is Tick {
            law_downloaded_bytes_add_up(state, less);
            assert(events[events.len() - 1] is Tick);
            assert(events.take(events.len() - 1) =~= less);
            assert(done.drop_last() =~= Seq::empty());
            assert(bytes_told(done.drop_last()) == 0);
            assert(bytes_told(done) == before.downloaded_bytes);
        } else {
            lemma_nothing_told(done);
        }
    }
}

} // verus!
