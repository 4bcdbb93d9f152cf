//! The core of a BitTorrent peer: torrents and their hashes, the handshake and the
//! messages between peers, the blocks of a download, and the choice of what to
//! download next.
//!
//! Nothing here reads or writes a stream or a file. A connection takes in bytes and
//! gives out messages, and a peer takes in events and gives out actions.
pub mod bencode;
pub mod bits;
pub mod buffer;
pub mod connection;
pub mod digest;
pub mod handshake;
pub mod message;
pub mod metainfo;
pub mod peer;
pub mod peer_laws;
pub mod picker;
pub mod picker_laws;
pub mod storage;
pub mod torrent_laws;
pub mod wire_laws;
pub mod wrap;

pub use bits::Bitfield;
pub use connection::{Connection, ReadStep};
pub use handshake::{
    has_protocol_header, is_sendable, receive_handshake, send_handshake, Handshake, HANDSHAKE_LEN,
};
pub use message::{Message, MsgError, PeerMessage};
pub use metainfo::{hash_info, info_to_bytes, is_hashable, Info, MetaInfo};
pub use peer::{
    peer_handler, peer_handshake, PeerAction, PeerCommand, PeerEvent, PeerState, PeerUpdate,
};
pub use picker::PiecePicker;
pub use storage::{BlockStorage, PieceFile};
