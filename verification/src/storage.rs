//! The blocks of the pieces that are being downloaded.
use crate::bencode::decimal;
use crate::buffer::{bytes_as_slice, bytes_len, bytes_new, bytes_view};
use crate::digest::{
    absorbed, hex_from_bytes, lemma_hex_is_injective, sha1_finalize, sha1_new, sha1_of, sha1_update,
    SHA1_MAX_BYTES,
};
use crate::metainfo::{
    blocks_in_last_piece, is_last_piece_sized, last_piece_index, last_piece_is_sized,
    spec_blocks_in_last_piece, spec_last_piece_index, Info, InfoView,
};
use bytes::Bytes;
use std::collections::HashMap;
use vstd::prelude::*;
use vstd::string::*;

verus! {

/// The blocks received so far: for each piece that is under way its sixteen
/// blocks, and for each piece that was begun which of them have come in.
pub struct BlockStorage {
    blocks: HashMap<u32, [Bytes; 16]>,
    completed: HashMap<u32, [bool; 16]>,
    info: Info,
}

/// What a `BlockStorage` stands for.
#[verifier::ext_equal]
pub struct StorageView {
    pub blocks: Map<u32, Seq<Seq<u8>>>,
    pub completed: Map<u32, Seq<bool>>,
    pub info: InfoView,
}

/// The bytes of each block.
pub open spec fn blocks_view(blocks: [Bytes; 16]) -> Seq<Seq<u8>> {
    blocks@.map_values(|b: Bytes| bytes_view(b))
}

impl View for BlockStorage {
    type V = StorageView;

    closed spec fn view(&self) -> StorageView {
        StorageView {
            blocks: self.blocks@.map_values(|blocks: [Bytes; 16]| blocks_view(blocks)),
            completed: self.completed@.map_values(|flags: [bool; 16]| flags@),
            info: self.info@,
        }
    }
}

/// A piece that is under way was begun, it has sixteen blocks, and those that
/// have not come in are empty.
pub open spec fn storage_is_well_formed(storage: StorageView) -> bool {
    &&& forall|p: u32| #[trigger]
        storage.completed.contains_key(p) ==> storage.completed[p].len() == 16
    &&& forall|p: u32| #[trigger]
        storage.blocks.contains_key(p) ==> {
            &&& storage.completed.contains_key(p)
            &&& storage.blocks[p].len() == 16
            &&& forall|b: int|
                0 <= b < 16 && !storage.completed[p][b] ==> (#[trigger] storage.blocks[p][b]).len()
                    == 0
        }
}

/// The storage with the block `block_idx` of the piece `piece_idx` put in. A
/// piece that is not under way starts with no block in.
pub open spec fn with_block(
    storage: StorageView,
    piece_idx: u32,
    block_idx: int,
    data: Seq<u8>,
) -> StorageView {
    let (blocks, flags) = if storage.blocks.contains_key(piece_idx) {
        (storage.blocks[piece_idx], storage.completed[piece_idx])
    } else {
        (Seq::new(16, |i: int| Seq::<u8>::empty()), Seq::new(16, |i: int| false))
    };
    StorageView {
        blocks: storage.blocks.insert(piece_idx, blocks.update(block_idx, data)),
        completed: storage.completed.insert(piece_idx, flags.update(block_idx, true)),
        info: storage.info,
    }
}

impl BlockStorage {
    /// See `storage_is_well_formed`.
    pub open spec fn wf(&self) -> bool {
        storage_is_well_formed(self@)
    }

    /// A storage for the torrent of `info` that holds no block.
    pub fn new(info: Info) -> (r: BlockStorage)
        ensures
            r.wf(),
            r@ == (StorageView { blocks: Map::empty(), completed: Map::empty(), info: info@ }),
    {
        broadcast use vstd::std_specs::hash::group_hash_axioms;

        let r = BlockStorage { blocks: HashMap::new(), completed: HashMap::new(), info };
        assert(r@ =~= (StorageView {
            blocks: Map::empty(),
            completed: Map::empty(),
            info: info@,
        }));
        r
    }

    /// Puts in the block `block_idx` of the piece `piece_idx`.
    pub fn insert_block(&mut self, piece_idx: u32, block_idx: usize, data: Bytes)
        requires
            old(self).wf(),
            block_idx < 16,
        ensures
            final(self).wf(),
            final(self)@ == with_block(
                old(self)@,
                piece_idx,
                block_idx as int,
                bytes_view(data),
            ),
    {
        broadcast use vstd::std_specs::hash::group_hash_axioms;

        let ghost before = self@;
        assert(before.blocks.contains_key(piece_idx) <==> self.blocks@.contains_key(piece_idx));
        assert(before.completed.contains_key(piece_idx) <==> self.completed@.contains_key(
            piece_idx,
        ));
        let mut blocks = [
            bytes_new(),
            bytes_new(),
            bytes_new(),
            bytes_new(),
            bytes_new(),
            bytes_new(),
            bytes_new(),
            bytes_new(),
            bytes_new(),
            bytes_new(),
            bytes_new(),
            bytes_new(),
            bytes_new(),
            bytes_new(),
            bytes_new(),
            bytes_new(),
        ];
        let mut flags: [bool; 16] = [false; 16];
        if let Some(held) = self.blocks.remove(&piece_idx) {
            blocks = held;
            flags = self.completed.remove(&piece_idx).unwrap();
        }
        let ghost (blocks_before, flags_before) = (blocks_view(blocks), flags@);
        blocks[block_idx] = data;
        flags[block_idx] = true;
        proof {
            assert(blocks_view(blocks) =~= blocks_before.update(
                block_idx as int,
                bytes_view(data),
            ));
            assert(flags@ =~= flags_before.update(block_idx as int, true));
        }
        self.blocks.insert(piece_idx, blocks);
        self.completed.insert(piece_idx, flags);
        proof {
            let after = with_block(before, piece_idx, block_idx as int, bytes_view(data));
            if !before.blocks.contains_key(piece_idx) {
                assert(blocks_before =~= Seq::new(16, |i: int| Seq::<u8>::empty()));
                assert(flags_before =~= Seq::new(16, |i: int| false));
            }
            assert(self@.blocks =~= after.blocks);
            assert(self@.completed =~= after.completed);
        }
    }
}

/// The number of blocks that the piece `piece_idx` waits for.
pub open spec fn blocks_awaited(info: InfoView, piece_idx: u32) -> int {
    if piece_idx == spec_last_piece_index(info) && spec_blocks_in_last_piece(info) < 16 {
        spec_blocks_in_last_piece(info) as int
    } else {
        16
    }
}

/// Whether all the blocks that a piece waits for have come in.
pub open spec fn piece_is_completed(storage: StorageView, piece_idx: u32) -> bool {
    forall|b: int|
        0 <= b < blocks_awaited(storage.info, piece_idx) ==> storage.completed[piece_idx][b]
}

/// Whether it can be told if a piece is completed: it was begun, and where it is
/// the last one its size is told.
pub open spec fn progress_is_known(storage: StorageView, piece_idx: u32) -> bool {
    &&& storage.completed.contains_key(piece_idx)
    &&& storage.info.pieces.len() >= 20
    &&& piece_idx == spec_last_piece_index(storage.info) ==> last_piece_is_sized(storage.info)
}

/// The blocks one behind the other.
pub open spec fn concat(blocks: Seq<Seq<u8>>) -> Seq<u8>
    decreases blocks.len(),
{
    if blocks.len() == 0 {
        Seq::empty()
    } else {
        concat(blocks.drop_last()) + blocks.last()
    }
}

/// The content of a piece that is under way.
pub open spec fn piece_content(storage: StorageView, piece_idx: u32) -> Seq<u8> {
    concat(storage.blocks[piece_idx])
}

/// The digest that the torrent gives for a piece.
pub open spec fn piece_digest(info: InfoView, piece_idx: u32) -> Seq<u8> {
    info.pieces.subrange(20 * piece_idx, 20 * piece_idx + 20)
}

/// Whether the torrent has a digest for a piece, at a place that 32 bits can
/// count.
pub open spec fn piece_has_digest(info: InfoView, piece_idx: u32) -> bool {
    &&& 20 * piece_idx <= u32::MAX
    &&& 20 * piece_idx + 20 <= info.pieces.len()
}

/// Whether a piece can be held against the torrent: it is under way, it has a
/// digest, and its content is not too long to compute one.
pub open spec fn piece_is_comparable(storage: StorageView, piece_idx: u32) -> bool {
    &&& storage.blocks.contains_key(piece_idx)
    &&& piece_has_digest(storage.info, piece_idx)
    &&& piece_content(storage, piece_idx).len() <= SHA1_MAX_BYTES
}

/// Whether the content of a piece has the digest that the torrent gives for it.
pub open spec fn piece_is_genuine(storage: StorageView, piece_idx: u32) -> bool {
    sha1_of(piece_content(storage, piece_idx)) == piece_digest(storage.info, piece_idx)
}

/// The storage with a piece taken out.
pub open spec fn without_piece(storage: StorageView, piece_idx: u32) -> StorageView {
    StorageView {
        blocks: storage.blocks.remove(piece_idx),
        completed: storage.completed,
        info: storage.info,
    }
}

/// A piece to be written to a file: the file's name and the blocks to write, one
/// behind the other.
#[derive(Debug)]
pub struct PieceFile {
    pub filename: String,
    pub blocks: [Bytes; 16],
}

/// What a `PieceFile` stands for.
#[verifier::ext_equal]
pub struct PieceFileView {
    pub filename: Seq<char>,
    pub blocks: Seq<Seq<u8>>,
}

impl View for PieceFile {
    type V = PieceFileView;

    open spec fn view(&self) -> PieceFileView {
        PieceFileView { filename: self.filename@, blocks: blocks_view(self.blocks) }
    }
}

/// `n` in decimal digits.
pub open spec fn decimal_text(n: nat) -> Seq<char> {
    decimal(n).map_values(|digit: u8| digit as char)
}

/// The file for a piece: `piece` and its index, and its blocks.
pub open spec fn piece_file(storage: StorageView, piece_idx: u32) -> PieceFileView {
    PieceFileView {
        filename: "piece"@ + decimal_text(piece_idx as nat),
        blocks: storage.blocks[piece_idx],
    }
}

/// `<u32 as ToString>::to_string`: the number in decimal digits.
#[verifier::external_body]
fn u32_to_string(n: u32) -> (r: String)
    ensures
        r@ == decimal_text(n as nat),
{
    n.to_string()
}

proof fn lemma_concat_len(blocks: Seq<Seq<u8>>, k: int)
    requires
        0 <= k <= blocks.len(),
    ensures
        concat(blocks.take(k)).len() <= concat(blocks).len(),
    decreases blocks.len() - k,
{
    if k == blocks.len() {
        assert(blocks.take(k) =~= blocks);
    } else {
        assert(blocks.take(k + 1).drop_last() =~= blocks.take(k));
        lemma_concat_len(blocks, k + 1);
    }
}

impl BlockStorage {
    proof fn lemma_keys(&self, piece_idx: u32)
        ensures
            self@.blocks.contains_key(piece_idx) == self.blocks@.contains_key(piece_idx),
            self@.blocks.contains_key(piece_idx) ==> self@.blocks[piece_idx] == blocks_view(
                self.blocks@[piece_idx],
            ),
            self@.completed.contains_key(piece_idx) == self.completed@.contains_key(piece_idx),
            self@.completed.contains_key(piece_idx) ==> self@.completed[piece_idx]
                == self.completed@[piece_idx]@,
    {
    }

    /// Whether it can be told if a piece is completed; see `progress_is_known`.
    pub fn knows_progress(&self, piece_idx: u32) -> (r: bool)
        ensures
            r == progress_is_known(self@, piece_idx),
    {
        broadcast use vstd::std_specs::hash::group_hash_axioms;

        proof {
            self.lemma_keys(piece_idx);
        }
        self.completed.contains_key(&piece_idx) && self.info.pieces.len() >= 20 && (piece_idx
            != last_piece_index(&self.info) || is_last_piece_sized(&self.info))
    }

    /// Whether all the blocks that a piece waits for have come in.
    pub fn is_completed(&self, piece_idx: u32) -> (r: bool)
        requires
            progress_is_known(self@, piece_idx),
        ensures
            r == piece_is_completed(self@, piece_idx),
    {
        broadcast use vstd::std_specs::hash::group_hash_axioms;

        proof {
            self.lemma_keys(piece_idx);
        }
        let mut awaited: usize = 16;
        if piece_idx == last_piece_index(&self.info) {
            let last = blocks_in_last_piece(&self.info);
            if last < awaited {
                awaited = last;
            }
        }
        let flags = self.completed.get(&piece_idx).unwrap();
        for b in 0..awaited
            invariant
                awaited == blocks_awaited(self@.info, piece_idx),
                awaited <= 16,
                flags@ == self@.completed[piece_idx],
                forall|k: int| 0 <= k < b ==> flags@[k],
        {
            if !flags[b] {
                return false;
            }
        }
        true
    }

    /// Whether a piece can be held against the torrent; see
    /// `piece_is_comparable`.
    pub fn is_comparable(&self, piece_idx: u32) -> (r: bool)
        ensures
            r == piece_is_comparable(self@, piece_idx),
    {
        broadcast use vstd::std_specs::hash::group_hash_axioms;

        proof {
            self.lemma_keys(piece_idx);
        }
        if piece_idx > u32::MAX / 20 {
            return false;
        }
        if self.info.pieces.len() < 20 || self.info.pieces.len() - 20 < (20 * piece_idx) as usize {
            return false;
        }
        let ghost all = self@.blocks[piece_idx];
        match self.blocks.get(&piece_idx) {
            None => false,
            Some(blocks) => {
                let mut left: u64 = SHA1_MAX_BYTES;
                for b in 0..16usize
                    invariant
                        all == blocks_view(*blocks),
                        all == self@.blocks[piece_idx],
                        left + concat(all.take(b as int)).len() == SHA1_MAX_BYTES,
                {
                    let len = bytes_len(&blocks[b]) as u64;
                    proof {
                        assert(all.take(b + 1).drop_last() =~= all.take(b as int));
                        lemma_concat_len(all, b + 1);
                    }
                    if len > left {
                        return false;
                    }
                    left = left - len;
                }
                proof {
                    assert(all.take(16) =~= all);
                }
                true
            },
        }
    }

    /// The digest of the content of a piece.
    pub fn digest_of_piece(&self, piece_idx: u32) -> (r: Vec<u8>)
        requires
            self@.blocks.contains_key(piece_idx),
            piece_content(self@, piece_idx).len() <= SHA1_MAX_BYTES,
        ensures
            r@ == sha1_of(piece_content(self@, piece_idx)),
            r@.len() == 20,
    {
        broadcast use vstd::std_specs::hash::group_hash_axioms;

        proof {
            self.lemma_keys(piece_idx);
        }
        let ghost all = self@.blocks[piece_idx];
        let buffer = self.blocks.get(&piece_idx).unwrap();
        let mut hasher = sha1_new();
        for b in 0..16usize
            invariant
                all == blocks_view(*buffer),
                absorbed(hasher) == concat(all.take(b as int)),
                concat(all).len() <= SHA1_MAX_BYTES,
        {
            proof {
                assert(all.take(b + 1).drop_last() =~= all.take(b as int));
                lemma_concat_len(all, b + 1);
            }
            sha1_update(&mut hasher, bytes_as_slice(&buffer[b]));
        }
        proof {
            assert(all.take(16) =~= all);
        }
        sha1_finalize(hasher)
    }

    /// Whether `digest` is the one that the torrent gives for a piece. Both are
    /// compared as they read in hexadecimal.
    pub fn is_digest_of(&self, piece_idx: u32, digest: &Vec<u8>) -> (r: bool)
        requires
            piece_has_digest(self@.info, piece_idx),
            digest@.len() * 2 <= isize::MAX,
        ensures
            r == (digest@ == piece_digest(self@.info, piece_idx)),
    {
        let hs_idx = (20 * piece_idx) as usize;
        assert(hs_idx + 20 <= self.info.pieces.len());
        let expected = vstd::slice::slice_to_vec(
            vstd::slice::slice_subrange(self.info.pieces.as_slice(), hs_idx, hs_idx + 20),
        );
        let hs = hex_from_bytes(&expected);
        let hs2 = hex_from_bytes(digest);
        proof {
            lemma_hex_is_injective(expected@, digest@);
        }
        hs == hs2
    }

    /// Takes out a piece that is under way.
    fn take_out(&mut self, piece_idx: u32) -> (r: PieceFile)
        requires
            old(self).wf(),
            old(self)@.blocks.contains_key(piece_idx),
        ensures
            final(self).wf(),
            r@ == piece_file(old(self)@, piece_idx),
            final(self)@ == without_piece(old(self)@, piece_idx),
    {
        broadcast use vstd::std_specs::hash::group_hash_axioms;

        proof {
            self.lemma_keys(piece_idx);
        }
        let blocks = self.blocks.remove(&piece_idx).unwrap();
        proof {
            let after = without_piece(old(self)@, piece_idx);
            assert(self@.blocks =~= after.blocks);
            assert(self@.completed =~= after.completed);
        }
        let filename = String::from_str("piece").concat(u32_to_string(piece_idx).as_str());
        PieceFile { filename, blocks }
    }

    /// Takes out a completed piece, which has the digest that the torrent gives
    /// for it, and hands it over to be written to its file. A piece that is not
    /// completed stays as it is.
    pub fn flush_piece(&mut self, piece_idx: u32) -> (r: Result<PieceFile, String>)
        requires
            old(self).wf(),
            progress_is_known(old(self)@, piece_idx),
            piece_is_completed(old(self)@, piece_idx) ==> {
                &&& piece_is_comparable(old(self)@, piece_idx)
                &&& piece_is_genuine(old(self)@, piece_idx)
            },
        ensures
            final(self).wf(),
            piece_is_completed(old(self)@, piece_idx) ==> {
                &&& r is Ok
                &&& r->Ok_0@ == piece_file(old(self)@, piece_idx)
                &&& final(self)@ == without_piece(old(self)@, piece_idx)
            },
            !piece_is_completed(old(self)@, piece_idx) ==> {
                &&& r is Err
                &&& r->Err_0@ == "Flushing incomplete piece"@
                &&& final(self)@ == old(self)@
            },
    {
        if !self.is_completed(piece_idx) {
            return Err(String::from_str("Flushing incomplete piece"));
        }
        Ok(self.take_out(piece_idx))
    }

    /// Takes out a piece that is under way, if `digest` is the one that the torrent
    /// gives for it. Otherwise nothing changes. That the piece is completed and that its
    /// content has this digest is the caller's to know: neither is looked at.
    pub fn flush_piece_with_digest(&mut self, piece_idx: u32, digest: &Vec<u8>) -> (r: Option<
        PieceFile,
    >)
        requires
            old(self).wf(),
            old(self)@.blocks.contains_key(piece_idx),
            piece_has_digest(old(self)@.info, piece_idx),
            digest@.len() * 2 <= isize::MAX,
        ensures
            final(self).wf(),
            r is Some <==> digest@ == piece_digest(old(self)@.info, piece_idx),
            r is Some ==> {
                &&& r->0@ == piece_file(old(self)@, piece_idx)
                &&& final(self)@ == without_piece(old(self)@, piece_idx)
            },
            r is None ==> final(self)@ == old(self)@,
    {
        if !self.is_digest_of(piece_idx, digest) {
            return None;
        }
        Some(self.take_out(piece_idx))
    }

    /// Flushes a piece as `flush_piece` does, where that can be done. Nothing is
    /// flushed, and nothing changes, where it cannot be told if the piece is
    /// completed, or where it is and cannot be compared with the torrent, or
    /// differs from it.
    pub fn try_flush_piece(&mut self, piece_idx: u32) -> (r: Option<Result<PieceFile, String>>)
        requires
            old(self).wf(),
        ensures
            final(self).wf(),
            r is Some <==> {
                &&& progress_is_known(old(self)@, piece_idx)
                &&& piece_is_completed(old(self)@, piece_idx) ==> {
                    &&& piece_is_comparable(old(self)@, piece_idx)
                    &&& piece_is_genuine(old(self)@, piece_idx)
                }
            },
            r is None ==> final(self)@ == old(self)@,
            r is Some && piece_is_completed(old(self)@, piece_idx) ==> {
                &&& r->0 is Ok
                &&& r->0->Ok_0@ == piece_file(old(self)@, piece_idx)
                &&& final(self)@ == without_piece(old(self)@, piece_idx)
            },
            r is Some && !piece_is_completed(old(self)@, piece_idx) ==> {
                &&& r->0 is Err
                &&& r->0->Err_0@ == "Flushing incomplete piece"@
                &&& final(self)@ == old(self)@
            },
    {
        if !self.knows_progress(piece_idx) {
            return None;
        }
        if self.is_completed(piece_idx) {
            if !self.is_comparable(piece_idx) {
                return None;
            }
            let digest = self.digest_of_piece(piece_idx);
            if !self.is_digest_of(piece_idx, &digest) {
                return None;
            }
        }
        Some(self.flush_piece(piece_idx))
    }
}

/// Putting in a block and taking out a piece keep the storage well formed.
pub proof fn law_storage_stays_well_formed(
    storage: StorageView,
    piece_idx: u32,
    block_idx: int,
    data: Seq<u8>,
)
    requires
        storage_is_well_formed(storage),
        0 <= block_idx < 16,
    ensures
        storage_is_well_formed(with_block(storage, piece_idx, block_idx, data)),
        storage_is_well_formed(without_piece(storage, piece_idx)),
{
}

/// It does not matter in which order two different blocks come in.
pub proof fn law_blocks_may_come_in_any_order(
    storage: StorageView,
    piece_1: u32,
    block_1: int,
    data_1: Seq<u8>,
    piece_2: u32,
    block_2: int,
    data_2: Seq<u8>,
)
    requires
        storage_is_well_formed(storage),
        0 <= block_1 < 16,
        0 <= block_2 < 16,
        piece_1 != piece_2 || block_1 != block_2,
    ensures
        with_block(with_block(storage, piece_1, block_1, data_1), piece_2, block_2, data_2)
            == with_block(with_block(storage, piece_2, block_2, data_2), piece_1, block_1, data_1),
{
    let first = with_block(with_block(storage, piece_1, block_1, data_1), piece_2, block_2, data_2);
    let second = with_block(
        with_block(storage, piece_2, block_2, data_2),
        piece_1,
        block_1,
        data_1,
    );
    assert forall|p: u32| first.blocks.contains_key(p) implies first.blocks[p]
        == second.blocks[p] by {
        assert(first.blocks[p] =~= second.blocks[p]);
    }
    assert forall|p: u32| first.completed.contains_key(p) implies first.completed[p]
        == second.completed[p] by {
        assert(first.completed[p] =~= second.completed[p]);
    }
    assert(first.blocks =~= second.blocks);
    assert(first.completed =~= second.completed);
}

/// A block that comes in again replaces the one that was there.
pub proof fn law_a_later_block_replaces_an_earlier_one(
    storage: StorageView,
    piece_idx: u32,
    block_idx: int,
    earlier: Seq<u8>,
    later: Seq<u8>,
)
    requires
        storage_is_well_formed(storage),
        0 <= block_idx < 16,
    ensures
        with_block(with_block(storage, piece_idx, block_idx, earlier), piece_idx, block_idx, later)
            == with_block(storage, piece_idx, block_idx, later),
{
    let once = with_block(storage, piece_idx, block_idx, later);
    let twice = with_block(
        with_block(storage, piece_idx, block_idx, earlier),
        piece_idx,
        block_idx,
        later,
    );
    assert(once.blocks[piece_idx] =~= twice.blocks[piece_idx]);
    assert(once.completed[piece_idx] =~= twice.completed[piece_idx]);
    assert(once.blocks =~= twice.blocks);
    assert(once.completed =~= twice.completed);
}

/// Neither a block that comes in nor a piece that is taken out touches another
/// piece.
pub proof fn law_pieces_do_not_touch_each_other(
    storage: StorageView,
    piece_idx: u32,
    block_idx: int,
    data: Seq<u8>,
    other: u32,
)
    requires
        storage_is_well_formed(storage),
        0 <= block_idx < 16,
        other != piece_idx,
    ensures
        ({
            let more = with_block(storage, piece_idx, block_idx, data);
            let less = without_piece(storage, piece_idx);
            &&& more.blocks.contains_key(other) == storage.blocks.contains_key(other)
            &&& less.blocks.contains_key(other) == storage.blocks.contains_key(other)
            &&& more.blocks[other] == storage.blocks[other]
            &&& less.blocks[other] == storage.blocks[other]
            &&& progress_is_known(more, other) == progress_is_known(storage, other)
            &&& progress_is_known(less, other) == progress_is_known(storage, other)
            &&& piece_is_completed(more, other) == piece_is_completed(storage, other)
            &&& piece_is_completed(less, other) == piece_is_completed(storage, other)
        }),
{
    let more = with_block(storage, piece_idx, block_idx, data);
    let less = without_piece(storage, piece_idx);
    assert(more.completed[other] == storage.completed[other]);
    assert(less.completed[other] == storage.completed[other]);
    assert(more.blocks[other] == storage.blocks[other]);
    assert(less.blocks[other] == storage.blocks[other]);
}

/// Whether a block has come in since its piece was begun or last taken out.
pub open spec fn has_come_in(storage: StorageView, piece_idx: u32, block_idx: int) -> bool {
    storage.blocks.contains_key(piece_idx) && storage.completed[piece_idx][block_idx]
}

/// Whether a piece waits for no block but perhaps `block_idx`.
pub open spec fn misses_at_most(storage: StorageView, piece_idx: u32, block_idx: int) -> bool {
    forall|b: int|
        0 <= b < blocks_awaited(storage.info, piece_idx) && b != block_idx
            ==> #[trigger] has_come_in(storage, piece_idx, b)
}

/// A block completes its piece exactly if every other block that the piece waits
/// for has come in.
pub proof fn law_the_last_missing_block_completes_a_piece(
    storage: StorageView,
    piece_idx: u32,
    block_idx: int,
    data: Seq<u8>,
)
    requires
        storage_is_well_formed(storage),
        0 <= block_idx < 16,
    ensures
        piece_is_completed(with_block(storage, piece_idx, block_idx, data), piece_idx)
            <==> misses_at_most(storage, piece_idx, block_idx),
{
    let after = with_block(storage, piece_idx, block_idx, data);
    let flags = after.completed[piece_idx];
    assert forall|b: int| 0 <= b < 16 implies #[trigger] flags[b] == (b == block_idx || has_come_in(
        storage,
        piece_idx,
        b,
    )) by {}
    if piece_is_completed(after, piece_idx) {
        assert forall|b: int|
            0 <= b < blocks_awaited(storage.info, piece_idx) && b
                != block_idx implies #[trigger] has_come_in(storage, piece_idx, b) by {
            assert(flags[b]);
        }
    }
}

/// The content of a piece whose blocks from `n` on have not come in is that of
/// its first `n` blocks.
pub proof fn law_missing_blocks_add_nothing(storage: StorageView, piece_idx: u32, n: int)
    requires
        storage_is_well_formed(storage),
        storage.blocks.contains_key(piece_idx),
        0 <= n <= 16,
        forall|b: int| n <= b < 16 ==> !storage.completed[piece_idx][b],
    ensures
        piece_content(storage, piece_idx) == concat(storage.blocks[piece_idx].take(n)),
    decreases 16 - n,
{
    let blocks = storage.blocks[piece_idx];
    if n == 16 {
        assert(blocks.take(16) =~= blocks);
    } else {
        law_missing_blocks_add_nothing(storage, piece_idx, n + 1);
        assert(!storage.completed[piece_idx][n]);
        assert(blocks[n].len() == 0);
        assert(blocks.take(n + 1).drop_last() =~= blocks.take(n));
        assert(concat(blocks.take(n + 1)) =~= concat(blocks.take(n)));
    }
}

} // verus!
