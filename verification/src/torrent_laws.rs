//! What the functions that hold a torrent and the blocks of its pieces do, said of their
//! arguments and results alone.
use crate::bencode::{
    bencode_dict, keys_ascend, law_ascending_order_is_unique, lemma_decimal, ItemView,
};
use crate::buffer::bytes_view;
use crate::digest::sha1_of;
use crate::metainfo::{
    blocks_in_last_piece, hash_info, info_entries, info_to_bytes, is_hashable,
    is_last_piece_sized, last_piece_index, lemma_info_keys_ascend, spec_last_piece_index, Info,
    InfoView, MetaInfo,
};
use crate::storage::{concat, decimal_text, BlockStorage, PieceFile, StorageView};
use bytes::Bytes;
use vstd::prelude::*;
use vstd::utf8::*;

verus! {

/// Whether `entry` is a field of `info`: the text that names it, and its value. A length and
/// a path are fields only where they are given.
pub open spec fn is_field(info: Info, entry: (Seq<u8>, ItemView)) -> bool {
    ||| entry == (encode_utf8("name"@), ItemView::Bytes(encode_utf8(info.name@)))
    ||| entry == (encode_utf8("piece length"@), ItemView::Int(info.piece_length))
    ||| entry == (encode_utf8("pieces"@), ItemView::Bytes(info.pieces@))
    ||| info.length matches Some(length) && entry == (
        encode_utf8("length"@),
        ItemView::Int(length),
    )
    ||| info.path matches Some(path) && entry == (encode_utf8("path"@), ItemView::Bytes(path@))
}

/// Whether `entries` are exactly the fields of `info`, in ascending order.
pub open spec fn lists_the_fields(info: Info, entries: Seq<(Seq<u8>, ItemView)>) -> bool {
    &&& keys_ascend(entries)
    &&& forall|entry: (Seq<u8>, ItemView)| #[trigger]
        entries.contains(entry) <==> is_field(info, entry)
}

pub(crate) proof fn lemma_the_fields_are_listed(info: Info, entries: Seq<(Seq<u8>, ItemView)>)
    requires
        lists_the_fields(info, entries),
    ensures
        info_entries(info@) == entries,
{
    let again = info_entries(info@);
    lemma_info_keys_ascend(info@);
    let n = again.len() as int;
    let at_name = if info.length is Some {
        1int
    } else {
        0
    };
    assert(again[at_name] == (encode_utf8("name"@), ItemView::Bytes(encode_utf8(info.name@))));
    assert(again[n - 2] == (encode_utf8("piece length"@), ItemView::Int(info.piece_length)));
    assert(again[n - 1] == (encode_utf8("pieces"@), ItemView::Bytes(info.pieces@)));
    if let Some(length) = info.length {
        assert(again[0] == (encode_utf8("length"@), ItemView::Int(length)));
    }
    if let Some(path) = info.path {
        assert(again[at_name + 1] == (encode_utf8("path"@), ItemView::Bytes(path@)));
    }
    assert forall|i: int| 0 <= i < entries.len() implies again.contains(#[trigger] entries[i]) by {
        assert(entries.contains(entries[i]));
    }
    assert forall|j: int| 0 <= j < again.len() implies entries.contains(#[trigger] again[j]) by {
        assert(j == 0 && info.length is Some || j == at_name || j == at_name + 1
            && info.path is Some || j == n - 2 || j == n - 1);
        assert(is_field(info, again[j]));
    }
    law_ascending_order_is_unique(entries, again);
}

/// The fields of every torrent can be listed.
pub proof fn law_the_fields_of_a_torrent_can_be_listed(info: Info)
    ensures
        exists|entries: Seq<(Seq<u8>, ItemView)>| lists_the_fields(info, entries),
{
    let entries = info_entries(info@);
    lemma_info_keys_ascend(info@);
    let n = entries.len() as int;
    let at_name = if info.length is Some {
        1int
    } else {
        0
    };
    assert forall|entry: (Seq<u8>, ItemView)| #[trigger]
        entries.contains(entry) <==> is_field(info, entry) by {
        assert(entries[at_name] == (
            encode_utf8("name"@),
            ItemView::Bytes(encode_utf8(info.name@)),
        ));
        assert(entries[n - 2] == (encode_utf8("piece length"@), ItemView::Int(info.piece_length)));
        assert(entries[n - 1] == (encode_utf8("pieces"@), ItemView::Bytes(info.pieces@)));
        if let Some(length) = info.length {
            assert(entries[0] == (encode_utf8("length"@), ItemView::Int(length)));
        }
        if let Some(path) = info.path {
            assert(entries[at_name + 1] == (encode_utf8("path"@), ItemView::Bytes(path@)));
        }
        if entries.contains(entry) {
            let j = choose|j: int| 0 <= j < entries.len() && entries[j] == entry;
            assert(j == 0 && info.length is Some || j == at_name || j == at_name + 1
                && info.path is Some || j == n - 2 || j == n - 1);
        }
    }
    assert(lists_the_fields(info, entries));
}

/// A torrent is written as the dictionary of its fields, and its hash is the digest of that,
/// whatever its tracker is.
pub proof fn law_a_torrent_is_written_as_its_fields(
    metainfo: &MetaInfo,
    entries: Seq<(Seq<u8>, ItemView)>,
    written: Vec<u8>,
    hash: Vec<u8>,
    fits: bool,
)
    requires
        lists_the_fields(metainfo.info, entries),
    ensures
        call_ensures(info_to_bytes, (&metainfo.info,), written) ==> written@ == bencode_dict(
            entries,
        ),
        call_ensures(hash_info, (metainfo,), hash) ==> hash@ == sha1_of(bencode_dict(entries))
            && hash@.len() == 20,
        ({
            let short = bencode_dict(entries).len() <= isize::MAX && bencode_dict(entries).len()
                <= 0x1fff_ffff_ffff_ffff;
            &&& short ==> call_requires(info_to_bytes, (&metainfo.info,))
            &&& short ==> call_requires(hash_info, (metainfo,))
            &&& call_requires(is_hashable, (&metainfo.info,))
            &&& call_ensures(is_hashable, (&metainfo.info,), fits) ==> fits == short
        }),
{
    lemma_the_fields_are_listed(metainfo.info, entries);
}

/// Whether `piece` is the last one of a torrent, counted by its digests of twenty bytes, in
/// 32 bits.
pub open spec fn is_last(pieces: Seq<u8>, piece: u32) -> bool {
    (pieces.len() as int / 20 - 1 - piece) % 0x1_0000_0000 == 0
}

proof fn lemma_last(info: InfoView, piece: u32)
    requires
        info.pieces.len() >= 20,
    ensures
        is_last(info.pieces, piece) <==> piece == spec_last_piece_index(info),
{
    let n = info.pieces.len() as int / 20 - 1;
    assert(n % 0x1_0000_0000 == piece as int <==> (n - piece) % 0x1_0000_0000 == 0);
}

/// The index of the last piece counts the digests: so many whole ones stand before its own,
/// and none behind it.
pub proof fn law_the_last_piece_has_the_last_digest(info: &Info, r: u32)
    requires
        info.pieces@.len() >= 20,
    ensures
        call_requires(last_piece_index, (info,)),
        call_ensures(last_piece_index, (info,), r) ==> {
            &&& is_last(info.pieces@, r)
            &&& info.pieces@.len() < 20 * 0x1_0000_0000 ==> 20 * (r + 1) <= info.pieces@.len()
                < 20 * (r + 2)
        },
{
    lemma_last(info@, r);
}

/// Whether `n` is the number of full blocks of 16384 bytes in `size` bytes, rounded toward
/// zero.
pub open spec fn full_blocks(size: int, n: int) -> bool {
    if size >= 0 {
        n * 16384 <= size < (n + 1) * 16384
    } else {
        (n - 1) * 16384 < size <= n * 16384
    }
}

/// The number of bytes that `piece` has if it is the last one.
pub open spec fn bytes_left_to(length: Option<i64>, piece_length: i64, piece: u32) -> int {
    length->0 - piece_length * piece
}

/// Whether a torrent tells the size of `piece`, its last one, in numbers of 64 bits.
pub open spec fn size_is_told(length: Option<i64>, piece_length: i64, piece: u32) -> bool {
    &&& length is Some
    &&& i64::MIN <= piece_length * piece <= i64::MAX
    &&& i64::MIN <= bytes_left_to(length, piece_length, piece) <= i64::MAX
}

/// The last piece is held to have one block more than it fills, as a `usize` counts it,
/// wherever its size is told; and it is known where that is.
pub proof fn law_the_last_piece_has_a_block_more_than_it_fills(
    info: &Info,
    last: u32,
    full: int,
    blocks: usize,
    sized: bool,
)
    requires
        info.pieces@.len() >= 20 ==> is_last(info.pieces@, last),
        full_blocks(bytes_left_to(info.length, info.piece_length, last), full),
    ensures
        ({
            let told = info.pieces@.len() >= 20 && size_is_told(
                info.length,
                info.piece_length,
                last,
            );
            &&& told ==> call_requires(blocks_in_last_piece, (info,))
            &&& call_requires(is_last_piece_sized, (info,))
            &&& call_ensures(is_last_piece_sized, (info,), sized) ==> sized == told
            &&& told && call_ensures(blocks_in_last_piece, (info,), blocks) ==> (full + 1 - blocks)
                % (usize::MAX + 1) == 0
            &&& told && call_ensures(blocks_in_last_piece, (info,), blocks) && 0 <= full + 1
                <= usize::MAX ==> blocks == full + 1
        }),
{
    if info.pieces@.len() >= 20 {
        lemma_last(info@, last);
    }
    let m = usize::MAX + 1;
    lemma_congruent(full + 1, m);
    assert(crate::metainfo::divide(
        bytes_left_to(info.length, info.piece_length, last),
        16384,
    ) == full) by {
        lemma_divide(bytes_left_to(info.length, info.piece_length, last), full);
    }
    if 0 <= full + 1 < m {
        vstd::arithmetic::div_mod::lemma_small_mod((full + 1) as nat, m as nat);
    }
}

proof fn lemma_congruent(x: int, m: int)
    requires
        m > 0,
    ensures
        (x - x % m) % m == 0,
        0 <= x % m < m,
{
    vstd::arithmetic::div_mod::lemma_fundamental_div_mod(x, m);
    vstd::arithmetic::div_mod::lemma_mod_multiples_basic(x / m, m);
    vstd::arithmetic::mul::lemma_mul_is_commutative(x / m, m);
    vstd::arithmetic::div_mod::lemma_mod_bound(x, m);
}

pub(crate) proof fn lemma_divide(size: int, full: int)
    requires
        full_blocks(size, full),
    ensures
        crate::metainfo::divide(size, 16384) == full,
{
    if size >= 0 {
        assert(size / 16384 == full);
    } else {
        assert((-size) / 16384 == -full);
    }
}

/// A new storage is about its torrent, and no piece is begun.
pub proof fn law_a_new_storage_is_empty(info: Info, r: BlockStorage)
    ensures
        call_requires(BlockStorage::new, (info,)),
        call_ensures(BlockStorage::new, (info,), r) ==> {
            &&& r.wf()
            &&& r@.blocks.dom() == Set::<u32>::empty()
            &&& r@.completed.dom() == Set::<u32>::empty()
            &&& r@.info.pieces == info.pieces@
            &&& r@.info.piece_length == info.piece_length
            &&& r@.info.length == info.length
        },
{
}

/// A block that is put in is the one that is held from then on, and marked as come in. The
/// other blocks of its piece stay as they are, or have not come in where the piece was not
/// under way; the other pieces stay as they are.
pub proof fn law_a_block_is_held_where_it_was_put(
    s: &mut BlockStorage,
    piece: u32,
    block: usize,
    data: Bytes,
)
    requires
        old(s).wf(),
        block < 16,
    ensures
        call_requires(BlockStorage::insert_block, (s, piece, block, data)),
        call_ensures(BlockStorage::insert_block, (s, piece, block, data), ()) ==> holds_block(
            old(s)@,
            final(s)@,
            piece,
            block as int,
            bytes_view(data),
        ) && final(s).wf(),
{
}

/// Whether `after` is `before` with the block `block` of `piece` put in and nothing else
/// changed.
pub open spec fn holds_block(
    before: StorageView,
    after: StorageView,
    piece: u32,
    block: int,
    data: Seq<u8>,
) -> bool {
    let under_way = before.blocks.contains_key(piece);
    &&& after.info == before.info
    &&& forall|q: u32| #[trigger]
        after.blocks.contains_key(q) <==> before.blocks.contains_key(q) || q == piece
    &&& forall|q: u32| #[trigger]
        after.completed.contains_key(q) <==> before.completed.contains_key(q) || q == piece
    &&& forall|q: u32|
        q != piece && before.blocks.contains_key(q) ==> #[trigger] after.blocks[q]
            == before.blocks[q]
    &&& forall|q: u32|
        q != piece && before.completed.contains_key(q) ==> #[trigger] after.completed[q]
            == before.completed[q]
    &&& after.blocks[piece].len() == 16
    &&& after.completed[piece].len() == 16
    &&& after.blocks[piece][block] == data
    &&& after.completed[piece][block]
    &&& forall|i: int|
        0 <= i < 16 && i != block ==> #[trigger] after.blocks[piece][i] == if under_way {
            before.blocks[piece][i]
        } else {
            Seq::<u8>::empty()
        }
    &&& forall|i: int|
        0 <= i < 16 && i != block ==> #[trigger] after.completed[piece][i] == (under_way
            && before.completed[piece][i])
}

/// Whether all of `flags` below `n` are set.
pub open spec fn first_are_set(flags: Seq<bool>, n: int) -> bool {
    forall|b: int| 0 <= b < n ==> #[trigger] flags[b]
}

/// Whether every block has come in that starts inside a piece of `size` bytes or at its end.
pub open spec fn covered(flags: Seq<bool>, size: int) -> bool {
    forall|b: int| 0 <= b < 16 && b * 16384 <= size ==> #[trigger] flags[b]
}

/// A piece is completed when all of its sixteen blocks have come in; the last one when all
/// those have that start inside it or at its end. A last piece of a negative size waits for
/// its first block if it lacks less than a block, for none if it lacks less than two, and
/// for all sixteen otherwise.
pub proof fn law_a_piece_is_completed_by_the_blocks_in_it(s: &BlockStorage, piece: u32, r: bool)
    requires
        progress_can_be_told(s@, piece),
        call_ensures(BlockStorage::is_completed, (s, piece), r),
    ensures
        ({
            let flags = s@.completed[piece];
            let size = bytes_left_to(s@.info.length, s@.info.piece_length, piece);
            if !is_last(s@.info.pieces, piece) {
                r == first_are_set(flags, 16)
            } else if size >= 0 {
                size / 16384 + 1 <= usize::MAX ==> r == covered(flags, size)
            } else if size > -16384 {
                r == flags[0]
            } else if size > -32768 {
                r
            } else {
                (-size) / 16384 <= usize::MAX - 16 ==> r == first_are_set(flags, 16)
            }
        }),
{
    let info = s@.info;
    let flags = s@.completed[piece];
    let size = bytes_left_to(info.length, info.piece_length, piece);
    lemma_last(info, piece);
    let m = usize::MAX + 1;
    let n = crate::metainfo::divide(size, 16384) + 1;
    if is_last(info.pieces, piece) {
        if 0 <= n < m {
            vstd::arithmetic::div_mod::lemma_small_mod(n as nat, m as nat);
        } else if -m <= n < 0 {
            vstd::arithmetic::div_mod::lemma_mod_add_multiples_vanish(n, m);
            vstd::arithmetic::div_mod::lemma_small_mod((n + m) as nat, m as nat);
        }
        if size >= 0 && n <= usize::MAX {
            if covered(flags, size) {
                assert forall|b: int| 0 <= b < 16 && b < n implies #[trigger] flags[b] by {
                    assert(b * 16384 <= size);
                }
            }
            if r {
                assert forall|b: int|
                    0 <= b < 16 && b * 16384 <= size implies #[trigger] flags[b] by {
                    assert(b < n);
                }
            }
        }
    }
}

/// Whether it can be told if a piece is completed: it was begun, the torrent has a piece, and
/// where this is its last one its size is told.
pub open spec fn progress_can_be_told(storage: StorageView, piece: u32) -> bool {
    &&& storage.completed.contains_key(piece)
    &&& storage.info.pieces.len() >= 20
    &&& is_last(storage.info.pieces, piece) ==> size_is_told(
        storage.info.length,
        storage.info.piece_length,
        piece,
    )
}

/// It is known of which pieces it can be told if they are completed, and it is told of each.
pub proof fn law_it_is_known_whose_progress_can_be_told(s: &BlockStorage, piece: u32, r: bool)
    ensures
        call_requires(BlockStorage::knows_progress, (s, piece)),
        call_ensures(BlockStorage::knows_progress, (s, piece), r) ==> r == progress_can_be_told(
            s@,
            piece,
        ),
        progress_can_be_told(s@, piece) ==> call_requires(BlockStorage::is_completed, (s, piece)),
{
    if s@.info.pieces.len() >= 20 {
        lemma_last(s@.info, piece);
    }
}

proof fn lemma_concat_is_flatten(blocks: Seq<Seq<u8>>)
    ensures
        concat(blocks) == blocks.flatten(),
    decreases blocks.len(),
{
    blocks.lemma_flatten_and_flatten_alt_are_equivalent();
    if blocks.len() > 0 {
        lemma_concat_is_flatten(blocks.drop_last());
        blocks.drop_last().lemma_flatten_and_flatten_alt_are_equivalent();
    }
}

/// Whether a piece can be compared with a torrent: it is under way, its digest stands at a
/// place that 32 bits can count, and its content is not too long to compute one.
pub open spec fn can_be_compared(storage: StorageView, piece: u32) -> bool {
    &&& storage.blocks.contains_key(piece)
    &&& 20 * piece <= u32::MAX
    &&& 20 * piece + 20 <= storage.info.pieces.len()
    &&& storage.blocks[piece].flatten().len() <= 0x1fff_ffff_ffff_ffff
}

/// The digest of a piece is that of all its blocks, one behind the other; and it is known
/// which pieces can be compared.
pub proof fn law_a_piece_is_digested_block_after_block(
    s: &BlockStorage,
    piece: u32,
    digest: Vec<u8>,
    r: bool,
)
    ensures
        can_be_compared(s@, piece) ==> call_requires(BlockStorage::digest_of_piece, (s, piece)),
        call_ensures(BlockStorage::digest_of_piece, (s, piece), digest) ==> digest@ == sha1_of(
            s@.blocks[piece].flatten(),
        ) && digest@.len() == 20,
        call_requires(BlockStorage::is_comparable, (s, piece)),
        call_ensures(BlockStorage::is_comparable, (s, piece), r) ==> r == can_be_compared(
            s@,
            piece,
        ),
{
    lemma_concat_is_flatten(s@.blocks[piece]);
}

/// Whether `digest` stands at the place of `piece` among `pieces`.
pub open spec fn stands_for(pieces: Seq<u8>, piece: u32, digest: Seq<u8>) -> bool {
    &&& digest.len() == 20
    &&& forall|i: int| 0 <= i < 20 ==> #[trigger] digest[i] == pieces[20 * piece + i]
}

/// A digest is that of a piece exactly if all its bytes are those that the torrent gives for
/// the piece.
pub proof fn law_a_digest_is_compared_byte_by_byte(
    s: &BlockStorage,
    piece: u32,
    digest: &Vec<u8>,
    r: bool,
)
    requires
        20 * piece <= u32::MAX,
        20 * piece + 20 <= s@.info.pieces.len(),
        digest@.len() * 2 <= isize::MAX,
    ensures
        call_requires(BlockStorage::is_digest_of, (s, piece, digest)),
        call_ensures(BlockStorage::is_digest_of, (s, piece, digest), r) ==> r == stands_for(
            s@.info.pieces,
            piece,
            digest@,
        ),
{
    let given = s@.info.pieces.subrange(20 * piece, 20 * piece + 20);
    if digest@ == given {
        assert forall|i: int| 0 <= i < 20 implies #[trigger] digest@[i] == s@.info.pieces[20 * piece
            + i] by {
            assert(digest@[i] == given[i]);
        }
    }
    if stands_for(s@.info.pieces, piece, digest@) {
        assert(digest@ =~= given);
    }
}

/// Whether `file` is to hold a piece: it is named after it, and its blocks are those that
/// `storage` holds.
pub open spec fn is_file_of(file: PieceFile, storage: StorageView, piece: u32) -> bool {
    &&& file.filename@ == "piece"@ + decimal_text(piece as nat)
    &&& storage.blocks[piece].len() == 16
    &&& forall|i: int|
        0 <= i < 16 ==> bytes_view(#[trigger] file.blocks@[i]) == storage.blocks[piece][i]
}

/// Whether `after` is `before` without the blocks of `piece`.
pub open spec fn is_taken_out(before: StorageView, after: StorageView, piece: u32) -> bool {
    &&& after.info == before.info
    &&& after.completed == before.completed
    &&& after.blocks == before.blocks.remove(piece)
}

pub(crate) proof fn lemma_file(file: PieceFile, storage: StorageView, piece: u32)
    requires
        file@ == crate::storage::piece_file(storage, piece),
    ensures
        is_file_of(file, storage, piece),
{
    assert(file@.blocks == storage.blocks[piece]);
    assert forall|i: int| 0 <= i < 16 implies bytes_view(#[trigger] file.blocks@[i])
        == storage.blocks[piece][i] by {
        assert(file@.blocks[i] == bytes_view(file.blocks@[i]));
    }
}

/// A piece that is completed is flushed: its blocks are handed over to be written to its
/// file, and no longer held. Another one is refused, and nothing changes. `done` is what is
/// told of its progress.
pub proof fn law_a_completed_piece_is_flushed(
    s: &mut BlockStorage,
    piece: u32,
    done: bool,
    r: Result<PieceFile, String>,
)
    requires
        old(s).wf(),
        progress_can_be_told(old(s)@, piece),
        call_ensures(BlockStorage::is_completed, (&*old(s), piece), done),
    ensures
        done ==> can_be_compared(old(s)@, piece) && stands_for(
            old(s)@.info.pieces,
            piece,
            sha1_of(old(s)@.blocks[piece].flatten()),
        ) ==> call_requires(BlockStorage::flush_piece, (s, piece)),
        !done ==> call_requires(BlockStorage::flush_piece, (s, piece)),
        call_ensures(BlockStorage::flush_piece, (s, piece), r) ==> {
            &&& done ==> (r matches Ok(file) && is_file_of(file, old(s)@, piece)) && is_taken_out(
                old(s)@,
                final(s)@,
                piece,
            )
            &&& !done ==> r is Err && r->Err_0@ == "Flushing incomplete piece"@ && final(s)@
                == old(s)@
        },
{
    let pieces = old(s)@.info.pieces;
    lemma_last(old(s)@.info, piece);
    lemma_concat_is_flatten(old(s)@.blocks[piece]);
    let digest = sha1_of(old(s)@.blocks[piece].flatten());
    if stands_for(pieces, piece, digest) && 20 * piece + 20 <= pieces.len() {
        assert(digest =~= pieces.subrange(20 * piece, 20 * piece + 20));
    }
    if call_ensures(BlockStorage::flush_piece, (s, piece), r) && r is Ok && done {
        lemma_file(r->Ok_0, old(s)@, piece);
    }
}

/// A piece is flushed without more ado where its progress is known and, if it is completed,
/// it can be compared and has the digest that the torrent gives. `known`, `done`,
/// `comparable`, `digest` and `same` are what the other functions say of it.
pub proof fn law_a_piece_is_flushed_where_it_can_be(
    s: &mut BlockStorage,
    piece: u32,
    known: bool,
    done: bool,
    comparable: bool,
    digest: Vec<u8>,
    same: bool,
    r: Option<Result<PieceFile, String>>,
)
    requires
        old(s).wf(),
        call_ensures(BlockStorage::knows_progress, (&*old(s), piece), known),
        call_ensures(BlockStorage::is_completed, (&*old(s), piece), done),
        call_ensures(BlockStorage::is_comparable, (&*old(s), piece), comparable),
        call_ensures(BlockStorage::digest_of_piece, (&*old(s), piece), digest),
        call_ensures(BlockStorage::is_digest_of, (&*old(s), piece, &digest), same),
    ensures
        call_requires(BlockStorage::try_flush_piece, (s, piece)),
        call_ensures(BlockStorage::try_flush_piece, (s, piece), r) ==> {
            &&& r is Some <==> known && (done ==> comparable && same)
            &&& r is None ==> final(s)@ == old(s)@
            &&& r is Some && done ==> (r->0 matches Ok(file) && is_file_of(file, old(s)@, piece))
                && is_taken_out(old(s)@, final(s)@, piece)
            &&& r is Some && !done ==> r->0 is Err && r->0->Err_0@ == "Flushing incomplete piece"@
                && final(s)@ == old(s)@
        },
{
    if call_ensures(BlockStorage::try_flush_piece, (s, piece), r) && r is Some && done {
        lemma_file(r->0->Ok_0, old(s)@, piece);
    }
}

/// With a digest in hand a piece that is under way is taken out exactly if the digest is the
/// one that the torrent gives.
pub proof fn law_a_piece_is_taken_out_with_its_digest(
    s: &mut BlockStorage,
    piece: u32,
    digest: &Vec<u8>,
    r: Option<PieceFile>,
)
    requires
        old(s).wf(),
        old(s)@.blocks.contains_key(piece),
        20 * piece <= u32::MAX,
        20 * piece + 20 <= old(s)@.info.pieces.len(),
        digest@.len() * 2 <= isize::MAX,
    ensures
        call_requires(BlockStorage::flush_piece_with_digest, (s, piece, digest)),
        call_ensures(BlockStorage::flush_piece_with_digest, (s, piece, digest), r) ==> {
            &&& r is Some <==> stands_for(old(s)@.info.pieces, piece, digest@)
            &&& r matches Some(file) ==> is_file_of(file, old(s)@, piece) && is_taken_out(
                old(s)@,
                final(s)@,
                piece,
            )
            &&& r is None ==> final(s)@ == old(s)@
        },
{
    let given = old(s)@.info.pieces.subrange(20 * piece, 20 * piece + 20);
    if digest@ == given {
        assert forall|i: int| 0 <= i < 20 implies #[trigger] digest@[i] == old(
            s,
        )@.info.pieces[20 * piece + i] by {
            assert(digest@[i] == given[i]);
        }
    }
    if stands_for(old(s)@.info.pieces, piece, digest@) {
        assert(digest@ =~= given);
    }
    if call_ensures(BlockStorage::flush_piece_with_digest, (s, piece, digest), r) && r is Some {
        lemma_file(r->0, old(s)@, piece);
    }
}

/// The files of different pieces have different names.
pub proof fn law_files_are_told_apart(a: u32, b: u32)
    requires
        decimal_text(a as nat) == decimal_text(b as nat),
    ensures
        a == b,
{
    lemma_decimal(a as nat);
    lemma_decimal(b as nat);
    let (da, db) = (crate::bencode::decimal(a as nat), crate::bencode::decimal(b as nat));
    assert(da.len() == decimal_text(a as nat).len() && db.len() == decimal_text(b as nat).len());
    assert forall|i: int| 0 <= i < da.len() implies da[i] == db[i] by {
        assert(decimal_text(a as nat)[i] == da[i] as char);
        assert(decimal_text(b as nat)[i] == db[i] as char);
        assert(da[i] as char as int == da[i]);
        assert(db[i] as char as int == db[i]);
    }
    assert(da =~= db);
}

/// Taking pieces out leaves a storage well formed.
pub proof fn law_flushing_keeps_a_storage_well_formed(
    s: &mut BlockStorage,
    piece: u32,
    digest: &Vec<u8>,
    flushed: Result<PieceFile, String>,
    tried: Option<Result<PieceFile, String>>,
    taken: Option<PieceFile>,
)
    requires
        old(s).wf(),
        call_ensures(BlockStorage::flush_piece, (s, piece), flushed) || call_ensures(
            BlockStorage::try_flush_piece,
            (s, piece),
            tried,
        ) || call_ensures(BlockStorage::flush_piece_with_digest, (s, piece, digest), taken),
    ensures
        final(s).wf(),
{
}

} // verus!
