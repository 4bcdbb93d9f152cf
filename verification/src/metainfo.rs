//! What a torrent file says of the content that it describes.
use crate::bencode::{
    bencode_bytes, bencode_dict, bencode_item, bencode_to_bytes, bytes_size, differ_at,
    entries_view, int_size, keys_ascend, law_ascending_order_is_unique,
    law_dictionaries_are_told_apart, lemma_each_key_stands_once, lemma_entries_grow, BencodeItem,
    ItemView,
};
use crate::digest::{
    absorbed, sha1_finalize, sha1_new, sha1_of, sha1_update, SHA1_MAX_BYTES,
};
use crate::wrap::{i64_as_usize, usize_as_u32, wrap_u32, wrap_usize};
use vstd::prelude::*;
use vstd::string::*;
use vstd::utf8::*;

verus! {

/// The number of bytes in a block, the unit in which pieces are requested.
pub const BLOCK_SIZE: u32 = 16384;

/// A torrent: where its tracker is and what it describes.
#[derive(Debug, Clone)]
pub struct MetaInfo {
    pub announce: String,
    pub info: Info,
}

/// The content of a torrent, cut into pieces of `piece_length` bytes. `pieces`
/// holds one digest of twenty bytes for each piece.
#[derive(Debug, Clone)]
pub struct Info {
    pub name: String,
    pub piece_length: i64,
    pub pieces: Vec<u8>,
    pub length: Option<i64>,
    pub path: Option<Vec<u8>>,
}

/// What an `Info` stands for.
#[verifier::ext_equal]
pub struct InfoView {
    pub name: Seq<char>,
    pub piece_length: i64,
    pub pieces: Seq<u8>,
    pub length: Option<i64>,
    pub path: Option<Seq<u8>>,
}

impl View for Info {
    type V = InfoView;

    open spec fn view(&self) -> InfoView {
        InfoView {
            name: self.name@,
            piece_length: self.piece_length,
            pieces: self.pieces@,
            length: self.length,
            path: match self.path {
                Some(path) => Some(path@),
                None => None,
            },
        }
    }
}

/// The key of `text` in a dictionary: its UTF-8 form.
pub open spec fn key(text: Seq<char>) -> Seq<u8> {
    encode_utf8(text)
}

/// The dictionary of an `Info`, with its keys in ascending order. A value that
/// is missing has no entry.
pub open spec fn info_entries(info: InfoView) -> Seq<(Seq<u8>, ItemView)> {
    let length = match info.length {
        Some(length) => seq![(key("length"@), ItemView::Int(length))],
        None => Seq::empty(),
    };
    let name = seq![(key("name"@), ItemView::Bytes(encode_utf8(info.name)))];
    let path = match info.path {
        Some(path) => seq![(key("path"@), ItemView::Bytes(path))],
        None => Seq::empty(),
    };
    let pieces = seq![
        (key("piece length"@), ItemView::Int(info.piece_length)),
        (key("pieces"@), ItemView::Bytes(info.pieces)),
    ];
    length + name + path + pieces
}

/// The bencoding of an `Info`.
pub open spec fn bencode_info(info: InfoView) -> Seq<u8> {
    bencode_dict(info_entries(info))
}

proof fn lemma_key(text: &str)
    requires
        is_ascii(text),
    ensures
        key(text@) == Seq::new(text@.len(), |i: int| text@[i] as u8),
{
    is_ascii_spec_bytes(text);
}

pub(crate) proof fn lemma_info_keys_ascend(info: InfoView)
    ensures
        keys_ascend(info_entries(info)),
{
    reveal_strlit("length");
    reveal_strlit("name");
    reveal_strlit("path");
    reveal_strlit("piece length");
    reveal_strlit("pieces");
    lemma_key("length");
    lemma_key("name");
    lemma_key("path");
    lemma_key("piece length");
    lemma_key("pieces");
    let length = key("length"@);
    let name = key("name"@);
    let path = key("path"@);
    let piece_length = key("piece length"@);
    let pieces = key("pieces"@);
    assert(length.take(0) =~= name.take(0) && length.take(0) =~= path.take(0) && length.take(0)
        =~= piece_length.take(0) && length.take(0) =~= pieces.take(0));
    assert(differ_at(length, name, 0));
    assert(differ_at(length, path, 0));
    assert(differ_at(length, piece_length, 0));
    assert(differ_at(length, pieces, 0));
    assert(name.take(0) =~= path.take(0) && name.take(0) =~= piece_length.take(0) && name.take(0)
        =~= pieces.take(0));
    assert(differ_at(name, path, 0));
    assert(differ_at(name, piece_length, 0));
    assert(differ_at(name, pieces, 0));
    assert(path.take(1) =~= piece_length.take(1) && path.take(1) =~= pieces.take(1));
    assert(differ_at(path, piece_length, 1));
    assert(differ_at(path, pieces, 1));
    assert(piece_length.take(5) =~= pieces.take(5));
    assert(differ_at(piece_length, pieces, 5));
}

/// The bencoding of `info`.
pub fn info_to_bytes(info: &Info) -> (r: Vec<u8>)
    requires
        bencode_info(info@).len() <= isize::MAX,
    ensures
        r@ == bencode_info(info@),
{
    let mut entries: Vec<(Vec<u8>, BencodeItem)> = Vec::new();
    if let Some(length) = info.length {
        entries.push(("length".as_bytes_vec(), BencodeItem::Int(length)));
    }
    entries.push(("name".as_bytes_vec(), BencodeItem::Bytes(info.name.as_str().as_bytes_vec())));
    if let Some(path) = &info.path {
        entries.push(("path".as_bytes_vec(), BencodeItem::Bytes(path.clone())));
    }
    entries.push(("piece length".as_bytes_vec(), BencodeItem::Int(info.piece_length)));
    entries.push(("pieces".as_bytes_vec(), BencodeItem::Bytes(info.pieces.clone())));
    proof {
        assert(entries_view(entries@) =~= info_entries(info@));
        lemma_info_keys_ascend(info@);
    }
    bencode_to_bytes(entries)
}

/// Whether the bencoding of `info` is short enough to be held in memory and hashed.
pub open spec fn info_is_hashable(info: InfoView) -> bool {
    &&& bencode_info(info).len() <= isize::MAX
    &&& bencode_info(info).len() <= SHA1_MAX_BYTES
}

/// The number of bytes that the key of `text` and its value take.
spec fn entry_size(text: Seq<char>, item: ItemView) -> nat {
    bencode_bytes(key(text)).len() + bencode_item(item).len()
}

/// The number of bytes in the bencoding of an `Info`.
spec fn info_size(info: InfoView) -> nat {
    let length = match info.length {
        Some(length) => entry_size("length"@, ItemView::Int(length)),
        None => 0,
    };
    let name = entry_size("name"@, ItemView::Bytes(encode_utf8(info.name)));
    let path = match info.path {
        Some(path) => entry_size("path"@, ItemView::Bytes(path)),
        None => 0,
    };
    let piece_length = entry_size("piece length"@, ItemView::Int(info.piece_length));
    let pieces = entry_size("pieces"@, ItemView::Bytes(info.pieces));
    2 + length + name + path + piece_length + pieces
}

proof fn lemma_info_size(info: InfoView)
    ensures
        bencode_info(info).len() == info_size(info),
{
    let none: Seq<(Seq<u8>, ItemView)> = Seq::empty();
    let length = match info.length {
        Some(length) => {
            lemma_entries_grow(none, key("length"@), ItemView::Int(length));
            none.push((key("length"@), ItemView::Int(length)))
        },
        None => none,
    };
    let text = ItemView::Bytes(encode_utf8(info.name));
    lemma_entries_grow(length, key("name"@), text);
    let name = length.push((key("name"@), text));
    let path = match info.path {
        Some(path) => {
            lemma_entries_grow(name, key("path"@), ItemView::Bytes(path));
            name.push((key("path"@), ItemView::Bytes(path)))
        },
        None => name,
    };
    lemma_entries_grow(path, key("piece length"@), ItemView::Int(info.piece_length));
    let piece_length = path.push((key("piece length"@), ItemView::Int(info.piece_length)));
    lemma_entries_grow(piece_length, key("pieces"@), ItemView::Bytes(info.pieces));
    let pieces = piece_length.push((key("pieces"@), ItemView::Bytes(info.pieces)));
    assert(info_entries(info) =~= pieces);
}

fn int_entry_size(text: &str, n: i64) -> (r: u128)
    ensures
        r == entry_size(text@, ItemView::Int(n)),
        r <= 0x8_0000_0000_0000_0000,
{
    bytes_size(text.as_bytes()) + int_size(n)
}

fn bytes_entry_size(text: &str, s: &[u8]) -> (r: u128)
    ensures
        r == entry_size(text@, ItemView::Bytes(s@)),
        r <= 0x8_0000_0000_0000_0000,
{
    bytes_size(text.as_bytes()) + bytes_size(s)
}

/// Whether the bencoding of `info` is short enough to be held in memory and hashed.
pub fn is_hashable(info: &Info) -> (r: bool)
    ensures
        r == info_is_hashable(info@),
{
    let length = match info.length {
        Some(length) => int_entry_size("length", length),
        None => 0,
    };
    let name = bytes_entry_size("name", info.name.as_str().as_bytes());
    let path = match &info.path {
        Some(path) => bytes_entry_size("path", path.as_slice()),
        None => 0,
    };
    let piece_length = int_entry_size("piece length", info.piece_length);
    let pieces = bytes_entry_size("pieces", info.pieces.as_slice());
    let size = 2 + length + name + path + piece_length + pieces;
    proof {
        lemma_info_size(info@);
    }
    size <= isize::MAX as u128 && size <= SHA1_MAX_BYTES as u128
}

/// The hash that identifies a torrent: the SHA-1 digest of the bencoding of its
/// `info`.
pub fn hash_info(metainfo: &MetaInfo) -> (r: Vec<u8>)
    requires
        info_is_hashable(metainfo.info@),
    ensures
        r@ == sha1_of(bencode_info(metainfo.info@)),
        r@.len() == 20,
{
    let bytes = info_to_bytes(&metainfo.info);
    let mut hasher = sha1_new();
    sha1_update(&mut hasher, bytes.as_slice());
    proof {
        assert(absorbed(hasher) =~= bytes@);
    }
    sha1_finalize(hasher)
}

/// The number of pieces of a torrent, less one, as it fits in 32 bits.
pub open spec fn spec_last_piece_index(info: InfoView) -> u32 {
    wrap_u32(info.pieces.len() / 20 - 1)
}

/// The index of the last piece.
pub fn last_piece_index(info: &Info) -> (r: u32)
    requires
        info.pieces@.len() >= 20,
    ensures
        r == spec_last_piece_index(info@),
{
    usize_as_u32(info.pieces.len() / 20 - 1)
}

/// `a` divided by the positive number `b`, rounded toward zero.
pub open spec fn divide(a: int, b: int) -> int {
    if a >= 0 {
        a / b
    } else {
        -((-a) / b)
    }
}

/// The number of bytes that the pieces before the last one leave to it.
pub open spec fn last_piece_size(info: InfoView) -> int {
    info.length->0 - info.piece_length * spec_last_piece_index(info)
}

/// Whether `info` tells the size of its last piece, in numbers that fit.
pub open spec fn last_piece_is_sized(info: InfoView) -> bool {
    &&& info.pieces.len() >= 20
    &&& info.length is Some
    &&& i64::MIN <= info.piece_length * spec_last_piece_index(info) <= i64::MAX
    &&& i64::MIN <= last_piece_size(info) <= i64::MAX
}

/// The number of blocks that the last piece is held to have: one more than
/// full blocks fit into it.
pub open spec fn spec_blocks_in_last_piece(info: InfoView) -> usize {
    wrap_usize(divide(last_piece_size(info), BLOCK_SIZE as int) + 1)
}

/// The number of blocks in the last piece.
pub fn blocks_in_last_piece(info: &Info) -> (r: usize)
    requires
        last_piece_is_sized(info@),
    ensures
        r == spec_blocks_in_last_piece(info@),
{
    let size_of_last_piece = info.length.unwrap() - (info.piece_length * last_piece_index(
        info,
    ) as i64);
    i64_as_usize((size_of_last_piece / BLOCK_SIZE as i64) + 1)
}

/// Whether the size of the last piece is told; see `last_piece_is_sized`.
pub fn is_last_piece_sized(info: &Info) -> (r: bool)
    ensures
        r == last_piece_is_sized(info@),
{
    if info.pieces.len() < 20 {
        return false;
    }
    match info.length {
        None => false,
        Some(length) => match info.piece_length.checked_mul(last_piece_index(info) as i64) {
            None => false,
            Some(before) => length.checked_sub(before).is_some(),
        },
    }
}

/// Torrents that differ in anything but their tracker have different bencodings:
/// what the hash of a torrent is taken of tells its content apart.
pub proof fn law_infos_are_told_apart(a: InfoView, b: InfoView)
    requires
        bencode_info(a) == bencode_info(b),
    ensures
        a == b,
{
    let (ea, eb) = (info_entries(a), info_entries(b));
    law_dictionaries_are_told_apart(ea, eb);
    reveal_strlit("length");
    reveal_strlit("name");
    reveal_strlit("path");
    reveal_strlit("piece length");
    lemma_key("length");
    lemma_key("name");
    lemma_key("path");
    lemma_key("piece length");
    assert(key("length"@)[0] != key("name"@)[0]);
    assert(key("path"@)[1] != key("piece length"@)[1]);
    assert(ea[0] == eb[0]);
    let (na, nb) = (
        if a.length is Some {
            1int
        } else {
            0
        },
        if b.length is Some {
            1int
        } else {
            0
        },
    );
    assert(a.length is Some ==> ea[0] == (key("length"@), ItemView::Int(a.length->0)));
    assert(b.length is Some ==> eb[0] == (key("length"@), ItemView::Int(b.length->0)));
    assert(ea[na] == (key("name"@), ItemView::Bytes(encode_utf8(a.name))));
    assert(eb[nb] == (key("name"@), ItemView::Bytes(encode_utf8(b.name))));
    assert(na == nb);
    encode_utf8_decode_utf8(a.name);
    encode_utf8_decode_utf8(b.name);
    assert(a.path is Some ==> ea[na + 1] == (key("path"@), ItemView::Bytes(a.path->0)));
    assert(b.path is Some ==> eb[nb + 1] == (key("path"@), ItemView::Bytes(b.path->0)));
    assert(a.path is None ==> ea[na + 1].0 == key("piece length"@));
    assert(b.path is None ==> eb[nb + 1].0 == key("piece length"@));
    assert(a.path is Some <==> b.path is Some);
    let n = ea.len() as int;
    assert(ea[n - 2] == (key("piece length"@), ItemView::Int(a.piece_length)));
    assert(eb[n - 2] == (key("piece length"@), ItemView::Int(b.piece_length)));
    assert(ea[n - 1] == (key("pieces"@), ItemView::Bytes(a.pieces)));
    assert(eb[n - 1] == (key("pieces"@), ItemView::Bytes(b.pieces)));
}

/// Whether `entries` have the key of `text`.
pub open spec fn has_entry(entries: Seq<(Seq<u8>, ItemView)>, text: Seq<char>) -> bool {
    exists|i: int| 0 <= i < entries.len() && (#[trigger] entries[i]).0 == key(text)
}

/// The value of the key of `text` in `entries`.
pub open spec fn entry(entries: Seq<(Seq<u8>, ItemView)>, text: Seq<char>) -> ItemView {
    entries[choose|i: int| 0 <= i < entries.len() && (#[trigger] entries[i]).0 == key(text)].1
}

/// Whether `entries` are a dictionary of the kind that describes a torrent, in ascending
/// order: with a name in UTF-8, a piece length and digests, perhaps a length and a path,
/// and nothing else.
pub open spec fn is_info_dictionary(entries: Seq<(Seq<u8>, ItemView)>) -> bool {
    &&& keys_ascend(entries)
    &&& forall|i: int|
        0 <= i < entries.len() ==> {
            ||| (#[trigger] entries[i]).0 == key("length"@)
            ||| entries[i].0 == key("name"@)
            ||| entries[i].0 == key("path"@)
            ||| entries[i].0 == key("piece length"@)
            ||| entries[i].0 == key("pieces"@)
        }
    &&& has_entry(entries, "length"@) ==> entry(entries, "length"@) is Int
    &&& has_entry(entries, "name"@)
    &&& entry(entries, "name"@) is Bytes
    &&& valid_utf8(entry(entries, "name"@)->Bytes_0)
    &&& has_entry(entries, "path"@) ==> entry(entries, "path"@) is Bytes
    &&& has_entry(entries, "piece length"@)
    &&& entry(entries, "piece length"@) is Int
    &&& has_entry(entries, "pieces"@)
    &&& entry(entries, "pieces"@) is Bytes
}

/// The `Info` whose fields are the values of `entries`.
pub open spec fn info_of(entries: Seq<(Seq<u8>, ItemView)>) -> InfoView {
    InfoView {
        name: decode_utf8(entry(entries, "name"@)->Bytes_0),
        piece_length: entry(entries, "piece length"@)->Int_0,
        pieces: entry(entries, "pieces"@)->Bytes_0,
        length: if has_entry(entries, "length"@) {
            Some(entry(entries, "length"@)->Int_0)
        } else {
            None
        },
        path: if has_entry(entries, "path"@) {
            Some(entry(entries, "path"@)->Bytes_0)
        } else {
            None
        },
    }
}

proof fn lemma_entry(entries: Seq<(Seq<u8>, ItemView)>, text: Seq<char>)
    requires
        keys_ascend(entries),
    ensures
        has_entry(entries, text) ==> entries.contains((key(text), entry(entries, text))),
        forall|i: int|
            0 <= i < entries.len() && (#[trigger] entries[i]).0 == key(text) ==> entries[i] == (
                key(text),
                entry(entries, text),
            ),
{
    if has_entry(entries, text) {
        let k = choose|i: int| 0 <= i < entries.len() && (#[trigger] entries[i]).0 == key(text);
        assert(entries[k] == (key(text), entry(entries, text)));
        assert forall|i: int|
            0 <= i < entries.len() && (#[trigger] entries[i]).0 == key(text) implies entries[i]
            == (key(text), entry(entries, text)) by {
            lemma_each_key_stands_once(entries, i, k);
        }
    }
}

/// The hash of a torrent is the digest of the dictionary that its `info` was read from,
/// if that was in ascending order and held nothing else: to write the fields down again
/// gives back the same bytes.
pub proof fn law_a_torrent_is_hashed_as_it_was_written(entries: Seq<(Seq<u8>, ItemView)>)
    requires
        is_info_dictionary(entries),
    ensures
        bencode_info(info_of(entries)) == bencode_dict(entries),
        sha1_of(bencode_info(info_of(entries))) == sha1_of(bencode_dict(entries)),
{
    let info = info_of(entries);
    let again = info_entries(info);
    lemma_entry(entries, "length"@);
    lemma_entry(entries, "name"@);
    lemma_entry(entries, "path"@);
    lemma_entry(entries, "piece length"@);
    lemma_entry(entries, "pieces"@);
    lemma_info_keys_ascend(info);
    decode_utf8_encode_utf8(entry(entries, "name"@)->Bytes_0);
    let n = again.len() as int;
    let at_name = if info.length is Some {
        1int
    } else {
        0
    };
    assert(info.length is Some ==> again[0] == (key("length"@), entry(entries, "length"@)));
    assert(again[at_name] == (key("name"@), entry(entries, "name"@)));
    assert(info.path is Some ==> again[at_name + 1] == (key("path"@), entry(entries, "path"@)));
    assert(again[n - 2] == (key("piece length"@), entry(entries, "piece length"@)));
    assert(again[n - 1] == (key("pieces"@), entry(entries, "pieces"@)));
    assert forall|i: int| 0 <= i < entries.len() implies again.contains(#[trigger] entries[i]) by {
        if entries[i].0 == key("length"@) {
            assert(has_entry(entries, "length"@));
        } else if entries[i].0 == key("path"@) {
            assert(has_entry(entries, "path"@));
        }
    }
    assert forall|j: int| 0 <= j < again.len() implies entries.contains(#[trigger] again[j]) by {
        assert(j == 0 && info.length is Some || j == at_name || j == at_name + 1
            && info.path is Some || j == n - 2 || j == n - 1);
    }
    law_ascending_order_is_unique(entries, again);
}

/// The blocks of the last piece are more than it fills, and all but one of them
/// are not.
pub proof fn law_the_last_piece_fits_its_blocks(info: InfoView)
    requires
        last_piece_is_sized(info),
        last_piece_size(info) >= 0,
        last_piece_size(info) / BLOCK_SIZE as int + 1 <= usize::MAX,
    ensures
        ({
            let blocks = spec_blocks_in_last_piece(info) as int;
            &&& (blocks - 1) * BLOCK_SIZE <= last_piece_size(info) < blocks * BLOCK_SIZE
        }),
{
    let n = last_piece_size(info) / BLOCK_SIZE as int + 1;
    vstd::arithmetic::div_mod::lemma_small_mod(n as nat, (usize::MAX + 1) as nat);
    assert(spec_blocks_in_last_piece(info) == n);
}

} // verus!
