//! SHA-1 digests and their hexadecimal form.
use hex_string::HexString;
use sha1::{Digest, Sha1};
use vstd::prelude::*;

verus! {

/// A SHA-1 computation that is under way.
#[verifier::external_type_specification]
#[verifier::external_body]
pub struct ExSha1(Sha1);

/// The bytes that a computation has taken in so far.
pub uninterp spec fn absorbed(h: Sha1) -> Seq<u8>;

/// The SHA-1 digest of `data`.
pub uninterp spec fn sha1_of(data: Seq<u8>) -> Seq<u8>;

/// The longest input, in bytes, whose length in bits SHA-1 can write down.
pub const SHA1_MAX_BYTES: u64 = 0x1fff_ffff_ffff_ffff;

/// `<Sha1 as Digest>::new`: nothing is taken in yet.
#[verifier::external_body]
pub(crate) fn sha1_new() -> (r: Sha1)
    ensures
        absorbed(r) == Seq::<u8>::empty(),
{
    Sha1::new()
}

/// `<Sha1 as Digest>::update`: takes in the bytes of `data` behind those taken
/// in before. It counts blocks of 64 bytes in 64 bits.
#[verifier::external_body]
pub(crate) fn sha1_update(h: &mut Sha1, data: &[u8])
    requires
        absorbed(*old(h)).len() + data@.len() <= SHA1_MAX_BYTES,
    ensures
        absorbed(*final(h)) == absorbed(*old(h)) + data@,
{
    h.update(data)
}

/// `<Sha1 as Digest>::finalize`: the digest of what was taken in, which is
/// always twenty bytes long. The length in bits is computed in 64 bits.
#[verifier::external_body]
pub(crate) fn sha1_finalize(h: Sha1) -> (r: Vec<u8>)
    requires
        absorbed(h).len() <= SHA1_MAX_BYTES,
    ensures
        r@ == sha1_of(absorbed(h)),
        r@.len() == 20,
{
    h.finalize()[..].into()
}

/// The hexadecimal digit of `d`, in lower case.
pub open spec fn hex_digit(d: int) -> char {
    if d < 10 {
        (48 + d) as char
    } else {
        (87 + d) as char
    }
}

/// `data` in hexadecimal: two digits for each byte, the high one first.
pub open spec fn hex_of(data: Seq<u8>) -> Seq<char> {
    Seq::new(
        data.len() * 2,
        |i: int|
            if i % 2 == 0 {
                hex_digit(data[i / 2] as int / 16)
            } else {
                hex_digit(data[i / 2] as int % 16)
            },
    )
}

/// `HexString::from_bytes`, read with `HexString::as_string`: `data` in
/// hexadecimal, two lower-case digits for each byte.
#[verifier::external_body]
pub(crate) fn hex_from_bytes(data: &Vec<u8>) -> (r: String)
    requires
        data@.len() * 2 <= isize::MAX,
    ensures
        r@ == hex_of(data@),
{
    HexString::from_bytes(data).as_string()
}

/// Two byte sequences are the same if, and only if, they read the same in
/// hexadecimal.
pub proof fn lemma_hex_is_injective(a: Seq<u8>, b: Seq<u8>)
    ensures
        hex_of(a) == hex_of(b) <==> a == b,
{
    if hex_of(a) == hex_of(b) {
        assert(hex_of(a).len() == hex_of(b).len());
        assert forall|i: int| 0 <= i < a.len() implies a[i] == b[i] by {
            assert(hex_of(a)[2 * i] == hex_of(b)[2 * i]);
            assert(hex_of(a)[2 * i + 1] == hex_of(b)[2 * i + 1]);
            assert((2 * i) / 2 == i && (2 * i + 1) / 2 == i && (2 * i + 1) % 2 == 1);
            lemma_hex_digit_is_injective(a[i] as int / 16, b[i] as int / 16);
            lemma_hex_digit_is_injective(a[i] as int % 16, b[i] as int % 16);
        }
        assert(a =~= b);
    }
}

proof fn lemma_hex_digit_is_injective(c: int, d: int)
    requires
        0 <= c < 16,
        0 <= d < 16,
        hex_digit(c) == hex_digit(d),
    ensures
        c == d,
{
    assert((48 + c) as char as int == 48 + c && (87 + c) as char as int == 87 + c);
    assert((48 + d) as char as int == 48 + d && (87 + d) as char as int == 87 + d);
}

} // verus!
