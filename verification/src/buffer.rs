//! Byte buffers: what the `bytes` crate and `std::io::Cursor` hold and do, and
//! the big-endian integers that travel through them.
use bytes::{Buf, BufMut, Bytes, BytesMut};
use std::io::Cursor;
use vstd::prelude::*;

verus! {

/// The four bytes of `n`, most significant first, for `n` in `0..2^32`.
pub open spec fn be_bytes(n: int) -> Seq<u8> {
    seq![
        (n / 0x100_0000) as u8,
        (n / 0x1_0000 % 0x100) as u8,
        (n / 0x100 % 0x100) as u8,
        (n % 0x100) as u8,
    ]
}

/// The number whose four bytes, most significant first, stand at `at` in `s`.
pub open spec fn be_value(s: Seq<u8>, at: int) -> int {
    s[at] * 0x100_0000 + s[at + 1] * 0x1_0000 + s[at + 2] * 0x100 + s[at + 3]
}

/// The 32-bit pattern `n` read as a two's complement number.
pub open spec fn to_signed(n: int) -> int {
    if n < 0x8000_0000 {
        n
    } else {
        n - 0x1_0000_0000
    }
}

/// The 32-bit pattern of the two's complement number `n`.
pub open spec fn to_unsigned(n: int) -> int {
    if n < 0 {
        n + 0x1_0000_0000
    } else {
        n
    }
}

/// The signed number that stands at `at` in `s`.
pub open spec fn be_signed(s: Seq<u8>, at: int) -> int {
    to_signed(be_value(s, at))
}

proof fn lemma_base_256_digits(n: int)
    requires
        0 <= n < 0x1_0000_0000,
    ensures
        0 <= n / 0x100_0000 < 0x100,
        n == (n / 0x100_0000) * 0x100_0000 + (n / 0x1_0000 % 0x100) * 0x1_0000 + (n / 0x100
            % 0x100) * 0x100 + n % 0x100,
{
    let (h, m) = (n / 0x1_0000, n / 0x100);
    assert(h / 0x100 == n / 0x100_0000);
    assert(m / 0x100 == h);
    assert(n == m * 0x100 + n % 0x100);
    assert(m == h * 0x100 + m % 0x100);
    assert(h == (h / 0x100) * 0x100 + h % 0x100);
}

proof fn lemma_base_256_value(a: int, b: int, c: int, d: int)
    requires
        0 <= a < 0x100,
        0 <= b < 0x100,
        0 <= c < 0x100,
        0 <= d < 0x100,
    ensures
        ({
            let n = a * 0x100_0000 + b * 0x1_0000 + c * 0x100 + d;
            &&& 0 <= n < 0x1_0000_0000
            &&& n / 0x100_0000 == a
            &&& n / 0x1_0000 % 0x100 == b
            &&& n / 0x100 % 0x100 == c
            &&& n % 0x100 == d
        }),
{
    let n = a * 0x100_0000 + b * 0x1_0000 + c * 0x100 + d;
    let m = a * 0x1_0000 + b * 0x100 + c;
    let h = a * 0x100 + b;
    assert(n == m * 0x100 + d);
    assert(n / 0x100 == m && n % 0x100 == d);
    assert(m == h * 0x100 + c);
    assert(m / 0x100 == h && m % 0x100 == c);
    assert(n / 0x1_0000 == m / 0x100);
    assert(h / 0x100 == a && h % 0x100 == b);
    assert(n / 0x100_0000 == h / 0x100);
}

/// Reading back the four bytes of a number, wherever they stand, gives the
/// number.
pub proof fn lemma_be_round_trip(n: int, s: Seq<u8>, at: int)
    requires
        0 <= n < 0x1_0000_0000,
        0 <= at,
        at + 4 <= s.len(),
        s.subrange(at, at + 4) == be_bytes(n),
    ensures
        be_value(s, at) == n,
{
    let t = s.subrange(at, at + 4);
    assert(t[0] == s[at]);
    assert(t[1] == s[at + 1]);
    assert(t[2] == s[at + 2]);
    assert(t[3] == s[at + 3]);
    lemma_base_256_digits(n);
}

/// Writing back a number that was read gives the four bytes that it was read
/// from.
pub proof fn lemma_be_bytes_of_value(s: Seq<u8>, at: int)
    requires
        0 <= at,
        at + 4 <= s.len(),
    ensures
        0 <= be_value(s, at) < 0x1_0000_0000,
        be_bytes(be_value(s, at)) == s.subrange(at, at + 4),
{
    let n = be_value(s, at);
    lemma_base_256_value(s[at] as int, s[at + 1] as int, s[at + 2] as int, s[at + 3] as int);
    assert(be_bytes(n) =~= s.subrange(at, at + 4));
}

/// An immutable, cheaply shared run of bytes.
#[verifier::external_type_specification]
#[verifier::external_body]
pub struct ExBytes(Bytes);

/// A growable run of bytes.
#[verifier::external_type_specification]
#[verifier::external_body]
pub struct ExBytesMut(BytesMut);

/// A reading position in some memory.
#[verifier::external_type_specification]
#[verifier::external_body]
#[verifier::reject_recursive_types(T)]
pub struct ExCursor<T>(Cursor<T>);

/// The bytes that a `Bytes` holds.
pub uninterp spec fn bytes_view(b: Bytes) -> Seq<u8>;

/// The bytes that a `BytesMut` holds.
pub uninterp spec fn buffer_view(b: BytesMut) -> Seq<u8>;

/// The memory that a cursor reads.
pub uninterp spec fn cursor_bytes(c: Cursor<&[u8]>) -> Seq<u8>;

/// The index at which a cursor reads next.
pub uninterp spec fn cursor_position(c: Cursor<&[u8]>) -> u64;

/// How many bytes of the memory of `c` lie at or behind its position.
pub open spec fn cursor_left(c: Cursor<&[u8]>) -> int {
    if cursor_position(c) < cursor_bytes(c).len() {
        cursor_bytes(c).len() - cursor_position(c)
    } else {
        0
    }
}

/// `Bytes::new`: holds nothing.
#[verifier::external_body]
pub(crate) fn bytes_new() -> (r: Bytes)
    ensures
        bytes_view(r) == Seq::<u8>::empty(),
{
    Bytes::new()
}

/// `Bytes::copy_from_slice`: holds a copy of `data`.
#[verifier::external_body]
pub(crate) fn bytes_copy_from_slice(data: &[u8]) -> (r: Bytes)
    ensures
        bytes_view(r) == data@,
{
    Bytes::copy_from_slice(data)
}

/// `<Bytes as From<Vec<u8>>>::from`: holds what the vector held.
#[verifier::external_body]
pub(crate) fn bytes_from_vec(data: Vec<u8>) -> (r: Bytes)
    ensures
        bytes_view(r) == data@,
{
    Bytes::from(data)
}

/// `Bytes::len`: the number of bytes held.
#[verifier::external_body]
pub(crate) fn bytes_len(b: &Bytes) -> (r: usize)
    ensures
        r == bytes_view(*b).len(),
{
    b.len()
}

/// `<Bytes as Deref>::deref`: the bytes held, as a slice.
#[verifier::external_body]
pub(crate) fn bytes_as_slice(b: &Bytes) -> (r: &[u8])
    ensures
        r@ == bytes_view(*b),
{
    &b[..]
}

/// `<Bytes as Buf>::get_u32`: takes the first four bytes off and returns the
/// number that they spell, most significant byte first. It panics on fewer.
#[verifier::external_body]
pub(crate) fn bytes_get_u32(b: &mut Bytes) -> (r: u32)
    requires
        bytes_view(*old(b)).len() >= 4,
    ensures
        r == be_value(bytes_view(*old(b)), 0),
        bytes_view(*final(b)) == bytes_view(*old(b)).skip(4),
{
    b.get_u32()
}

/// `BytesMut::new`: holds nothing.
#[verifier::external_body]
pub(crate) fn buffer_new() -> (r: BytesMut)
    ensures
        buffer_view(r) == Seq::<u8>::empty(),
{
    BytesMut::new()
}

/// `BytesMut::with_capacity`: holds nothing. It panics on a capacity that no
/// allocation can have.
#[verifier::external_body]
pub(crate) fn buffer_with_capacity(capacity: usize) -> (r: BytesMut)
    requires
        capacity <= isize::MAX,
    ensures
        buffer_view(r) == Seq::<u8>::empty(),
{
    BytesMut::with_capacity(capacity)
}

/// `<BytesMut as BufMut>::put_u8`: appends one byte. It panics where the
/// contents would outgrow every allocation, as do the other `put` functions. How
/// much room a smaller allocation gets is the allocator's to say, and so is whether
/// there is memory left: neither is spoken of here.
#[verifier::external_body]
pub(crate) fn buffer_put_u8(b: &mut BytesMut, n: u8)
    requires
        buffer_view(*old(b)).len() + 1 <= isize::MAX,
    ensures
        buffer_view(*final(b)) == buffer_view(*old(b)).push(n),
{
    b.put_u8(n)
}

/// `<BytesMut as BufMut>::put_slice`: appends the bytes of `data`.
#[verifier::external_body]
pub(crate) fn buffer_put_slice(b: &mut BytesMut, data: &[u8])
    requires
        buffer_view(*old(b)).len() + data@.len() <= isize::MAX,
    ensures
        buffer_view(*final(b)) == buffer_view(*old(b)) + data@,
{
    b.put_slice(data)
}

/// `<BytesMut as BufMut>::put_bytes`: appends `count` times the byte `value`.
#[verifier::external_body]
pub(crate) fn buffer_put_bytes(b: &mut BytesMut, value: u8, count: usize)
    requires
        buffer_view(*old(b)).len() + count <= isize::MAX,
    ensures
        buffer_view(*final(b)) == buffer_view(*old(b)) + Seq::new(count as nat, |i: int| value),
{
    b.put_bytes(value, count)
}

/// `<BytesMut as BufMut>::put_u32`: appends the four bytes of `n`, most
/// significant first.
#[verifier::external_body]
pub(crate) fn buffer_put_u32(b: &mut BytesMut, n: u32)
    requires
        buffer_view(*old(b)).len() + 4 <= isize::MAX,
    ensures
        buffer_view(*final(b)) == buffer_view(*old(b)) + be_bytes(n as int),
{
    b.put_u32(n)
}

/// `<BytesMut as BufMut>::put_i32`: appends the four bytes of the two's
/// complement pattern of `n`, most significant first.
#[verifier::external_body]
pub(crate) fn buffer_put_i32(b: &mut BytesMut, n: i32)
    requires
        buffer_view(*old(b)).len() + 4 <= isize::MAX,
    ensures
        buffer_view(*final(b)) == buffer_view(*old(b)) + be_bytes(to_unsigned(n as int)),
{
    b.put_i32(n)
}

/// `<BytesMut as Buf>::advance`: drops the first `count` bytes. It panics
/// where fewer are held.
#[verifier::external_body]
pub(crate) fn buffer_advance(b: &mut BytesMut, count: usize)
    requires
        count <= buffer_view(*old(b)).len(),
    ensures
        buffer_view(*final(b)) == buffer_view(*old(b)).skip(count as int),
{
    b.advance(count)
}

/// `BytesMut::freeze`: the same bytes, immutable from now on.
#[verifier::external_body]
pub(crate) fn buffer_freeze(b: BytesMut) -> (r: Bytes)
    ensures
        bytes_view(r) == buffer_view(b),
{
    b.freeze()
}

/// `BytesMut::is_empty`: whether no byte is held.
#[verifier::external_body]
pub(crate) fn buffer_is_empty(b: &BytesMut) -> (r: bool)
    ensures
        r == (buffer_view(*b).len() == 0),
{
    b.is_empty()
}

/// `<BytesMut as Deref>::deref`: the bytes held, as a slice.
#[verifier::external_body]
pub(crate) fn buffer_as_slice(b: &BytesMut) -> (r: &[u8])
    ensures
        r@ == buffer_view(*b),
{
    &b[..]
}

/// `Cursor::new`: reads `data` from its start.
#[verifier::external_body]
pub(crate) fn cursor_new<'a>(data: &'a [u8]) -> (r: Cursor<&'a [u8]>)
    ensures
        cursor_bytes(r) == data@,
        cursor_position(r) == 0,
{
    Cursor::new(data)
}

/// `<Cursor<&[u8]> as Buf>::remaining`: how many bytes are left to read.
#[verifier::external_body]
pub(crate) fn cursor_remaining(c: &Cursor<&[u8]>) -> (r: usize)
    ensures
        r == cursor_left(*c),
{
    c.remaining()
}

/// `<Cursor<&[u8]> as Buf>::get_i32`: the two's complement number that the
/// next four bytes spell, most significant first; moves behind them. It panics
/// on fewer.
#[verifier::external_body]
pub(crate) fn cursor_get_i32(c: &mut Cursor<&[u8]>) -> (r: i32)
    requires
        cursor_left(*old(c)) >= 4,
    ensures
        r == be_signed(cursor_bytes(*old(c)), cursor_position(*old(c)) as int),
        cursor_bytes(*final(c)) == cursor_bytes(*old(c)),
        cursor_position(*final(c)) == cursor_position(*old(c)) + 4,
{
    c.get_i32()
}

/// `<Cursor<&[u8]> as Buf>::get_u8`: the next byte; moves behind it. It panics
/// where none is left.
#[verifier::external_body]
pub(crate) fn cursor_get_u8(c: &mut Cursor<&[u8]>) -> (r: u8)
    requires
        cursor_left(*old(c)) >= 1,
    ensures
        r == cursor_bytes(*old(c))[cursor_position(*old(c)) as int],
        cursor_bytes(*final(c)) == cursor_bytes(*old(c)),
        cursor_position(*final(c)) == cursor_position(*old(c)) + 1,
{
    c.get_u8()
}

/// `<Cursor<&[u8]> as Buf>::advance`: moves `count` bytes forward. It panics
/// where fewer are left.
#[verifier::external_body]
pub(crate) fn cursor_advance(c: &mut Cursor<&[u8]>, count: usize)
    requires
        count <= cursor_left(*old(c)),
    ensures
        cursor_bytes(*final(c)) == cursor_bytes(*old(c)),
        cursor_position(*final(c)) == cursor_position(*old(c)) + count,
{
    c.advance(count)
}

/// `Cursor::position`: the index at which the cursor reads next.
#[verifier::external_body]
pub(crate) fn cursor_get_position(c: &Cursor<&[u8]>) -> (r: u64)
    ensures
        r == cursor_position(*c),
{
    c.position()
}

/// `Cursor::set_position`: reads at `position` next.
#[verifier::external_body]
pub(crate) fn cursor_set_position(c: &mut Cursor<&[u8]>, position: u64)
    ensures
        cursor_bytes(*final(c)) == cursor_bytes(*old(c)),
        cursor_position(*final(c)) == position,
{
    c.set_position(position)
}

/// `Cursor::get_ref`: the memory that the cursor reads.
#[verifier::external_body]
pub(crate) fn cursor_get_ref<'a>(c: &Cursor<&'a [u8]>) -> (r: &'a [u8])
    ensures
        r@ == cursor_bytes(*c),
{
    *c.get_ref()
}

} // verus!
