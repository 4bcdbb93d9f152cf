//! The bitfield of a peer: one bit for each piece of the torrent.
use bitvec::order::Msb0;
use bitvec::vec::BitVec;
use vstd::prelude::*;

verus! {

/// What the bit at place `k` of a byte counts, the most significant bit being
/// at place 0.
pub open spec fn bit_weight(k: int) -> int {
    if k == 0 {
        128
    } else if k == 1 {
        64
    } else if k == 2 {
        32
    } else if k == 3 {
        16
    } else if k == 4 {
        8
    } else if k == 5 {
        4
    } else if k == 6 {
        2
    } else {
        1
    }
}

/// The bits of `data`, byte after byte, the most significant bit of each byte
/// first.
pub open spec fn bits_of_bytes(data: Seq<u8>) -> Seq<bool> {
    Seq::new(data.len() * 8, |i: int| (data[i / 8] as int) / bit_weight(i % 8) % 2 == 1)
}

/// Whether every one of `bits` is set.
pub open spec fn all_set(bits: Seq<bool>) -> bool {
    forall|i: int| 0 <= i < bits.len() ==> bits[i]
}

/// A sequence of bits, packed into bytes with the most significant bit first.
#[verifier::external_body]
#[derive(Debug)]
pub struct Bitfield {
    bits: BitVec<u8, Msb0>,
}

/// The bits that a bitfield holds.
pub uninterp spec fn bits_view(b: Bitfield) -> Seq<bool>;

impl View for Bitfield {
    type V = Seq<bool>;

    open spec fn view(&self) -> Seq<bool> {
        bits_view(*self)
    }
}

/// `BitVec::from_slice`: the bits of `data`. It panics where there are more of
/// them than a bit vector can count.
#[verifier::external_body]
fn bits_from_slice(data: &[u8]) -> (r: Bitfield)
    requires
        data@.len() * 8 <= usize::MAX / 8,
    ensures
        bits_view(r) == bits_of_bytes(data@),
{
    Bitfield { bits: BitVec::from_slice(data) }
}

/// `BitVec::repeat`: `len` times the bit `bit`. It panics where `len` is more
/// than a bit vector can count.
#[verifier::external_body]
fn bits_repeat(bit: bool, len: usize) -> (r: Bitfield)
    requires
        len <= usize::MAX / 8,
    ensures
        bits_view(r) == Seq::new(len as nat, |i: int| bit),
{
    Bitfield { bits: BitVec::repeat(bit, len) }
}

/// `BitSlice::len`: the number of bits held.
#[verifier::external_body]
fn bits_len(b: &Bitfield) -> (r: usize)
    ensures
        r == bits_view(*b).len(),
{
    b.bits.len()
}

/// `<BitVec as Index<usize>>::index`: the bit at `index`. It panics where there
/// is none.
#[verifier::external_body]
fn bits_index(b: &Bitfield, index: usize) -> (r: bool)
    requires
        index < bits_view(*b).len(),
    ensures
        r == bits_view(*b)[index as int],
{
    b.bits[index]
}

/// `BitSlice::set`: writes the bit at `index`. It panics where there is none.
#[verifier::external_body]
fn bits_set(b: &mut Bitfield, index: usize, value: bool)
    requires
        index < bits_view(*old(b)).len(),
    ensures
        bits_view(*final(b)) == bits_view(*old(b)).update(index as int, value),
{
    b.bits.set(index, value)
}

/// `BitSlice::all`: whether every bit is set, as it is where there is no bit.
#[verifier::external_body]
fn bits_all(b: &Bitfield) -> (r: bool)
    ensures
        r == all_set(bits_view(*b)),
{
    b.bits.all()
}

impl Bitfield {
    /// The bitfield that the bytes `data` spell.
    pub fn from_slice(data: &[u8]) -> (r: Bitfield)
        requires
            data@.len() * 8 <= usize::MAX / 8,
        ensures
            r@ == bits_of_bytes(data@),
    {
        bits_from_slice(data)
    }

    /// A bitfield of `len` bits, all of them `bit`.
    pub fn repeat(bit: bool, len: usize) -> (r: Bitfield)
        requires
            len <= usize::MAX / 8,
        ensures
            r@ == Seq::new(len as nat, |i: int| bit),
    {
        bits_repeat(bit, len)
    }

    /// The number of bits.
    pub fn len(&self) -> (r: usize)
        ensures
            r == self@.len(),
    {
        bits_len(self)
    }

    /// The bit at `index`.
    pub fn get(&self, index: usize) -> (r: bool)
        requires
            index < self@.len(),
        ensures
            r == self@[index as int],
    {
        bits_index(self, index)
    }

    /// Writes the bit at `index`.
    pub fn set(&mut self, index: usize, value: bool)
        requires
            index < old(self)@.len(),
        ensures
            final(self)@ == old(self)@.update(index as int, value),
    {
        bits_set(self, index, value)
    }

    /// Whether every bit is set.
    pub fn all(&self) -> (r: bool)
        ensures
            r == all_set(self@),
    {
        bits_all(self)
    }
}

} // verus!
