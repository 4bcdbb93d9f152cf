//! Integer conversions that keep the low bits of a number.
use vstd::prelude::*;

verus! {

/// `n` reduced to 32 bits.
pub open spec fn wrap_u32(n: int) -> u32 {
    (n % 0x1_0000_0000) as u32
}

/// `n` reduced to the width of a `usize`.
pub open spec fn wrap_usize(n: int) -> usize {
    (n % (usize::MAX + 1)) as usize
}

proof fn lemma_i64_as_u64(v: i64)
    ensures
        (v as u64) as int == (v as int) % 0x1_0000_0000_0000_0000,
{
    assert(v >= 0 ==> v as u64 == v) by (bit_vector);
    assert(v < 0 ==> v as u64 == v + 0x1_0000_0000_0000_0000) by (bit_vector);
}

/// The low bits of `v`, as many as a `usize` has.
pub(crate) fn i64_as_usize(v: i64) -> (r: usize)
    ensures
        r == wrap_usize(v as int),
{
    proof {
        lemma_i64_as_u64(v);
        let w = v as u64;
        assert(v as usize == w as usize) by (bit_vector)
            requires
                w == v as u64,
        ;
        assert(usize::BITS == 32 ==> w as usize == w % 0x1_0000_0000u64) by (bit_vector);
        assert(usize::BITS == 64 ==> w as usize == w) by (bit_vector);
        if usize::BITS == 32 {
            assert(usize::MAX == 0xffff_ffff);
            assert((v as int) % 0x1_0000_0000 == (w as int) % 0x1_0000_0000);
        } else {
            assert(usize::MAX == 0xffff_ffff_ffff_ffff);
        }
    }
    #[verifier::truncate]
    (v as usize)
}

/// The low 32 bits of `n`.
pub(crate) fn usize_as_u32(n: usize) -> (r: u32)
    ensures
        r == wrap_u32(n as int),
{
    proof {
        let w = n as u64;
        assert(n as u32 == w as u32) by (bit_vector)
            requires
                w == n as u64,
        ;
        assert(w as u32 == w % 0x1_0000_0000u64) by (bit_vector);
    }
    #[verifier::truncate]
    (n as u32)
}

/// The low 32 bits of `v`.
pub(crate) fn i64_as_u32(v: i64) -> (r: u32)
    ensures
        r == wrap_u32(v as int),
{
    proof {
        lemma_i64_as_u64(v);
        let w = v as u64;
        assert(v as u32 == w as u32) by (bit_vector)
            requires
                w == v as u64,
        ;
        assert(w as u32 == w % 0x1_0000_0000u64) by (bit_vector);
        assert((v as int) % 0x1_0000_0000 == (w as int) % 0x1_0000_0000);
    }
    #[verifier::truncate]
    (v as u32)
}

} // verus!
