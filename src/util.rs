//! Errors of block validation and the bit-level view of fixed-width integers.
use vstd::arithmetic::power2::pow2;
use vstd::prelude::*;

verus! {

/// Bit `i` of `v`.
pub open spec fn bit_of(v: nat, i: nat) -> bool {
    (v / pow2(i)) % 2 == 1
}

/// Fixed-width integers seen as arrays of bits, bit 0 the least significant.
pub trait BitArray: Sized {
    /// The number the bits stand for.
    spec fn bits_value(&self) -> nat;

    /// Width in bits.
    spec fn width() -> nat;

    fn is_bit_set(&self, index: usize) -> (r: bool)
        ensures
            r == bit_of(self.bits_value(), index as nat),
    ;

    /// Bits `start` (included) to `end` (excluded), moved down to bit 0.
    fn as_bit_slice(&self, start: usize, end: usize) -> (r: Self)
        requires
            start <= end,
        ensures
            r.bits_value() == (self.bits_value() / pow2(start as nat)) % pow2((end - start) as nat),
    ;

    /// Keeps the bits below `n` and clears the others.
    fn mask(&self, n: usize) -> (r: Self)
        ensures
            r.bits_value() == self.bits_value() % pow2(n as nat),
    ;

    /// Number of zero bits below the lowest set bit; the width for zero.
    fn trailing_zeros(&self) -> (r: usize)
        ensures
            r <= Self::width(),
            forall|i: nat| i < r ==> !bit_of(self.bits_value(), i),
            r < Self::width() ==> bit_of(self.bits_value(), r as nat),
    ;

    fn all_zeros_value() -> (r: Self)
        ensures
            r.bits_value() == 0,
    ;

    fn repr_one() -> (r: Self)
        ensures
            r.bits_value() == 1,
    ;
}

/// Why a block header failed validation.
#[derive(Clone, Copy, Debug, PartialEq, Eq)]
pub enum Error {
    /// The header's hash, read as a number, is above its target.
    BlockProofOfWorkError,
    /// The header's target is not the one that was required.
    BlockTargetError,
    /// Bytes that are not the encoding of any value: too short, too long
    /// or malformed.
    DecodeError,
}

impl Error {
    /// A short text for the error.
    pub fn description(&self) -> (r: &'static str)
        ensures
            r@ == (match *self {
                Error::BlockProofOfWorkError => "block target not below the target"@,
                Error::BlockTargetError => "incorrect block target"@,
                Error::DecodeError => "invalid encoding"@,
            }),
    {
        match *self {
            Error::BlockProofOfWorkError => "block target not below the target",
            Error::BlockTargetError => "incorrect block target",
            Error::DecodeError => "invalid encoding",
        }
    }
}

} // verus!
