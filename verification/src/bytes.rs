//! Fixed-width numbers as they lie in the binary payload.

use vstd::prelude::*;
use byteorder::{ByteOrder, LittleEndian};

verus! {

/// Value of `bytes` read as an unsigned number, least significant byte first.
pub open spec fn le_value(bytes: Seq<u8>) -> nat
    decreases bytes.len(),
{
    if bytes.len() == 0 {
        0
    } else {
        bytes[0] as nat + 256 * le_value(bytes.skip(1))
    }
}

/// The signed number whose 32-bit two's complement form is `v`.
pub open spec fn as_signed32(v: nat) -> int {
    if v >= 0x8000_0000 {
        v - 0x1_0000_0000
    } else {
        v as int
    }
}

/// The 32-bit signed number stored in the four bytes of `bytes`, least
/// significant byte first.
pub open spec fn le_i32(bytes: Seq<u8>) -> int {
    as_signed32(le_value(bytes))
}

/// `LittleEndian::read_i32` of byteorder: the first four bytes of `bytes`,
/// least significant first, as a two's complement number. The call panics on
/// fewer than four bytes, which the precondition rules out.
#[verifier::external_body]
pub(crate) fn read_i32_le(bytes: &[u8]) -> (v: i32)
    requires
        bytes@.len() >= 4,
    ensures
        v as int == le_i32(bytes@.subrange(0, 4)),
{
    LittleEndian::read_i32(bytes)
}

/// `LittleEndian::read_u64` of byteorder: the first eight bytes of `bytes`,
/// least significant first, as an unsigned number. The call panics on fewer
/// than eight bytes, which the precondition rules out.
#[verifier::external_body]
pub(crate) fn read_u64_le(bytes: &[u8]) -> (v: u64)
    requires
        bytes@.len() >= 8,
    ensures
        v as nat == le_value(bytes@.subrange(0, 8)),
{
    LittleEndian::read_u64(bytes)
}

} // verus!
