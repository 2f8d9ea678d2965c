//! Big-endian integers in FITS data, read with `byteorder`.
use vstd::prelude::*;
use byteorder::{BigEndian, ByteOrder};

verus! {

/// The unsigned value of bytes in big-endian order.
pub open spec fn be_value(b: Seq<u8>) -> nat
    decreases b.len(),
{
    if b.len() == 0 {
        0
    } else {
        be_value(b.drop_last()) * 256 + (b.last() as nat)
    }
}

/// Two's complement: an unsigned value `u` of a width whose sign bit is
/// worth `half`.
pub open spec fn to_signed(u: nat, half: nat) -> int {
    if u >= half {
        u - 2 * half
    } else {
        u as int
    }
}

/// `BigEndian::read_u32`: the first four bytes as a big-endian `u32`.
/// It panics on fewer than four bytes, which the `requires` rules out.
#[verifier::external_body]
pub(crate) fn read_be_u32(b: &[u8]) -> (r: u32)
    requires
        b.len() >= 4,
    ensures
        r as nat == be_value(b@.take(4)),
{
    BigEndian::read_u32(b)
}

/// `BigEndian::read_u64`: the first eight bytes as a big-endian `u64`.
/// It panics on fewer than eight bytes, which the `requires` rules out.
#[verifier::external_body]
pub(crate) fn read_be_u64(b: &[u8]) -> (r: u64)
    requires
        b.len() >= 8,
    ensures
        r as nat == be_value(b@.take(8)),
{
    BigEndian::read_u64(b)
}

/// `BigEndian::read_i16`: the first two bytes as a big-endian two's
/// complement `i16`. It panics on fewer than two bytes.
#[verifier::external_body]
pub(crate) fn read_be_i16(b: &[u8]) -> (r: i16)
    requires
        b.len() >= 2,
    ensures
        r as int == to_signed(be_value(b@.take(2)), 0x8000),
{
    BigEndian::read_i16(b)
}

/// `BigEndian::read_i32`: the first four bytes as a big-endian two's
/// complement `i32`. It panics on fewer than four bytes.
#[verifier::external_body]
pub(crate) fn read_be_i32(b: &[u8]) -> (r: i32)
    requires
        b.len() >= 4,
    ensures
        r as int == to_signed(be_value(b@.take(4)), 0x8000_0000),
{
    BigEndian::read_i32(b)
}

/// `BigEndian::read_i64`: the first eight bytes as a big-endian two's
/// complement `i64`. It panics on fewer than eight bytes.
#[verifier::external_body]
pub(crate) fn read_be_i64(b: &[u8]) -> (r: i64)
    requires
        b.len() >= 8,
    ensures
        r as int == to_signed(be_value(b@.take(8)), 0x8000_0000_0000_0000),
{
    BigEndian::read_i64(b)
}

} // verus!
