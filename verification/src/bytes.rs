//! Little-endian integers as byte sequences.

use byteorder::{ByteOrder, LittleEndian};
use vstd::prelude::*;

verus! {

/// The number that `b` denotes when its first byte is the least significant.
pub open spec fn le_nat(b: Seq<u8>) -> nat
    decreases b.len(),
{
    if b.len() == 0 {
        0
    } else {
        b[0] as nat + 256 * le_nat(b.drop_first())
    }
}

/// The `n` least significant base-256 digits of `v`, least significant first.
pub open spec fn le_bytes(v: nat, n: nat) -> Seq<u8>
    decreases n,
{
    if n == 0 {
        Seq::empty()
    } else {
        seq![(v % 256) as u8] + le_bytes(v / 256, (n - 1) as nat)
    }
}

/// `256` to the power `n`: the count of values that `n` bytes can denote.
pub open spec fn le_limit(n: nat) -> nat
    decreases n,
{
    if n == 0 {
        1
    } else {
        256 * le_limit((n - 1) as nat)
    }
}

/// Four bytes hold exactly the `u32` values and eight bytes the `u64` values.
pub proof fn lemma_le_limits()
    ensures
        le_limit(4) == u32::MAX + 1,
        le_limit(8) == u64::MAX + 1,
{
    reveal_with_fuel(le_limit, 9);
}

/// Writing a number as `n` bytes gives `n` bytes, and reading them gives the number back.
pub proof fn lemma_le_value_round_trip(v: nat, n: nat)
    requires
        v < le_limit(n),
    ensures
        le_bytes(v, n).len() == n,
        le_nat(le_bytes(v, n)) == v,
    decreases n,
{
    if n > 0 {
        lemma_le_value_round_trip(v / 256, (n - 1) as nat);
        let b = le_bytes(v, n);
        assert(b.drop_first() =~= le_bytes(v / 256, (n - 1) as nat));
    }
}

/// Reading bytes as a number and writing the number as that many bytes gives the bytes back.
pub proof fn lemma_le_bytes_round_trip(b: Seq<u8>)
    ensures
        le_nat(b) < le_limit(b.len()),
        le_bytes(le_nat(b), b.len()) == b,
    decreases b.len(),
{
    if b.len() > 0 {
        let rest = b.drop_first();
        lemma_le_bytes_round_trip(rest);
        let v = le_nat(b);
        assert(v / 256 == le_nat(rest));
        assert(v % 256 == b[0] as nat);
        assert(seq![b[0]] + rest =~= b);
    } else {
        assert(le_bytes(le_nat(b), b.len()) =~= b);
    }
}

/// Calls `LittleEndian::read_u32` of byteorder: four bytes, least significant first, as a number.
#[verifier::external_body]
pub(crate) fn read_u32(buf: &[u8]) -> (v: u32)
    requires
        buf@.len() == 4,
    ensures
        v as nat == le_nat(buf@),
{
    LittleEndian::read_u32(buf)
}

/// Calls `LittleEndian::read_u64` of byteorder: eight bytes, least significant first, as a number.
#[verifier::external_body]
pub(crate) fn read_u64(buf: &[u8]) -> (v: u64)
    requires
        buf@.len() == 8,
    ensures
        v as nat == le_nat(buf@),
{
    LittleEndian::read_u64(buf)
}

/// Calls `LittleEndian::write_u32` of byteorder on a buffer of four bytes, which then holds the
/// number with its least significant byte first.
#[verifier::external_body]
pub(crate) fn write_u32(v: u32) -> (buf: [u8; 4])
    ensures
        buf@ == le_bytes(v as nat, 4),
{
    let mut buf = [0u8; 4];
    LittleEndian::write_u32(&mut buf, v);
    buf
}

/// Calls `LittleEndian::write_u64` of byteorder on a buffer of eight bytes, which then holds the
/// number with its least significant byte first.
#[verifier::external_body]
pub(crate) fn write_u64(v: u64) -> (buf: [u8; 8])
    ensures
        buf@ == le_bytes(v as nat, 8),
{
    let mut buf = [0u8; 8];
    LittleEndian::write_u64(&mut buf, v);
    buf
}

} // verus!
