//! The 32-bit cyclic redundancy check that seals an Ogg page.
//!
//! The register starts at zero, message bits enter most significant bit first,
//! and the register is presented as it stands: no reflection, no final mask.

use vstd::prelude::*;

verus! {

/// The generator polynomial, its leading term left out.
pub const POLYNOMIAL: u32 = 0x04C1_1DB7;

/// The register after one shift: the bit that leaves at the top decides
/// whether the polynomial is folded in.
pub open spec fn shift_once(reg: u32) -> u32 {
    if reg & 0x8000_0000 != 0 {
        (reg << 1) ^ POLYNOMIAL
    } else {
        reg << 1
    }
}

/// The register after eight shifts.
pub open spec fn shift_byte(reg: u32) -> u32 {
    shift_once(
        shift_once(
            shift_once(shift_once(shift_once(shift_once(shift_once(shift_once(reg)))))),
        ),
    )
}

/// The register after one more message byte has been taken in.
pub open spec fn feed(reg: u32, byte: u8) -> u32 {
    shift_byte(reg ^ ((byte as u32) << 24))
}

/// The checksum of a message: the register after all its bytes, starting from zero.
pub open spec fn crc32(bytes: Seq<u8>) -> u32
    decreases bytes.len(),
{
    if bytes.len() == 0 {
        0
    } else {
        feed(crc32(bytes.drop_last()), bytes.last())
    }
}

/// Computes the checksum with `crc::Crc::<u32>::checksum`, on an instance that
/// `crc::Crc::<u32>::new` makes for width 32, the polynomial above, initial
/// value zero, neither input nor output reflected, and no final XOR.
///
/// Trusted: the crate is taken to run the shift register of [`crc32`]. With
/// these parameters it starts the register at zero, presents it as it stands
/// at the end, and takes each byte in through a table whose entries are a
/// byte shifted eight times from the top of an empty register;
/// [`lemma_feed_by_table`] shows that this is [`feed`].
#[verifier::external_body]
fn crc_checksum(buf: &[u8]) -> (sum: u32)
    ensures
        sum == crc32(buf@),
{
    crc::Crc::<u32>::new(
        &crc::Algorithm {
            width: 32,
            poly: POLYNOMIAL,
            init: 0,
            refin: false,
            refout: false,
            xorout: 0,
            check: 0,
            residue: 0,
        },
    ).checksum(buf)
}

/// The checksum of `buf`.
pub fn checksum(buf: &[u8]) -> (sum: u32)
    ensures
        sum == crc32(buf@),
{
    crc_checksum(buf)
}

/// Taking a byte in is the same as folding the entry of a 256-entry table,
/// picked by the top byte of the register and the message byte, into the
/// register moved up by one byte.
pub proof fn lemma_feed_by_table(reg: u32, byte: u8)
    ensures
        feed(reg, byte) == shift_byte((((reg >> 24) ^ (byte as u32)) & 0xff) << 24) ^ (reg << 8),
{
    assert(feed(reg, byte) == shift_byte((((reg >> 24) ^ (byte as u32)) & 0xff) << 24) ^ (reg
        << 8)) by (bit_vector);
}

/// Two different bytes taken into the same register leave different registers.
pub proof fn lemma_feed_separates_bytes(reg: u32, a: u8, b: u8)
    requires
        a != b,
    ensures
        feed(reg, a) != feed(reg, b),
{
    assert(feed(reg, a) != feed(reg, b)) by (bit_vector)
        requires
            a != b,
    ;
}

/// The same byte taken into two different registers leaves different registers.
pub proof fn lemma_feed_separates_registers(r1: u32, r2: u32, byte: u8)
    requires
        r1 != r2,
    ensures
        feed(r1, byte) != feed(r2, byte),
{
    assert(feed(r1, byte) != feed(r2, byte)) by (bit_vector)
        requires
            r1 != r2,
    ;
}

/// Messages of one length that agree up to `at` and differ there, and agree
/// again on all later bytes, have different checksums.
pub proof fn lemma_single_byte_changes_checksum(a: Seq<u8>, b: Seq<u8>, at: int)
    requires
        a.len() == b.len(),
        0 <= at < a.len(),
        a[at] != b[at],
        forall|i: int| 0 <= i < a.len() && i != at ==> a[i] == b[i],
    ensures
        crc32(a) != crc32(b),
    decreases a.len(),
{
    let last = a.len() - 1;
    if at == last {
        assert(a.drop_last() =~= b.drop_last());
        lemma_feed_separates_bytes(crc32(a.drop_last()), a.last(), b.last());
    } else {
        lemma_single_byte_changes_checksum(a.drop_last(), b.drop_last(), at);
        lemma_feed_separates_registers(crc32(a.drop_last()), crc32(b.drop_last()), a.last());
    }
}

} // verus!
