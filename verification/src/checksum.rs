//! The CRC32 that algorithm files and device parameter images carry.

use vstd::prelude::*;

verus! {

/// One shift of the division by the IEEE polynomial, lowest bit first.
pub open spec fn crc32_shift(register: u32) -> u32 {
    if register & 1 == 0 {
        register >> 1
    } else {
        (register >> 1) ^ 0xedb8_8320
    }
}

/// A number of shifts of the division.
pub open spec fn crc32_shifts(register: u32, count: nat) -> u32
    decreases count,
{
    if count == 0 {
        register
    } else {
        crc32_shift(crc32_shifts(register, (count - 1) as nat))
    }
}

/// What the bytes leave in the register of the division.
pub open spec fn crc32_register(bytes: Seq<u8>) -> u32
    decreases bytes.len(),
{
    if bytes.len() == 0 {
        0xffff_ffff
    } else {
        crc32_shifts(crc32_register(bytes.drop_last()) ^ bytes.last() as u32, 8)
    }
}

/// The CRC32 (IEEE) of bytes.
pub open spec fn crc32(bytes: Seq<u8>) -> u32 {
    crc32_register(bytes) ^ 0xffff_ffff
}

/// Hashes with `crc32fast::hash`, which computes the CRC32 (IEEE) of the bytes.
#[verifier::external_body]
pub(crate) fn hash(bytes: &[u8]) -> (value: u32)
    ensures
        value == crc32(bytes@),
{
    crc32fast::hash(bytes)
}

proof fn lemma_shifts_are_injective(left: u32, right: u32, count: nat)
    requires
        crc32_shifts(left, count) == crc32_shifts(right, count),
    ensures
        left == right,
    decreases count,
{
    if count > 0 {
        let a = crc32_shifts(left, (count - 1) as nat);
        let b = crc32_shifts(right, (count - 1) as nat);
        assert((if a & 1 == 0 {
            a >> 1
        } else {
            (a >> 1) ^ 0xedb8_8320
        }) == (if b & 1 == 0 {
            b >> 1
        } else {
            (b >> 1) ^ 0xedb8_8320
        }) ==> a == b) by (bit_vector);
        lemma_shifts_are_injective(left, right, (count - 1) as nat);
    }
}

/// Changing one byte changes the CRC32.
pub proof fn law_a_changed_byte_changes_the_crc32(bytes: Seq<u8>, index: int, value: u8)
    requires
        0 <= index < bytes.len(),
        value != bytes[index],
    ensures
        crc32(bytes.update(index, value)) != crc32(bytes),
{
    lemma_changed_register(bytes, index, value);
    let a = crc32_register(bytes.update(index, value));
    let b = crc32_register(bytes);
    assert(a ^ 0xffff_ffff == b ^ 0xffff_ffff ==> a == b) by (bit_vector);
}

proof fn lemma_changed_register(bytes: Seq<u8>, index: int, value: u8)
    requires
        0 <= index < bytes.len(),
        value != bytes[index],
    ensures
        crc32_register(bytes.update(index, value)) != crc32_register(bytes),
    decreases bytes.len(),
{
    let changed = bytes.update(index, value);
    let old_start = crc32_register(bytes.drop_last());
    let new_start = crc32_register(changed.drop_last());
    let old_byte = bytes.last();
    let new_byte = changed.last();
    if index == bytes.len() - 1 {
        assert(changed.drop_last() =~= bytes.drop_last());
        assert(old_start ^ (old_byte as u32) == old_start ^ (new_byte as u32) ==> old_byte
            == new_byte) by (bit_vector);
    } else {
        lemma_changed_register(bytes.drop_last(), index, value);
        assert(changed.drop_last() =~= bytes.drop_last().update(index, value));
        assert(old_start ^ (old_byte as u32) == new_start ^ (old_byte as u32) ==> old_start
            == new_start) by (bit_vector);
    }
    if crc32_register(changed) == crc32_register(bytes) {
        lemma_shifts_are_injective(
            new_start ^ new_byte as u32,
            old_start ^ old_byte as u32,
            8,
        );
    }
}

} // verus!
