//! Little-endian fields, NUL-terminated fields and fixed-size copies.

use vstd::prelude::*;

verus! {

/// The two bytes of `value`, least significant first.
pub open spec fn le16(value: u16) -> Seq<u8> {
    seq![(value % 0x100) as u8, (value / 0x100) as u8]
}

/// The four bytes of `value`, least significant first.
pub open spec fn le32(value: u32) -> Seq<u8> {
    seq![
        (value % 0x100) as u8,
        (value / 0x100 % 0x100) as u8,
        (value / 0x1_0000 % 0x100) as u8,
        (value / 0x100_0000) as u8,
    ]
}

/// The little-endian 16-bit field of `bytes` at `offset`.
pub open spec fn u16_at(bytes: Seq<u8>, offset: int) -> u16 {
    (bytes[offset] + 0x100 * bytes[offset + 1]) as u16
}

/// The little-endian 32-bit field of `bytes` at `offset`.
pub open spec fn u32_at(bytes: Seq<u8>, offset: int) -> u32 {
    (bytes[offset] + 0x100 * bytes[offset + 1] + 0x1_0000 * bytes[offset + 2] + 0x100_0000
        * bytes[offset + 3]) as u32
}

/// `count` zero bytes.
pub open spec fn zeros(count: nat) -> Seq<u8> {
    Seq::new(count, |i: int| 0u8)
}

/// The bytes of `field` before its first zero byte, or all of them.
pub open spec fn until_nul(field: Seq<u8>) -> Seq<u8>
    decreases field.len(),
{
    if field.len() == 0 || field[0] == 0 {
        Seq::empty()
    } else {
        seq![field[0]] + until_nul(field.skip(1))
    }
}

/// Both decimal digits of a binary-coded byte are at most nine.
pub open spec fn is_bcd(byte: u8) -> bool {
    byte / 16 <= 9 && byte % 16 <= 9
}

/// Every byte of `bytes` holds two decimal digits.
pub open spec fn all_bcd(bytes: Seq<u8>) -> bool {
    forall|i: int| 0 <= i < bytes.len() ==> is_bcd(#[trigger] bytes[i])
}

/// Eight timestamp bytes: seven binary-coded decimal bytes and a zero.
pub open spec fn is_bcd_timestamp(timestamp: Seq<u8>) -> bool {
    timestamp.len() == 8 && all_bcd(timestamp.take(7)) && timestamp[7] == 0
}

/// A 16-bit field reads back the value that was stored in it.
pub proof fn lemma_le16_reads_back(value: u16)
    ensures
        le16(value).len() == 2,
        u16_at(le16(value), 0) == value,
{
}

/// A 32-bit field reads back the value that was stored in it.
pub proof fn lemma_le32_reads_back(value: u32)
    ensures
        le32(value).len() == 4,
        u32_at(le32(value), 0) == value,
{
    let a: int = value as int % 0x100;
    let b: int = value as int / 0x100 % 0x100;
    let c: int = value as int / 0x1_0000 % 0x100;
    let d: int = value as int / 0x100_0000;
    assert(value as int == a + 0x100 * b + 0x1_0000 * c + 0x100_0000 * d);
}

/// Where the field of a NUL-terminated text ends.
pub proof fn lemma_until_nul(field: Seq<u8>, length: int)
    requires
        0 <= length <= field.len(),
        forall|i: int| 0 <= i < length ==> field[i] != 0,
        length < field.len() ==> field[length] == 0,
    ensures
        until_nul(field) == field.take(length),
    decreases length,
{
    if length == 0 {
        assert(field.take(0) =~= Seq::<u8>::empty());
    } else {
        assert forall|i: int| 0 <= i < length - 1 implies field.skip(1)[i] != 0 by {
            assert(field.skip(1)[i] == field[i + 1]);
        }
        lemma_until_nul(field.skip(1), length - 1);
        assert(field.take(length) =~= seq![field[0]] + field.skip(1).take(length - 1));
    }
}

/// A NUL-terminated text is a prefix of its field and holds no zero byte.
pub proof fn lemma_until_nul_prefix(field: Seq<u8>)
    ensures
        until_nul(field).len() <= field.len(),
        until_nul(field) == field.take(until_nul(field).len() as int),
        forall|i: int|
            0 <= i < until_nul(field).len() ==> #[trigger] until_nul(field)[i] != 0,
        until_nul(field).len() < field.len() ==> field[until_nul(field).len() as int] == 0,
    decreases field.len(),
{
    if field.len() == 0 || field[0] == 0 {
        assert(field.take(0) =~= Seq::<u8>::empty());
    } else {
        lemma_until_nul_prefix(field.skip(1));
        let rest = until_nul(field.skip(1));
        assert(until_nul(field) =~= field.take(until_nul(field).len() as int));
        assert forall|i: int| 0 <= i < until_nul(field).len() implies #[trigger] until_nul(
            field,
        )[i] != 0 by {
            if i > 0 {
                assert(until_nul(field)[i] == rest[i - 1]);
            }
        }
    }
}

/// Copies a slice of known length into an array.
pub(crate) fn to_array<const N: usize>(source: &[u8]) -> (copied: [u8; N])
    requires
        source@.len() == N,
    ensures
        copied@ == source@,
{
    let mut copied: [u8; N] = [0u8;N];
    let mut i: usize = 0;
    while i < N
        invariant
            i <= N,
            source@.len() == N,
            forall|j: int| 0 <= j < i ==> copied@[j] == source@[j],
        decreases N - i,
    {
        copied[i] = source[i];
        i += 1;
    }
    assert(copied@ =~= source@);
    copied
}

/// Copies a slice into a vector.
pub(crate) fn to_vec(source: &[u8]) -> (copied: Vec<u8>)
    ensures
        copied@ == source@,
{
    let mut copied: Vec<u8> = Vec::new();
    extend(&mut copied, source);
    assert(copied@ =~= source@);
    copied
}

/// Appends a slice to a vector.
pub(crate) fn extend(target: &mut Vec<u8>, source: &[u8])
    ensures
        final(target)@ == old(target)@ + source@,
{
    let ghost before = target@;
    let mut i: usize = 0;
    while i < source.len()
        invariant
            i <= source@.len(),
            target@ == before + source@.take(i as int),
        decreases source@.len() - i,
    {
        target.push(source[i]);
        i += 1;
        assert(source@.take(i as int) =~= source@.take(i - 1).push(source@[i - 1]));
        assert(target@ =~= before + source@.take(i as int));
    }
    assert(source@.take(i as int) =~= source@);
}

/// Appends zero bytes to a vector.
pub(crate) fn extend_zeros(target: &mut Vec<u8>, count: usize)
    ensures
        final(target)@ == old(target)@ + zeros(count as nat),
{
    let ghost before = target@;
    let mut i: usize = 0;
    while i < count
        invariant
            i <= count,
            target@ == before + zeros(i as nat),
        decreases count - i,
    {
        target.push(0u8);
        i += 1;
        assert(target@ =~= before + zeros(i as nat));
    }
    assert(target@ =~= before + zeros(count as nat));
}

/// Appends a little-endian 16-bit field.
pub(crate) fn extend_u16(target: &mut Vec<u8>, value: u16)
    ensures
        final(target)@ == old(target)@ + le16(value),
{
    let ghost before = target@;
    target.push((value % 0x100) as u8);
    target.push((value / 0x100) as u8);
    assert(target@ =~= before + le16(value));
}

/// Appends a little-endian 32-bit field.
pub(crate) fn extend_u32(target: &mut Vec<u8>, value: u32)
    ensures
        final(target)@ == old(target)@ + le32(value),
{
    let ghost before = target@;
    target.push((value % 0x100) as u8);
    target.push((value / 0x100 % 0x100) as u8);
    target.push((value / 0x1_0000 % 0x100) as u8);
    target.push((value / 0x100_0000) as u8);
    assert(target@ =~= before + le32(value));
}

/// Reads a little-endian 16-bit field.
pub(crate) fn read_u16(bytes: &[u8], offset: usize) -> (value: u16)
    requires
        offset + 2 <= bytes@.len(),
    ensures
        value == u16_at(bytes@, offset as int),
{
    bytes[offset] as u16 + 0x100 * bytes[offset + 1] as u16
}

/// Reads a little-endian 32-bit field.
pub(crate) fn read_u32(bytes: &[u8], offset: usize) -> (value: u32)
    requires
        offset + 4 <= bytes@.len(),
    ensures
        value == u32_at(bytes@, offset as int),
{
    bytes[offset] as u32 + 0x100 * bytes[offset + 1] as u32 + 0x1_0000 * bytes[offset + 2] as u32
        + 0x100_0000 * bytes[offset + 3] as u32
}

/// The text of a NUL-terminated field.
pub(crate) fn nul_terminated(field: &[u8]) -> (text: &[u8])
    ensures
        text@ == until_nul(field@),
{
    let mut length: usize = 0;
    while length < field.len() && field[length] != 0
        invariant
            length <= field@.len(),
            forall|i: int| 0 <= i < length ==> field@[i] != 0,
        decreases field@.len() - length,
    {
        length += 1;
    }
    proof {
        lemma_until_nul(field@, length as int);
        assert(field@.subrange(0, length as int) =~= field@.take(length as int));
    }
    vstd::slice::slice_subrange(field, 0, length)
}

/// Whether two slices hold the same bytes.
pub(crate) fn same_bytes(left: &[u8], right: &[u8]) -> (same: bool)
    ensures
        same == (left@ == right@),
{
    if left.len() != right.len() {
        return false;
    }
    let mut i: usize = 0;
    while i < left.len()
        invariant
            i <= left@.len(),
            left@.len() == right@.len(),
            forall|j: int| 0 <= j < i ==> left@[j] == right@[j],
        decreases left@.len() - i,
    {
        if left[i] != right[i] {
            return false;
        }
        i += 1;
    }
    assert(left@ =~= right@);
    true
}

/// Whether every byte holds two decimal digits.
pub(crate) fn holds_bcd(bytes: &[u8]) -> (valid: bool)
    ensures
        valid == all_bcd(bytes@),
{
    let mut i: usize = 0;
    while i < bytes.len()
        invariant
            i <= bytes@.len(),
            forall|j: int| 0 <= j < i ==> is_bcd(#[trigger] bytes@[j]),
        decreases bytes@.len() - i,
    {
        if bytes[i] / 16 > 9 || bytes[i] % 16 > 9 {
            assert(!is_bcd(bytes@[i as int]));
            return false;
        }
        i += 1;
    }
    true
}

/// Whether eight timestamp bytes are seven binary-coded decimal bytes and a zero.
pub(crate) fn holds_bcd_timestamp(timestamp: &[u8]) -> (valid: bool)
    requires
        timestamp@.len() == 8,
    ensures
        valid == is_bcd_timestamp(timestamp@),
{
    assert(timestamp@.subrange(0, 7) =~= timestamp@.take(7));
    holds_bcd(vstd::slice::slice_subrange(timestamp, 0, 7)) && timestamp[7] == 0
}

/// Changing one byte of a word changes the word.
pub proof fn lemma_changed_word(bytes: Seq<u8>, offset: int, index: int, value: u8)
    requires
        0 <= offset <= index < offset + 4 <= bytes.len(),
        value != bytes[index],
    ensures
        u32_at(bytes.update(index, value), offset) != u32_at(bytes, offset),
{
}

/// The number in two bytes, the low one first.
pub open spec fn half(bytes: Seq<u8>, at: int) -> int {
    bytes[at] + 256 * bytes[at + 1]
}

/// The number in four bytes, the low one first.
pub open spec fn word(bytes: Seq<u8>, at: int) -> int {
    bytes[at] + 256 * (bytes[at + 1] + 256 * (bytes[at + 2] + 256 * bytes[at + 3]))
}

/// Fields hold the low byte first.
pub proof fn law_fields_are_low_byte_first(bytes: Seq<u8>, at: int)
    ensures
        u16_at(bytes, at) == half(bytes, at),
        u32_at(bytes, at) == word(bytes, at),
{
}

/// A stored number is the sum of its bytes, each counted 256 times the one before
/// it.
pub proof fn law_numbers_are_stored_low_byte_first(short: u16, long: u32)
    ensures
        le16(short).len() == 2,
        half(le16(short), 0) == short,
        le32(long).len() == 4,
        word(le32(long), 0) == long,
{
    lemma_le16_reads_back(short);
    lemma_le32_reads_back(long);
}

} // verus!
