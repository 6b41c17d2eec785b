//! Parser for `.cfg` configuration assets.
//!
//! Only the boundaries that are known are named. Record text and unknown flags
//! remain in each raw record.

use vstd::prelude::*;
use vstd::slice::slice_subrange;

use super::device_db::{sfly_crc, sfly_crc16};
use crate::bytes::{
    half, law_fields_are_low_byte_first, lemma_until_nul_prefix, nul_terminated, read_u16, read_u32,
    to_array, to_vec, u16_at, u32_at, until_nul, word,
};
use crate::text::{
    ascii_bytes, chars_of_bytes, eq_ignoring_case, is_ascii_bytes, same_ignoring_case,
    text_of_bytes,
};

verus! {

pub const HEADER_BYTES: usize = 0x130;

pub const DEFAULT_BLOCK_BYTES: usize = 64;

pub const RECORD_HEADER_BYTES: usize = 0x1c;

/// The only configuration version that is understood.
pub const SUPPORTED_VERSION: u16 = 9;

/// The contents of a configuration record.
pub struct ConfigurationRecordView {
    pub source_index: nat,
    pub source_offset: nat,
    pub type_flags: u8,
    pub unknown_09: u8,
    pub text_length_1: u16,
    pub text_length_2: u16,
    pub bit_offset: u16,
    pub bit_width_or_count: u16,
    pub value_or_default: u32,
    pub unknown_18: u8,
    pub choice_count: u8,
    pub raw: Seq<u8>,
}

/// The contents of a configuration asset.
pub struct ConfigurationView {
    pub name: Seq<char>,
    pub version: u16,
    pub default_block_0: Seq<u8>,
    pub default_block_1: Seq<u8>,
    pub default_protection_bits: u32,
    pub records: Seq<ConfigurationRecordView>,
    pub opaque_tail: Seq<u8>,
}

/// The fields of a record with the given bytes.
pub open spec fn record_fields(index: nat, offset: nat, raw: Seq<u8>) -> ConfigurationRecordView {
    ConfigurationRecordView {
        source_index: index,
        source_offset: offset,
        type_flags: raw[0x08],
        unknown_09: raw[0x09],
        text_length_1: u16_at(raw, 0x0a),
        text_length_2: u16_at(raw, 0x0c),
        bit_offset: u16_at(raw, 0x10),
        bit_width_or_count: u16_at(raw, 0x12),
        value_or_default: u32_at(raw, 0x14),
        unknown_18: raw[0x18],
        choice_count: raw[0x19],
        raw,
    }
}

/// What the record at an offset parses to.
pub open spec fn parsed_record(bytes: Seq<u8>, index: nat, offset: nat) -> Result<
    ConfigurationRecordView,
    ConfigurationError<Seq<char>>,
> {
    let at = offset as int;
    let length = u32_at(bytes, at + 4);
    if offset + RECORD_HEADER_BYTES > usize::MAX {
        Err(ConfigurationError::RecordLengthOverflow { index: index as usize })
    } else if offset + RECORD_HEADER_BYTES > bytes.len() {
        Err(ConfigurationError::TruncatedRecord { index: index as usize, offset: offset as usize })
    } else if bytes.subrange(at, at + 4) != seq![0x5au8, 0x5a, 0xa5, 0xa5] {
        Err(
            ConfigurationError::InvalidRecordMagic {
                index: index as usize,
                offset: offset as usize,
                actual: [bytes[at], bytes[at + 1], bytes[at + 2], bytes[at + 3]],
            },
        )
    } else if length < RECORD_HEADER_BYTES {
        Err(
            ConfigurationError::InvalidRecordLength {
                index: index as usize,
                actual: length as usize,
                minimum: RECORD_HEADER_BYTES,
            },
        )
    } else if offset + length > usize::MAX {
        Err(ConfigurationError::RecordLengthOverflow { index: index as usize })
    } else if offset + length > bytes.len() {
        Err(ConfigurationError::TruncatedRecord { index: index as usize, offset: offset as usize })
    } else {
        Ok(record_fields(index, offset, bytes.subrange(at, at + length)))
    }
}

/// What the first records parse to and where they end, or the first failure
/// among them. Each record begins where the one before it ends.
pub open spec fn parsed_records(bytes: Seq<u8>, count: nat) -> Result<
    (Seq<ConfigurationRecordView>, nat),
    ConfigurationError<Seq<char>>,
>
    decreases count,
{
    if count == 0 {
        Ok((Seq::empty(), HEADER_BYTES as nat))
    } else {
        match parsed_records(bytes, (count - 1) as nat) {
            Err(error) => Err(error),
            Ok((records, end)) => match parsed_record(bytes, (count - 1) as nat, end) {
                Err(error) => Err(error),
                Ok(record) => Ok((records.push(record), end + record.raw.len())),
            },
        }
    }
}

/// What a file parses to, given the name it should have. Rules apply in the
/// order of the tests.
pub open spec fn parsed_configuration(bytes: Seq<u8>, expected_stem: Option<Seq<char>>) -> Result<
    ConfigurationView,
    ConfigurationError<Seq<char>>,
> {
    let name_bytes = until_nul(bytes.subrange(0x10, 0x20));
    let name = chars_of_bytes(name_bytes);
    if bytes.len() < HEADER_BYTES {
        Err(
            ConfigurationError::TooShort { actual: bytes.len() as usize, minimum: HEADER_BYTES },
        )
    } else if bytes.take(4) != seq![0x43u8, 0x46, 0x47, 0x00] {
        Err(ConfigurationError::InvalidMagic { actual: [bytes[0], bytes[1], bytes[2], bytes[3]] })
    } else if u16_at(bytes, 0x04) != SUPPORTED_VERSION {
        Err(ConfigurationError::UnsupportedVersion { actual: u16_at(bytes, 0x04) })
    } else if sfly_crc(bytes) != 0 {
        Err(ConfigurationError::CrcResidue)
    } else if name.len() == 0 || !is_ascii_bytes(name_bytes) {
        Err(ConfigurationError::InvalidName)
    } else if expected_stem is Some && !same_ignoring_case(name, expected_stem.unwrap()) {
        Err(ConfigurationError::NameMismatch { expected: expected_stem.unwrap(), actual: name })
    } else {
        match parsed_records(bytes, bytes[0xa1] as nat) {
            Err(error) => Err(error),
            Ok((records, end)) => Ok(
                ConfigurationView {
                    name,
                    version: u16_at(bytes, 0x04),
                    default_block_0: bytes.subrange(0x20, 0x60),
                    default_block_1: bytes.subrange(0x60, 0xa0),
                    default_protection_bits: u32_at(bytes, 0xa4),
                    records,
                    opaque_tail: bytes.skip(end as int),
                },
            ),
        }
    }
}

/// A result of parsing is the given one.
pub open spec fn configuration_result(
    result: Result<Configuration, ConfigurationError>,
    expected: Result<ConfigurationView, ConfigurationError<Seq<char>>>,
) -> bool {
    match (result, expected) {
        (Ok(configuration), Ok(contents)) => configuration@ == contents,
        (Err(error), Err(reason)) => error@ == reason,
        _ => false,
    }
}

/// Known fields and raw bytes of one variable-length record.
#[derive(Debug, Clone, PartialEq, Eq)]
pub struct ConfigurationRecord {
    source_index: usize,
    source_offset: usize,
    type_flags: u8,
    unknown_09: u8,
    text_length_1: u16,
    text_length_2: u16,
    bit_offset: u16,
    bit_width_or_count: u16,
    value_or_default: u32,
    unknown_18: u8,
    choice_count: u8,
    raw: Vec<u8>,
}

impl View for ConfigurationRecord {
    type V = ConfigurationRecordView;

    closed spec fn view(&self) -> ConfigurationRecordView {
        ConfigurationRecordView {
            source_index: self.source_index as nat,
            source_offset: self.source_offset as nat,
            type_flags: self.type_flags,
            unknown_09: self.unknown_09,
            text_length_1: self.text_length_1,
            text_length_2: self.text_length_2,
            bit_offset: self.bit_offset,
            bit_width_or_count: self.bit_width_or_count,
            value_or_default: self.value_or_default,
            unknown_18: self.unknown_18,
            choice_count: self.choice_count,
            raw: self.raw@,
        }
    }
}

impl ConfigurationRecord {
    #[must_use]
    pub fn source_index(&self) -> (index: usize)
        ensures
            index == self@.source_index,
    {
        self.source_index
    }

    #[must_use]
    pub fn source_offset(&self) -> (offset: usize)
        ensures
            offset == self@.source_offset,
    {
        self.source_offset
    }

    #[must_use]
    pub fn type_flags(&self) -> (flags: u8)
        ensures
            flags == self@.type_flags,
    {
        self.type_flags
    }

    #[must_use]
    pub fn unknown_09(&self) -> (value: u8)
        ensures
            value == self@.unknown_09,
    {
        self.unknown_09
    }

    #[must_use]
    pub fn text_length_1(&self) -> (length: u16)
        ensures
            length == self@.text_length_1,
    {
        self.text_length_1
    }

    #[must_use]
    pub fn text_length_2(&self) -> (length: u16)
        ensures
            length == self@.text_length_2,
    {
        self.text_length_2
    }

    #[must_use]
    pub fn bit_offset(&self) -> (offset: u16)
        ensures
            offset == self@.bit_offset,
    {
        self.bit_offset
    }

    #[must_use]
    pub fn bit_width_or_count(&self) -> (width: u16)
        ensures
            width == self@.bit_width_or_count,
    {
        self.bit_width_or_count
    }

    #[must_use]
    pub fn value_or_default(&self) -> (value: u32)
        ensures
            value == self@.value_or_default,
    {
        self.value_or_default
    }

    #[must_use]
    pub fn unknown_18(&self) -> (value: u8)
        ensures
            value == self@.unknown_18,
    {
        self.unknown_18
    }

    #[must_use]
    pub fn choice_count(&self) -> (count: u8)
        ensures
            count == self@.choice_count,
    {
        self.choice_count
    }

    #[must_use]
    pub fn raw(&self) -> (raw: &[u8])
        ensures
            raw@ == self@.raw,
    {
        self.raw.as_slice()
    }
}

/// The contents of configuration records.
pub open spec fn record_views(records: Seq<ConfigurationRecord>) -> Seq<ConfigurationRecordView> {
    records.map_values(|record: ConfigurationRecord| record@)
}

/// A validated configuration asset.
#[derive(Debug, Clone, PartialEq, Eq)]
pub struct Configuration {
    name: String,
    version: u16,
    default_block_0: [u8; DEFAULT_BLOCK_BYTES],
    default_block_1: [u8; DEFAULT_BLOCK_BYTES],
    default_protection_bits: u32,
    records: Vec<ConfigurationRecord>,
    opaque_tail: Vec<u8>,
}

impl View for Configuration {
    type V = ConfigurationView;

    closed spec fn view(&self) -> ConfigurationView {
        ConfigurationView {
            name: self.name@,
            version: self.version,
            default_block_0: self.default_block_0@,
            default_block_1: self.default_block_1@,
            default_protection_bits: self.default_protection_bits,
            records: record_views(self.records@),
            opaque_tail: self.opaque_tail@,
        }
    }
}

impl Configuration {
    /// Parses a configuration without checking its file stem.
    ///
    /// # Errors
    ///
    /// Returns [`ConfigurationError`] for the first rule that the file breaks.
    pub fn parse(bytes: &[u8]) -> (result: Result<Self, ConfigurationError>)
        ensures
            configuration_result(result, parsed_configuration(bytes@, None)),
    {
        Self::parse_inner(bytes, None)
    }

    /// Parses a configuration and verifies its internal name against the
    /// requested file stem up to ASCII case.
    ///
    /// # Errors
    ///
    /// Returns [`ConfigurationError`] for invalid content or a name mismatch.
    pub fn parse_for_stem(bytes: &[u8], expected_stem: &str) -> (result: Result<
        Self,
        ConfigurationError,
    >)
        ensures
            configuration_result(result, parsed_configuration(bytes@, Some(expected_stem@))),
    {
        Self::parse_inner(bytes, Some(expected_stem))
    }

    fn parse_inner(bytes: &[u8], expected_stem: Option<&str>) -> (result: Result<
        Self,
        ConfigurationError,
    >)
        ensures
            configuration_result(
                result,
                parsed_configuration(
                    bytes@,
                    match expected_stem {
                        Some(stem) => Some(stem@),
                        None => None,
                    },
                ),
            ),
    {
        if bytes.len() < HEADER_BYTES {
            return Err(
                ConfigurationError::TooShort { actual: bytes.len(), minimum: HEADER_BYTES },
            );
        }
        let magic: [u8; 4] = [bytes[0], bytes[1], bytes[2], bytes[3]];
        if magic[0] != 0x43 || magic[1] != 0x46 || magic[2] != 0x47 || magic[3] != 0 {
            proof {
                let expected = seq![0x43u8, 0x46, 0x47, 0x00];
                assert(bytes@.take(4)[0] != expected[0] || bytes@.take(4)[1] != expected[1]
                    || bytes@.take(4)[2] != expected[2] || bytes@.take(4)[3] != expected[3]);
            }
            return Err(ConfigurationError::InvalidMagic { actual: magic });
        }
        assert(bytes@.take(4) =~= seq![0x43u8, 0x46, 0x47, 0x00]);
        let version: u16 = read_u16(bytes, 0x04);
        if version != SUPPORTED_VERSION {
            return Err(ConfigurationError::UnsupportedVersion { actual: version });
        }
        if sfly_crc16(bytes) != 0 {
            return Err(ConfigurationError::CrcResidue);
        }
        let name_bytes: &[u8] = nul_terminated(slice_subrange(bytes, 0x10, 0x20));
        if name_bytes.len() == 0 || !ascii_bytes(name_bytes) {
            return Err(ConfigurationError::InvalidName);
        }
        let name: String = text_of_bytes(name_bytes);
        if let Some(expected) = expected_stem {
            if !eq_ignoring_case(name.as_str(), expected) {
                return Err(
                    ConfigurationError::NameMismatch {
                        expected: expected.to_owned(),
                        actual: name,
                    },
                );
            }
        }
        let (records, records_end) = parse_records(bytes, bytes[0xa1] as usize)?;
        assert(bytes@.subrange(records_end as int, bytes@.len() as int) =~= bytes@.skip(
            records_end as int,
        ));
        Ok(
            Configuration {
                name,
                version,
                default_block_0: to_array(slice_subrange(bytes, 0x20, 0x60)),
                default_block_1: to_array(slice_subrange(bytes, 0x60, 0xa0)),
                default_protection_bits: read_u32(bytes, 0xa4),
                records,
                opaque_tail: to_vec(slice_subrange(bytes, records_end, bytes.len())),
            },
        )
    }

    #[must_use]
    pub fn name(&self) -> (name: &str)
        ensures
            name@ == self@.name,
    {
        self.name.as_str()
    }

    #[must_use]
    pub fn version(&self) -> (version: u16)
        ensures
            version == self@.version,
    {
        self.version
    }

    #[must_use]
    pub fn default_block_0(&self) -> (block: &[u8; DEFAULT_BLOCK_BYTES])
        ensures
            block@ == self@.default_block_0,
    {
        &self.default_block_0
    }

    #[must_use]
    pub fn default_block_1(&self) -> (block: &[u8; DEFAULT_BLOCK_BYTES])
        ensures
            block@ == self@.default_block_1,
    {
        &self.default_block_1
    }

    #[must_use]
    pub fn default_protection_bits(&self) -> (bits: u32)
        ensures
            bits == self@.default_protection_bits,
    {
        self.default_protection_bits
    }

    #[must_use]
    pub fn records(&self) -> (records: &[ConfigurationRecord])
        ensures
            record_views(records@) == self@.records,
    {
        self.records.as_slice()
    }

    /// Returns the bytes after the variable-record sequence, which no schema is
    /// assigned to.
    #[must_use]
    pub fn opaque_tail(&self) -> (tail: &[u8])
        ensures
            tail@ == self@.opaque_tail,
    {
        self.opaque_tail.as_slice()
    }
}

/// Parses the record at an offset.
fn parse_record(bytes: &[u8], index: usize, offset: usize) -> (result: Result<
    ConfigurationRecord,
    ConfigurationError,
>)
    requires
        offset <= bytes@.len(),
    ensures
        match (result, parsed_record(bytes@, index as nat, offset as nat)) {
            (Ok(record), Ok(expected)) => record@ == expected,
            (Err(error), Err(reason)) => error@ == reason,
            _ => false,
        },
{
    if offset > usize::MAX - RECORD_HEADER_BYTES {
        return Err(ConfigurationError::RecordLengthOverflow { index });
    }
    if offset + RECORD_HEADER_BYTES > bytes.len() {
        return Err(ConfigurationError::TruncatedRecord { index, offset });
    }
    let magic: [u8; 4] = [bytes[offset], bytes[offset + 1], bytes[offset + 2], bytes[offset + 3]];
    let ghost found = bytes@.subrange(offset as int, offset + 4);
    if magic[0] != 0x5a || magic[1] != 0x5a || magic[2] != 0xa5 || magic[3] != 0xa5 {
        proof {
            let expected = seq![0x5au8, 0x5a, 0xa5, 0xa5];
            assert(found[0] != expected[0] || found[1] != expected[1] || found[2] != expected[2]
                || found[3] != expected[3]);
        }
        return Err(ConfigurationError::InvalidRecordMagic { index, offset, actual: magic });
    }
    assert(found =~= seq![0x5au8, 0x5a, 0xa5, 0xa5]);
    let length: usize = read_u32(bytes, offset + 4) as usize;
    if length < RECORD_HEADER_BYTES {
        return Err(
            ConfigurationError::InvalidRecordLength {
                index,
                actual: length,
                minimum: RECORD_HEADER_BYTES,
            },
        );
    }
    if offset > usize::MAX - length {
        return Err(ConfigurationError::RecordLengthOverflow { index });
    }
    if offset + length > bytes.len() {
        return Err(ConfigurationError::TruncatedRecord { index, offset });
    }
    let raw: &[u8] = slice_subrange(bytes, offset, offset + length);
    Ok(
        ConfigurationRecord {
            source_index: index,
            source_offset: offset,
            type_flags: raw[0x08],
            unknown_09: raw[0x09],
            text_length_1: read_u16(raw, 0x0a),
            text_length_2: read_u16(raw, 0x0c),
            bit_offset: read_u16(raw, 0x10),
            bit_width_or_count: read_u16(raw, 0x12),
            value_or_default: read_u32(raw, 0x14),
            unknown_18: raw[0x18],
            choice_count: raw[0x19],
            raw: to_vec(raw),
        },
    )
}

/// Parses a number of records and returns where they end.
fn parse_records(bytes: &[u8], record_count: usize) -> (result: Result<
    (Vec<ConfigurationRecord>, usize),
    ConfigurationError,
>)
    requires
        bytes@.len() >= HEADER_BYTES,
    ensures
        match (result, parsed_records(bytes@, record_count as nat)) {
            (Ok((records, end)), Ok((expected, expected_end))) => {
                &&& record_views(records@) == expected
                &&& end == expected_end
                &&& end <= bytes@.len()
            },
            (Err(error), Err(reason)) => error@ == reason,
            _ => false,
        },
{
    let mut records: Vec<ConfigurationRecord> = Vec::new();
    let mut offset: usize = HEADER_BYTES;
    let mut index: usize = 0;
    assert(record_views(records@) =~= Seq::<ConfigurationRecordView>::empty());
    while index < record_count
        invariant
            index <= record_count,
            offset <= bytes@.len(),
            parsed_records(bytes@, index as nat) == Ok::<
                (Seq<ConfigurationRecordView>, nat),
                ConfigurationError<Seq<char>>,
            >((record_views(records@), offset as nat)),
        decreases record_count - index,
    {
        match parse_record(bytes, index, offset) {
            Ok(record) => {
                let ghost before = record_views(records@);
                offset = offset + record.raw.len();
                records.push(record);
                assert(record_views(records@) =~= before.push(record@));
            },
            Err(error) => {
                proof {
                    lemma_record_failure(bytes@, (index + 1) as nat, record_count as nat);
                }
                return Err(error);
            },
        }
        index += 1;
    }
    Ok((records, offset))
}

/// A failure among the first records is the failure of the whole sequence.
proof fn lemma_record_failure(bytes: Seq<u8>, failed: nat, count: nat)
    requires
        failed <= count,
        parsed_records(bytes, failed) is Err,
    ensures
        parsed_records(bytes, count) == parsed_records(bytes, failed),
    decreases count,
{
    if failed < count {
        lemma_record_failure(bytes, failed, (count - 1) as nat);
    }
}

/// The bytes of records, one after the other.
pub open spec fn record_bytes(records: Seq<ConfigurationRecordView>) -> Seq<u8>
    decreases records.len(),
{
    if records.len() == 0 {
        Seq::empty()
    } else {
        record_bytes(records.drop_last()) + records.last().raw
    }
}

/// A record has an index and holds the bytes of a file at its source offset, from
/// which its fields are read.
pub open spec fn stands_in(bytes: Seq<u8>, record: ConfigurationRecordView, index: int) -> bool {
    let start = record.source_offset as int;
    &&& start + record.raw.len() <= bytes.len()
    &&& record == record_fields(
        index as nat,
        record.source_offset,
        bytes.subrange(start, start + record.raw.len()),
    )
}

/// Where a record begins, or where the last one ends: behind the header and the
/// records before it.
pub open spec fn start_of(records: Seq<ConfigurationRecordView>, index: int) -> nat {
    if index <= 0 {
        HEADER_BYTES as nat
    } else {
        records[index - 1].source_offset + records[index - 1].raw.len()
    }
}

proof fn lemma_record_bytes(bytes: Seq<u8>, count: nat)
    requires
        bytes.len() >= HEADER_BYTES,
        parsed_records(bytes, count) is Ok,
    ensures
        ({
            let (records, end) = parsed_records(bytes, count)->Ok_0;
            &&& records.len() == count
            &&& HEADER_BYTES <= end <= bytes.len()
            &&& record_bytes(records) == bytes.subrange(HEADER_BYTES as int, end as int)
        }),
    decreases count,
{
    let (records, end) = parsed_records(bytes, count)->Ok_0;
    if count == 0 {
        assert(bytes.subrange(HEADER_BYTES as int, HEADER_BYTES as int) =~= Seq::<u8>::empty());
    } else {
        lemma_record_bytes(bytes, (count - 1) as nat);
        let (before, start) = parsed_records(bytes, (count - 1) as nat)->Ok_0;
        assert(records.drop_last() =~= before);
        assert(record_bytes(records) =~= bytes.subrange(HEADER_BYTES as int, end as int));
    }
}

/// What a record parses to stands in the file at its offset.
proof fn lemma_record_place(bytes: Seq<u8>, index: nat, offset: nat)
    requires
        parsed_record(bytes, index, offset) is Ok,
    ensures
        ({
            let record = parsed_record(bytes, index, offset)->Ok_0;
            &&& stands_in(bytes, record, index as int)
            &&& record.source_offset == offset
        }),
{
    let record = parsed_record(bytes, index, offset)->Ok_0;
    let at = offset as int;
    assert(record.raw.len() == u32_at(bytes, at + 4));
    assert(bytes.subrange(at, at + record.raw.len()) =~= record.raw);
}

/// Where the first records stand.
proof fn lemma_record_places(bytes: Seq<u8>, count: nat)
    requires
        parsed_records(bytes, count) is Ok,
    ensures
        ({
            let (records, end) = parsed_records(bytes, count)->Ok_0;
            &&& records.len() == count
            &&& forall|i: int| 0 <= i < count ==> stands_in(bytes, #[trigger] records[i], i)
            &&& forall|i: int|
                0 <= i < count ==> records[i].source_offset == #[trigger] start_of(records, i)
            &&& end == start_of(records, count as int)
        }),
    decreases count,
{
    let (records, end) = parsed_records(bytes, count)->Ok_0;
    if count > 0 {
        lemma_record_places(bytes, (count - 1) as nat);
        let (before, start) = parsed_records(bytes, (count - 1) as nat)->Ok_0;
        lemma_record_place(bytes, (count - 1) as nat, start);
        assert(records.drop_last() =~= before);
        assert forall|i: int| 0 <= i < count implies records[i].source_offset
            == #[trigger] start_of(records, i) by {
            if i < count - 1 {
                assert(records[i] == before[i]);
                assert(start_of(records, i) == start_of(before, i));
            }
        }
        assert forall|i: int| 0 <= i < count implies stands_in(bytes, #[trigger] records[i], i) by {
            if i < count - 1 {
                assert(records[i] == before[i]);
            }
        }
    }
}

/// A configuration is lossless: the header, the records in order and the tail
/// make up the whole file, and there are as many records as the header says.
/// Each record holds the bytes of the file at its source offset and reads its
/// fields from them; the first one begins behind the header, every other one
/// where the one before it ends, and the tail where the last one ends.
pub proof fn law_configuration_is_lossless(bytes: Seq<u8>, expected_stem: Option<Seq<char>>)
    requires
        parsed_configuration(bytes, expected_stem) is Ok,
    ensures
        ({
            let configuration = parsed_configuration(bytes, expected_stem)->Ok_0;
            &&& configuration.records.len() == bytes[0xa1]
            &&& bytes.take(HEADER_BYTES as int) + record_bytes(configuration.records)
                + configuration.opaque_tail == bytes
            &&& forall|i: int|
                0 <= i < configuration.records.len() ==> stands_in(
                    bytes,
                    #[trigger] configuration.records[i],
                    i,
                )
            &&& forall|i: int|
                0 <= i < configuration.records.len() ==> configuration.records[i].source_offset
                    == #[trigger] start_of(configuration.records, i)
            &&& configuration.opaque_tail == bytes.skip(
                start_of(configuration.records, configuration.records.len() as int) as int,
            )
        }),
{
    lemma_record_bytes(bytes, bytes[0xa1] as nat);
    lemma_record_places(bytes, bytes[0xa1] as nat);
    let configuration = parsed_configuration(bytes, expected_stem)->Ok_0;
    assert(bytes.take(HEADER_BYTES as int) + record_bytes(configuration.records)
        + configuration.opaque_tail =~= bytes);
}

/// The default blocks of every accepted file are 64 bytes long.
pub proof fn lemma_default_blocks(bytes: Seq<u8>, expected_stem: Option<Seq<char>>)
    requires
        parsed_configuration(bytes, expected_stem) is Ok,
    ensures
        parsed_configuration(bytes, expected_stem)->Ok_0.default_block_0.len()
            == DEFAULT_BLOCK_BYTES,
        parsed_configuration(bytes, expected_stem)->Ok_0.default_block_1.len()
            == DEFAULT_BLOCK_BYTES,
{
}

/// Asking for a file stem only adds a reason for refusal: what is accepted has
/// the requested name and is what is accepted without a request.
pub proof fn law_stem_only_restricts(bytes: Seq<u8>, stem: Seq<char>)
    ensures
        parsed_configuration(bytes, Some(stem)) matches Ok(configuration) ==> parsed_configuration(
            bytes,
            None,
        ) == Ok::<ConfigurationView, ConfigurationError<Seq<char>>>(configuration)
            && same_ignoring_case(configuration.name, stem),
        parsed_configuration(bytes, None) matches Ok(configuration) ==> same_ignoring_case(
            configuration.name,
            stem,
        ) ==> parsed_configuration(bytes, Some(stem)) == Ok::<
            ConfigurationView,
            ConfigurationError<Seq<char>>,
        >(configuration),
{
}

/// Validation failures for a configuration asset.
#[allow(inconsistent_fields)]
#[derive(Debug, Clone, PartialEq, Eq)]
pub enum ConfigurationError<S = String> {
    TooShort { actual: usize, minimum: usize },
    InvalidMagic { actual: [u8; 4] },
    UnsupportedVersion { actual: u16 },
    CrcResidue,
    InvalidName,
    NameMismatch { expected: S, actual: S },
    TruncatedRecord { index: usize, offset: usize },
    RecordLengthOverflow { index: usize },
    InvalidRecordLength { index: usize, actual: usize, minimum: usize },
    InvalidRecordMagic { index: usize, offset: usize, actual: [u8; 4] },
}

impl View for ConfigurationError<String> {
    type V = ConfigurationError<Seq<char>>;

    open spec fn view(&self) -> ConfigurationError<Seq<char>> {
        match *self {
            ConfigurationError::TooShort { actual, minimum } => ConfigurationError::TooShort {
                actual,
                minimum,
            },
            ConfigurationError::InvalidMagic { actual } => ConfigurationError::InvalidMagic {
                actual,
            },
            ConfigurationError::UnsupportedVersion { actual } => {
                ConfigurationError::UnsupportedVersion { actual }
            },
            ConfigurationError::CrcResidue => ConfigurationError::CrcResidue,
            ConfigurationError::InvalidName => ConfigurationError::InvalidName,
            ConfigurationError::NameMismatch { expected, actual } => {
                ConfigurationError::NameMismatch { expected: expected@, actual: actual@ }
            },
            ConfigurationError::TruncatedRecord { index, offset } => {
                ConfigurationError::TruncatedRecord { index, offset }
            },
            ConfigurationError::RecordLengthOverflow { index } => {
                ConfigurationError::RecordLengthOverflow { index }
            },
            ConfigurationError::InvalidRecordLength { index, actual, minimum } => {
                ConfigurationError::InvalidRecordLength { index, actual, minimum }
            },
            ConfigurationError::InvalidRecordMagic { index, offset, actual } => {
                ConfigurationError::InvalidRecordMagic { index, offset, actual }
            },
        }
    }
}

/// Where the contents of an accepted file stand in it: the default blocks, of which
/// the second one is the mask, from offsets 32 and 96 on, the protection bits at
/// offset 164, and the number of records at offset 161.
pub proof fn law_file_layout(bytes: Seq<u8>, expected_stem: Option<Seq<char>>)
    requires
        parsed_configuration(bytes, expected_stem) is Ok,
    ensures
        ({
            let configuration = parsed_configuration(bytes, expected_stem)->Ok_0;
            let name = configuration.name;
            &&& bytes[0] == 0x43 && bytes[1] == 0x46 && bytes[2] == 0x47 && bytes[3] == 0
            &&& configuration.version == 9 && half(bytes, 4) == 9
            &&& forall|i: int|
                0 <= i < 64 ==> #[trigger] configuration.default_block_0[i] == bytes[0x20 + i]
            &&& forall|i: int|
                0 <= i < 64 ==> #[trigger] configuration.default_block_1[i] == bytes[0x60 + i]
            &&& configuration.default_block_0.len() == 64
            &&& configuration.default_block_1.len() == 64
            &&& configuration.default_protection_bits == word(bytes, 0xa4)
            &&& configuration.records.len() == bytes[0xa1]
            &&& sfly_crc(bytes) == 0
            &&& 1 <= name.len() <= 16
            &&& forall|i: int|
                0 <= i < name.len() ==> (#[trigger] bytes[0x10 + i]) != 0 && bytes[0x10 + i]
                    < 0x80 && name[i] == bytes[0x10 + i] as char
            &&& name.len() < 16 ==> bytes[0x10 + name.len() as int] == 0
            &&& expected_stem matches Some(stem) ==> same_ignoring_case(name, stem)
        }),
{
    let configuration = parsed_configuration(bytes, expected_stem)->Ok_0;
    let name = configuration.name;
    law_configuration_is_lossless(bytes, expected_stem);
    law_fields_are_low_byte_first(bytes, 4);
    law_fields_are_low_byte_first(bytes, 0xa4);
    let magic = bytes.take(4);
    let mark = seq![0x43u8, 0x46, 0x47, 0x00];
    assert(magic == mark);
    assert(mark[0] == 0x43 && mark[1] == 0x46 && mark[2] == 0x47 && mark[3] == 0);
    assert(magic[0] == bytes[0] && magic[1] == bytes[1] && magic[2] == bytes[2] && magic[3]
        == bytes[3]);
    let field = bytes.subrange(0x10, 0x20);
    lemma_until_nul_prefix(field);
    let codes = until_nul(field);
    assert forall|i: int| 0 <= i < name.len() implies (#[trigger] bytes[0x10 + i]) != 0
        && bytes[0x10 + i] < 0x80 && name[i] == bytes[0x10 + i] as char by {
        assert(codes[i] == field[i]);
        assert(codes[i] != 0);
        assert(codes[i] < 0x80);
    }
    if name.len() < 16 {
        assert(field[name.len() as int] == bytes[0x10 + name.len() as int]);
    }
}

/// Where the fields of a record stand in its bytes. A record begins with its mark
/// and its own length.
pub proof fn law_record_layout(bytes: Seq<u8>, expected_stem: Option<Seq<char>>, index: int)
    requires
        parsed_configuration(bytes, expected_stem) is Ok,
        0 <= index < parsed_configuration(bytes, expected_stem)->Ok_0.records.len(),
    ensures
        ({
            let record = parsed_configuration(bytes, expected_stem)->Ok_0.records[index];
            let raw = record.raw;
            &&& record.source_index == index
            &&& raw[0] == 0x5a && raw[1] == 0x5a && raw[2] == 0xa5 && raw[3] == 0xa5
            &&& raw.len() == word(raw, 4) && raw.len() >= 28
            &&& record.type_flags == raw[8]
            &&& record.unknown_09 == raw[9]
            &&& record.text_length_1 == half(raw, 10)
            &&& record.text_length_2 == half(raw, 12)
            &&& record.bit_offset == half(raw, 16)
            &&& record.bit_width_or_count == half(raw, 18)
            &&& record.value_or_default == word(raw, 20)
            &&& record.unknown_18 == raw[24]
            &&& record.choice_count == raw[25]
        }),
{
    let configuration = parsed_configuration(bytes, expected_stem)->Ok_0;
    lemma_record_bytes(bytes, bytes[0xa1] as nat);
    lemma_record_origin(bytes, bytes[0xa1] as nat, index);
    let record = configuration.records[index];
    let raw = record.raw;
    law_fields_are_low_byte_first(raw, 4);
    law_fields_are_low_byte_first(raw, 10);
    law_fields_are_low_byte_first(raw, 12);
    law_fields_are_low_byte_first(raw, 16);
    law_fields_are_low_byte_first(raw, 18);
    law_fields_are_low_byte_first(raw, 20);
}

/// Each record is what the bytes at its offset parse to.
proof fn lemma_record_origin(bytes: Seq<u8>, count: nat, index: int)
    requires
        parsed_records(bytes, count) is Ok,
        0 <= index < count,
    ensures
        parsed_records(bytes, count)->Ok_0.0.len() == count,
        ({
            let record = parsed_records(bytes, count)->Ok_0.0[index];
            let raw = record.raw;
            &&& record == record_fields(index as nat, record.source_offset, raw)
            &&& raw.len() == u32_at(raw, 4) && raw.len() >= RECORD_HEADER_BYTES
            &&& raw[0] == 0x5a && raw[1] == 0x5a && raw[2] == 0xa5 && raw[3] == 0xa5
        }),
    decreases count,
{
    lemma_record_count(bytes, count);
    lemma_record_count(bytes, (count - 1) as nat);
    if index < count - 1 {
        lemma_record_origin(bytes, (count - 1) as nat, index);
    } else {
        let start = parsed_records(bytes, (count - 1) as nat)->Ok_0.1;
        lemma_one_record(bytes, (count - 1) as nat, start);
    }
}

proof fn lemma_record_count(bytes: Seq<u8>, count: nat)
    requires
        parsed_records(bytes, count) is Ok,
    ensures
        parsed_records(bytes, count)->Ok_0.0.len() == count,
    decreases count,
{
    if count > 0 {
        lemma_record_count(bytes, (count - 1) as nat);
    }
}

proof fn lemma_one_record(bytes: Seq<u8>, index: nat, offset: nat)
    requires
        parsed_record(bytes, index, offset) is Ok,
    ensures
        ({
            let record = parsed_record(bytes, index, offset)->Ok_0;
            let raw = record.raw;
            &&& record == record_fields(index, record.source_offset, raw)
            &&& raw.len() == u32_at(raw, 4) && raw.len() >= RECORD_HEADER_BYTES
            &&& raw[0] == 0x5a && raw[1] == 0x5a && raw[2] == 0xa5 && raw[3] == 0xa5
        }),
{
    let raw = parsed_record(bytes, index, offset)->Ok_0.raw;
    let at = offset as int;
    let found = bytes.subrange(at, at + 4);
    let mark = seq![0x5au8, 0x5a, 0xa5, 0xa5];
    assert(found == mark);
    assert(mark[0] == 0x5a && mark[1] == 0x5a && mark[2] == 0xa5 && mark[3] == 0xa5);
    assert(found[0] == raw[0] && found[1] == raw[1] && found[2] == raw[2] && found[3] == raw[3]);
    assert(u32_at(raw, 4) == u32_at(bytes, at + 4));
}

} // verus!
