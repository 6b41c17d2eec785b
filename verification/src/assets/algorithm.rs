//! Strict parser for `.alg` files.
//!
//! A file is a clear-text header, an opaque payload, a zero-filled area and a
//! CRC32 over everything before it.

use vstd::prelude::*;
use vstd::slice::slice_subrange;

use super::device_db::{ends_at, holds_name};
use crate::bytes::{
    extend_zeros, half, holds_bcd_timestamp, is_bcd_timestamp, law_fields_are_low_byte_first,
    lemma_changed_word, lemma_until_nul, lemma_until_nul_prefix, nul_terminated, read_u16, read_u32,
    same_bytes, to_vec, u16_at, u32_at, until_nul, word, zeros,
};
use crate::checksum::{crc32, hash, law_a_changed_byte_changes_the_crc32};
use crate::text::{
    ascii_bytes, chars_of_bytes, eq_ignoring_case, is_ascii_bytes, is_ascii_text, lemma_ascii_decodes,
    same_ignoring_case, text_of_bytes, utf8_text,
};

verus! {

/// Size of the clear-text header.
pub const HEADER_BYTES: usize = 0x200;

/// Largest payload that a programmer accepts.
pub const MAX_PAYLOAD_BYTES: usize = 0x4000;

/// Size of the zero-filled area between the payload and the CRC32.
pub const RESERVED_BYTES: usize = 0x0c;

/// Size of the little-endian CRC32 trailer.
pub const CRC32_BYTES: usize = 4;

/// Size of a file whose payload is empty.
pub const MIN_FILE_BYTES: usize = HEADER_BYTES + RESERVED_BYTES + CRC32_BYTES;

/// The contents of an algorithm file.
pub struct AlgorithmView {
    pub name: Seq<char>,
    pub unknown_header_u32: u32,
    pub format_version: u16,
    pub timestamp: Seq<u8>,
    pub region_names: Seq<Seq<char>>,
    pub copyright: Seq<char>,
    pub payload: Seq<u8>,
    pub payload_crc32: u32,
    pub file_crc32: u32,
}

impl AlgorithmView {
    /// What every accepted file guarantees.
    pub open spec fn valid(self) -> bool {
        &&& 1 <= self.name.len() <= 16
        &&& is_ascii_text(self.name)
        &&& forall|i: int| 0 <= i < self.name.len() ==> #[trigger] self.name[i] != '\0'
        &&& is_bcd_timestamp(self.timestamp)
        &&& self.region_names.len() == 3
        &&& 1 <= self.payload.len() <= MAX_PAYLOAD_BYTES
    }
}

/// The payload length that a header declares.
pub open spec fn declared_payload(bytes: Seq<u8>) -> nat {
    u16_at(bytes, 0x08) as nat
}

/// The bytes that the CRC32 trailer covers.
pub open spec fn covered_bytes(bytes: Seq<u8>) -> Seq<u8> {
    bytes.take(bytes.len() - CRC32_BYTES)
}

/// The payload of a file.
pub open spec fn payload_bytes(bytes: Seq<u8>) -> Seq<u8> {
    bytes.subrange(HEADER_BYTES as int, HEADER_BYTES + declared_payload(bytes))
}

/// The zero-filled area of a file.
pub open spec fn reserved_bytes(bytes: Seq<u8>) -> Seq<u8> {
    bytes.subrange(
        HEADER_BYTES + declared_payload(bytes),
        HEADER_BYTES + declared_payload(bytes) + RESERVED_BYTES,
    )
}

/// The name field of a header.
pub open spec fn name_bytes(bytes: Seq<u8>) -> Seq<u8> {
    until_nul(bytes.subrange(0x10, 0x20))
}

/// The UTF-8 text of a NUL-terminated field, if it is valid.
pub open spec fn utf8_field(field: Seq<u8>) -> Option<Seq<char>> {
    if vstd::utf8::valid_utf8(until_nul(field)) {
        Some(vstd::utf8::decode_utf8(until_nul(field)))
    } else {
        None
    }
}

/// What a file parses to, given the name it should have and the CRC32 values of
/// its covered bytes and of its payload. Rules apply in the order of the tests.
pub open spec fn parsed_algorithm(
    bytes: Seq<u8>,
    expected_stem: Option<Seq<char>>,
    file_crc: u32,
    payload_crc: u32,
) -> Result<AlgorithmView, AlgorithmError<Seq<char>>> {
    let declared = declared_payload(bytes);
    let expected_length = HEADER_BYTES + declared + RESERVED_BYTES + CRC32_BYTES;
    let stored = u32_at(bytes, bytes.len() - CRC32_BYTES);
    let name = chars_of_bytes(name_bytes(bytes));
    let timestamp = bytes.subrange(0x20, 0x28);
    let region_0 = utf8_field(bytes.subrange(0x30, 0x70));
    let region_1 = utf8_field(bytes.subrange(0x70, 0xb0));
    let region_2 = utf8_field(bytes.subrange(0xb0, 0xf0));
    let copyright = utf8_field(bytes.subrange(0x180, 0x200));
    if bytes.len() < MIN_FILE_BYTES {
        Err(
            AlgorithmError::TooShort {
                actual: bytes.len() as usize,
                minimum: MIN_FILE_BYTES,
            },
        )
    } else if bytes.take(4) != seq![0x41u8, 0x4c, 0x47, 0x00] {
        Err(AlgorithmError::InvalidMagic { actual: [bytes[0], bytes[1], bytes[2], bytes[3]] })
    } else if declared == 0 || declared > MAX_PAYLOAD_BYTES {
        Err(
            AlgorithmError::InvalidPayloadLength {
                declared: declared as usize,
                maximum: MAX_PAYLOAD_BYTES,
            },
        )
    } else if bytes.len() != expected_length {
        Err(
            AlgorithmError::UnexpectedLength {
                actual: bytes.len() as usize,
                expected: expected_length as usize,
            },
        )
    } else if reserved_bytes(bytes) != zeros(RESERVED_BYTES as nat) {
        Err(AlgorithmError::NonZeroReserved)
    } else if stored != file_crc {
        Err(AlgorithmError::CrcMismatch { stored, computed: file_crc })
    } else if name.len() == 0 || !is_ascii_bytes(name_bytes(bytes)) {
        Err(AlgorithmError::InvalidText { field: "name" })
    } else if expected_stem.is_some() && !same_ignoring_case(name, expected_stem.unwrap()) {
        Err(AlgorithmError::NameMismatch { expected: expected_stem.unwrap(), actual: name })
    } else if !is_bcd_timestamp(timestamp) {
        Err(
            AlgorithmError::InvalidBcdTimestamp {
                actual: [
                    bytes[0x20],
                    bytes[0x21],
                    bytes[0x22],
                    bytes[0x23],
                    bytes[0x24],
                    bytes[0x25],
                    bytes[0x26],
                    bytes[0x27],
                ],
            },
        )
    } else if region_0.is_none() {
        Err(AlgorithmError::InvalidText { field: "region 0" })
    } else if region_1.is_none() {
        Err(AlgorithmError::InvalidText { field: "region 1" })
    } else if region_2.is_none() {
        Err(AlgorithmError::InvalidText { field: "region 2" })
    } else if copyright.is_none() {
        Err(AlgorithmError::InvalidText { field: "copyright" })
    } else {
        Ok(
            AlgorithmView {
                name,
                unknown_header_u32: u32_at(bytes, 0x04),
                format_version: u16_at(bytes, 0x0a),
                timestamp,
                region_names: seq![region_0.unwrap(), region_1.unwrap(), region_2.unwrap()],
                copyright: copyright.unwrap(),
                payload: payload_bytes(bytes),
                payload_crc32: payload_crc,
                file_crc32: stored,
            },
        )
    }
}

/// What a file parses to with its own CRC32 values.
pub open spec fn algorithm_file(bytes: Seq<u8>, expected_stem: Option<Seq<char>>) -> Result<
    AlgorithmView,
    AlgorithmError<Seq<char>>,
> {
    parsed_algorithm(
        bytes,
        expected_stem,
        crc32(covered_bytes(bytes)),
        crc32(payload_bytes(bytes)),
    )
}

/// A result of parsing is the given one.
pub open spec fn algorithm_result(
    result: Result<Algorithm, AlgorithmError>,
    expected: Result<AlgorithmView, AlgorithmError<Seq<char>>>,
) -> bool {
    match (result, expected) {
        (Ok(algorithm), Ok(contents)) => algorithm@ == contents,
        (Err(error), Err(reason)) => error@ == reason,
        _ => false,
    }
}

/// A validated algorithm asset.
///
/// The payload stays opaque: only the programmer interprets it.
#[derive(Debug, PartialEq, Eq)]
pub struct Algorithm {
    name: String,
    unknown_header_u32: u32,
    format_version: u16,
    timestamp: [u8; 8],
    region_names: [String; 3],
    copyright: String,
    payload: Vec<u8>,
    payload_crc32: u32,
    file_crc32: u32,
}

impl View for Algorithm {
    type V = AlgorithmView;

    closed spec fn view(&self) -> AlgorithmView {
        AlgorithmView {
            name: self.name@,
            unknown_header_u32: self.unknown_header_u32,
            format_version: self.format_version,
            timestamp: self.timestamp@,
            region_names: seq![
                self.region_names@[0]@,
                self.region_names@[1]@,
                self.region_names@[2]@,
            ],
            copyright: self.copyright@,
            payload: self.payload@,
            payload_crc32: self.payload_crc32,
            file_crc32: self.file_crc32,
        }
    }
}

impl Clone for Algorithm {
    fn clone(&self) -> (copy: Self)
        ensures
            copy@ == self@,
    {
        proof {
            use_type_invariant(self);
        }
        let region_names: [String; 3] = [
            self.region_names[0].clone(),
            self.region_names[1].clone(),
            self.region_names[2].clone(),
        ];
        let payload: Vec<u8> = to_vec(self.payload.as_slice());
        proof {
            assert(region_names@[0] == self.region_names@[0]);
            assert(region_names@[1] == self.region_names@[1]);
            assert(region_names@[2] == self.region_names@[2]);
        }
        Algorithm {
            name: self.name.clone(),
            unknown_header_u32: self.unknown_header_u32,
            format_version: self.format_version,
            timestamp: self.timestamp,
            region_names,
            copyright: self.copyright.clone(),
            payload,
            payload_crc32: self.payload_crc32,
            file_crc32: self.file_crc32,
        }
    }
}

impl Algorithm {
    #[verifier::type_invariant]
    spec fn holds(self) -> bool {
        self@.valid()
    }

    /// Parses and validates an algorithm without checking its file stem.
    ///
    /// # Errors
    ///
    /// Returns [`AlgorithmError`] for the first rule that the file breaks.
    pub fn parse(bytes: &[u8]) -> (result: Result<Self, AlgorithmError>)
        ensures
            algorithm_result(result, algorithm_file(bytes@, None)),
            result matches Ok(algorithm) ==> algorithm@.valid(),
    {
        proof {
            lemma_accepted_files_are_valid(bytes@, None);
        }
        Self::parse_inner(bytes, None)
    }

    /// Parses an algorithm and verifies that its internal name is the requested
    /// file stem up to ASCII case.
    ///
    /// # Errors
    ///
    /// Returns [`AlgorithmError`] for the first rule that the file breaks.
    pub fn parse_for_stem(bytes: &[u8], expected_stem: &str) -> (result: Result<
        Self,
        AlgorithmError,
    >)
        ensures
            algorithm_result(result, algorithm_file(bytes@, Some(expected_stem@))),
            result matches Ok(algorithm) ==> algorithm@.valid(),
    {
        proof {
            lemma_accepted_files_are_valid(bytes@, Some(expected_stem@));
        }
        Self::parse_inner(bytes, Some(expected_stem))
    }

    fn parse_inner(bytes: &[u8], expected_stem: Option<&str>) -> (result: Result<
        Self,
        AlgorithmError,
    >)
        ensures
            algorithm_result(
                result,
                algorithm_file(
                    bytes@,
                    match expected_stem {
                        Some(stem) => Some(stem@),
                        None => None,
                    },
                ),
            ),
    {
        if bytes.len() < MIN_FILE_BYTES {
            return Self::parse_with_checksums(bytes, expected_stem, 0, 0);
        }
        assert(bytes@.subrange(0, bytes@.len() - CRC32_BYTES) =~= covered_bytes(bytes@));
        let file_crc: u32 = hash(slice_subrange(bytes, 0, bytes.len() - CRC32_BYTES));
        let payload_end: usize = HEADER_BYTES + read_u16(bytes, 0x08) as usize;
        if bytes.len() < payload_end {
            return Self::parse_with_checksums(bytes, expected_stem, file_crc, 0);
        }
        let payload_crc: u32 = hash(slice_subrange(bytes, HEADER_BYTES, payload_end));
        Self::parse_with_checksums(bytes, expected_stem, file_crc, payload_crc)
    }

    /// Parses a file whose CRC32 values are already known: that of the bytes
    /// before the trailer, and that of the payload.
    ///
    /// # Errors
    ///
    /// Returns [`AlgorithmError`] for the first rule that the file breaks.
    #[verifier::rlimit(50)]
    pub fn parse_with_checksums(
        bytes: &[u8],
        expected_stem: Option<&str>,
        file_crc: u32,
        payload_crc: u32,
    ) -> (result: Result<Self, AlgorithmError>)
        ensures
            algorithm_result(
                result,
                parsed_algorithm(
                    bytes@,
                    match expected_stem {
                        Some(stem) => Some(stem@),
                        None => None,
                    },
                    file_crc,
                    payload_crc,
                ),
            ),
    {
        if bytes.len() < MIN_FILE_BYTES {
            return Err(AlgorithmError::TooShort { actual: bytes.len(), minimum: MIN_FILE_BYTES });
        }
        let magic: [u8; 4] = [bytes[0], bytes[1], bytes[2], bytes[3]];
        if magic[0] != 0x41 || magic[1] != 0x4c || magic[2] != 0x47 || magic[3] != 0 {
            proof {
                let expected = seq![0x41u8, 0x4c, 0x47, 0x00];
                assert(bytes@.take(4)[0] != expected[0] || bytes@.take(4)[1] != expected[1]
                    || bytes@.take(4)[2] != expected[2] || bytes@.take(4)[3] != expected[3]);
            }
            return Err(AlgorithmError::InvalidMagic { actual: magic });
        }
        assert(bytes@.take(4) =~= seq![0x41u8, 0x4c, 0x47, 0x00]);
        let payload_length: usize = read_u16(bytes, 0x08) as usize;
        if payload_length == 0 || payload_length > MAX_PAYLOAD_BYTES {
            return Err(
                AlgorithmError::InvalidPayloadLength {
                    declared: payload_length,
                    maximum: MAX_PAYLOAD_BYTES,
                },
            );
        }
        let expected_length: usize = HEADER_BYTES + payload_length + RESERVED_BYTES + CRC32_BYTES;
        if bytes.len() != expected_length {
            return Err(
                AlgorithmError::UnexpectedLength {
                    actual: bytes.len(),
                    expected: expected_length,
                },
            );
        }
        let reserved_start: usize = HEADER_BYTES + payload_length;
        let mut none: Vec<u8> = Vec::new();
        extend_zeros(&mut none, RESERVED_BYTES);
        assert(none@ =~= zeros(RESERVED_BYTES as nat));
        if !same_bytes(
            slice_subrange(bytes, reserved_start, reserved_start + RESERVED_BYTES),
            none.as_slice(),
        ) {
            return Err(AlgorithmError::NonZeroReserved);
        }
        let stored: u32 = read_u32(bytes, bytes.len() - CRC32_BYTES);
        if stored != file_crc {
            return Err(AlgorithmError::CrcMismatch { stored, computed: file_crc });
        }
        let name: String = match parse_ascii_name(slice_subrange(bytes, 0x10, 0x20)) {
            Some(name) => name,
            None => { return Err(AlgorithmError::InvalidText { field: "name" }) },
        };
        if let Some(expected) = expected_stem {
            if !eq_ignoring_case(name.as_str(), expected) {
                return Err(
                    AlgorithmError::NameMismatch { expected: expected.to_owned(), actual: name },
                );
            }
        }
        let timestamp: [u8; 8] = [
            bytes[0x20],
            bytes[0x21],
            bytes[0x22],
            bytes[0x23],
            bytes[0x24],
            bytes[0x25],
            bytes[0x26],
            bytes[0x27],
        ];
        assert(timestamp@ =~= bytes@.subrange(0x20, 0x28));
        if !holds_bcd_timestamp(&timestamp) {
            return Err(AlgorithmError::InvalidBcdTimestamp { actual: timestamp });
        }
        let region_0: String = parse_text(slice_subrange(bytes, 0x30, 0x70), "region 0")?;
        let region_1: String = parse_text(slice_subrange(bytes, 0x70, 0xb0), "region 1")?;
        let region_2: String = parse_text(slice_subrange(bytes, 0xb0, 0xf0), "region 2")?;
        let copyright: String = parse_text(slice_subrange(bytes, 0x180, 0x200), "copyright")?;
        let algorithm = Algorithm {
            name,
            unknown_header_u32: read_u32(bytes, 0x04),
            format_version: read_u16(bytes, 0x0a),
            timestamp,
            region_names: [region_0, region_1, region_2],
            copyright,
            payload: to_vec(slice_subrange(bytes, HEADER_BYTES, HEADER_BYTES + payload_length)),
            payload_crc32: payload_crc,
            file_crc32: stored,
        };
        Ok(algorithm)
    }

    #[must_use]
    pub fn name(&self) -> (name: &str)
        ensures
            name@ == self@.name,
            self@.valid(),
            1 <= name@.len() <= 16,
            is_ascii_text(name@),
    {
        proof {
            use_type_invariant(self);
        }
        self.name.as_str()
    }

    #[must_use]
    pub fn unknown_header_u32(&self) -> (value: u32)
        ensures
            value == self@.unknown_header_u32,
    {
        self.unknown_header_u32
    }

    #[must_use]
    pub fn format_version(&self) -> (version: u16)
        ensures
            version == self@.format_version,
    {
        self.format_version
    }

    #[must_use]
    pub fn timestamp(&self) -> (timestamp: [u8; 8])
        ensures
            timestamp@ == self@.timestamp,
            is_bcd_timestamp(timestamp@),
    {
        proof {
            use_type_invariant(self);
        }
        self.timestamp
    }

    #[must_use]
    pub fn region_names(&self) -> (names: &[String; 3])
        ensures
            self@.region_names == seq![names@[0]@, names@[1]@, names@[2]@],
    {
        &self.region_names
    }

    #[must_use]
    pub fn copyright(&self) -> (copyright: &str)
        ensures
            copyright@ == self@.copyright,
    {
        self.copyright.as_str()
    }

    #[must_use]
    pub fn payload(&self) -> (payload: &[u8])
        ensures
            payload@ == self@.payload,
            1 <= payload@.len() <= MAX_PAYLOAD_BYTES,
    {
        proof {
            use_type_invariant(self);
        }
        self.payload.as_slice()
    }

    #[must_use]
    pub fn payload_crc32(&self) -> (crc: u32)
        ensures
            crc == self@.payload_crc32,
    {
        self.payload_crc32
    }

    #[must_use]
    pub fn file_crc32(&self) -> (crc: u32)
        ensures
            crc == self@.file_crc32,
    {
        self.file_crc32
    }
}

/// The name in a field, if it is neither empty nor outside ASCII.
fn parse_ascii_name(field: &[u8]) -> (name: Option<String>)
    ensures
        name.is_some() <==> until_nul(field@).len() > 0 && is_ascii_bytes(until_nul(field@)),
        name matches Some(text) ==> text@ == chars_of_bytes(until_nul(field@))
            && is_ascii_text(text@) && (forall|i: int|
            0 <= i < text@.len() ==> #[trigger] text@[i] != '\0') && text@.len() <= field@.len(),
{
    let value: &[u8] = nul_terminated(field);
    if value.len() == 0 || !ascii_bytes(value) {
        return None;
    }
    let text: String = text_of_bytes(value);
    proof {
        lemma_until_nul_prefix(field@);
        assert forall|i: int| 0 <= i < text@.len() implies '\0' < #[trigger] text@[i] && text@[i]
            <= '\u{7f}' by {
            assert(text@[i] == value@[i] as char);
            assert(value@[i] != 0);
        }
    }
    Some(text)
}

/// The UTF-8 text of a field.
fn parse_text(field: &[u8], name: &'static str) -> (text: Result<String, AlgorithmError>)
    ensures
        match (text, utf8_field(field@)) {
            (Ok(text), Some(expected)) => text@ == expected,
            (Err(error), None) => error == (AlgorithmError::<String>::InvalidText { field: name }),
            _ => false,
        },
{
    match utf8_text(nul_terminated(field)) {
        Some(text) => Ok(text),
        None => Err(AlgorithmError::InvalidText { field: name }),
    }
}

/// Validation failures for an algorithm asset.
#[allow(inconsistent_fields)]
#[derive(Debug, Clone, PartialEq, Eq)]
pub enum AlgorithmError<S = String> {
    TooShort { actual: usize, minimum: usize },
    InvalidMagic { actual: [u8; 4] },
    InvalidPayloadLength { declared: usize, maximum: usize },
    UnexpectedLength { actual: usize, expected: usize },
    NonZeroReserved,
    CrcMismatch { stored: u32, computed: u32 },
    InvalidText { field: &'static str },
    NameMismatch { expected: S, actual: S },
    InvalidBcdTimestamp { actual: [u8; 8] },
}

impl View for AlgorithmError<String> {
    type V = AlgorithmError<Seq<char>>;

    open spec fn view(&self) -> AlgorithmError<Seq<char>> {
        match *self {
            AlgorithmError::TooShort { actual, minimum } => AlgorithmError::TooShort {
                actual,
                minimum,
            },
            AlgorithmError::InvalidMagic { actual } => AlgorithmError::InvalidMagic { actual },
            AlgorithmError::InvalidPayloadLength { declared, maximum } => {
                AlgorithmError::InvalidPayloadLength { declared, maximum }
            },
            AlgorithmError::UnexpectedLength { actual, expected } => {
                AlgorithmError::UnexpectedLength { actual, expected }
            },
            AlgorithmError::NonZeroReserved => AlgorithmError::NonZeroReserved,
            AlgorithmError::CrcMismatch { stored, computed } => AlgorithmError::CrcMismatch {
                stored,
                computed,
            },
            AlgorithmError::InvalidText { field } => AlgorithmError::InvalidText { field },
            AlgorithmError::NameMismatch { expected, actual } => AlgorithmError::NameMismatch {
                expected: expected@,
                actual: actual@,
            },
            AlgorithmError::InvalidBcdTimestamp { actual } => {
                AlgorithmError::InvalidBcdTimestamp { actual }
            },
        }
    }
}

/// Every accepted file is valid: its name, timestamp and payload keep their
/// bounds.
pub proof fn law_parsed_algorithms_are_valid(
    bytes: Seq<u8>,
    expected_stem: Option<Seq<char>>,
    file_crc: u32,
    payload_crc: u32,
)
    requires
        parsed_algorithm(bytes, expected_stem, file_crc, payload_crc) is Ok,
    ensures
        parsed_algorithm(bytes, expected_stem, file_crc, payload_crc)->Ok_0.valid(),
{
    let algorithm = parsed_algorithm(bytes, expected_stem, file_crc, payload_crc)->Ok_0;
    let field = bytes.subrange(0x10, 0x20);
    let codes = name_bytes(bytes);
    lemma_until_nul_prefix(field);
    assert forall|i: int| 0 <= i < algorithm.name.len() implies '\0' < #[trigger] algorithm.name[i]
        && algorithm.name[i] <= '\u{7f}' by {
        assert(algorithm.name[i] == codes[i] as char);
        assert(codes[i] != 0);
        assert(codes[i] < 0x80);
    }
}

proof fn lemma_accepted_files_are_valid(bytes: Seq<u8>, expected_stem: Option<Seq<char>>)
    ensures
        algorithm_file(bytes, expected_stem) matches Ok(algorithm) ==> algorithm.valid(),
{
    if algorithm_file(bytes, expected_stem) is Ok {
        law_parsed_algorithms_are_valid(
            bytes,
            expected_stem,
            crc32(covered_bytes(bytes)),
            crc32(payload_bytes(bytes)),
        );
    }
}

/// Asking for a file stem only adds a reason for refusal: what is accepted has
/// the requested name and is what is accepted without a request.
pub proof fn law_stem_only_restricts(bytes: Seq<u8>, stem: Seq<char>)
    ensures
        algorithm_file(bytes, Some(stem)) matches Ok(algorithm) ==> algorithm_file(bytes, None)
            == Ok::<AlgorithmView, AlgorithmError<Seq<char>>>(algorithm) && same_ignoring_case(
            algorithm.name,
            stem,
        ),
        algorithm_file(bytes, None) matches Ok(algorithm) ==> same_ignoring_case(
            algorithm.name,
            stem,
        ) ==> algorithm_file(bytes, Some(stem)) == Ok::<AlgorithmView, AlgorithmError<Seq<char>>>(
            algorithm,
        ),
{
}

/// A file whose stored CRC32 is not that of the bytes before it is refused.
pub proof fn law_corrupted_files_are_refused(bytes: Seq<u8>, expected_stem: Option<Seq<char>>)
    requires
        bytes.len() >= MIN_FILE_BYTES,
        u32_at(bytes, bytes.len() - CRC32_BYTES) != crc32(covered_bytes(bytes)),
    ensures
        algorithm_file(bytes, expected_stem) is Err,
{
}

/// An accepted file in which one byte was changed is refused, wherever the byte
/// lies.
#[verifier::rlimit(40)]
pub proof fn law_changed_files_are_refused(
    bytes: Seq<u8>,
    expected_stem: Option<Seq<char>>,
    index: int,
    value: u8,
)
    requires
        algorithm_file(bytes, expected_stem) is Ok,
        0 <= index < bytes.len(),
        value != bytes[index],
    ensures
        algorithm_file(bytes.update(index, value), expected_stem) is Err,
{
    let changed = bytes.update(index, value);
    let end: int = bytes.len() - CRC32_BYTES;
    if index < end {
        law_a_changed_byte_changes_the_crc32(covered_bytes(bytes), index, value);
        assert(covered_bytes(changed) =~= covered_bytes(bytes).update(index, value));
        assert(u32_at(changed, end) == u32_at(bytes, end));
    } else {
        assert(covered_bytes(changed) =~= covered_bytes(bytes));
        lemma_changed_word(bytes, end, index, value);
    }
}

/// Where the contents of an accepted file stand in it. The trailer is the CRC32 of
/// all bytes before it, and the payload has a CRC32 of its own.
#[verifier::rlimit(40)]
pub proof fn law_file_layout(bytes: Seq<u8>, expected_stem: Option<Seq<char>>)
    requires
        algorithm_file(bytes, expected_stem) is Ok,
    ensures
        ({
            let algorithm = algorithm_file(bytes, expected_stem)->Ok_0;
            let size = algorithm.payload.len() as int;
            &&& bytes[0] == 0x41 && bytes[1] == 0x4c && bytes[2] == 0x47 && bytes[3] == 0
            &&& algorithm.unknown_header_u32 == word(bytes, 4)
            &&& size == half(bytes, 8) && 1 <= size <= 0x4000
            &&& algorithm.format_version == half(bytes, 10)
            &&& bytes.len() == 0x210 + size
            &&& forall|i: int| 0 <= i < 8 ==> #[trigger] algorithm.timestamp[i] == bytes[0x20 + i]
            &&& forall|i: int| 0 <= i < size ==> #[trigger] algorithm.payload[i] == bytes[0x200 + i]
            &&& forall|i: int| 0x200 + size <= i < 0x20c + size ==> #[trigger] bytes[i] == 0
            &&& algorithm.file_crc32 == word(bytes, 0x20c + size)
            &&& algorithm.file_crc32 == crc32(bytes.take(0x20c + size))
            &&& algorithm.payload_crc32 == crc32(algorithm.payload)
            &&& 1 <= algorithm.name.len() <= 16
            &&& forall|i: int|
                0 <= i < algorithm.name.len() ==> (#[trigger] bytes[0x10 + i]) != 0
                    && bytes[0x10 + i] < 0x80 && algorithm.name[i] == bytes[0x10 + i] as char
            &&& algorithm.name.len() < 16 ==> bytes[0x10 + algorithm.name.len() as int] == 0
            &&& algorithm.region_names.len() == 3
            &&& expected_stem matches Some(stem) ==> same_ignoring_case(algorithm.name, stem)
        }),
{
    let algorithm = algorithm_file(bytes, expected_stem)->Ok_0;
    let size = algorithm.payload.len() as int;
    law_fields_are_low_byte_first(bytes, 4);
    law_fields_are_low_byte_first(bytes, 8);
    law_fields_are_low_byte_first(bytes, 10);
    law_fields_are_low_byte_first(bytes, 0x20c + size);
    let magic = bytes.take(4);
    let mark = seq![0x41u8, 0x4c, 0x47, 0x00];
    assert(magic == mark);
    assert(mark[0] == 0x41 && mark[1] == 0x4c && mark[2] == 0x47 && mark[3] == 0);
    assert(magic[0] == bytes[0] && magic[1] == bytes[1] && magic[2] == bytes[2] && magic[3]
        == bytes[3]);
    let field = bytes.subrange(0x10, 0x20);
    lemma_until_nul_prefix(field);
    let codes = name_bytes(bytes);
    assert forall|i: int| 0 <= i < algorithm.name.len() implies (#[trigger] bytes[0x10
        + i]) != 0 && bytes[0x10 + i] < 0x80 && algorithm.name[i] == bytes[0x10 + i] as char by {
        assert(codes[i] == field[i]);
        assert(codes[i] != 0);
        assert(codes[i] < 0x80);
    }
    if algorithm.name.len() < 16 {
        assert(field[algorithm.name.len() as int] == bytes[0x10 + algorithm.name.len() as int]);
    }
    let reserved = reserved_bytes(bytes);
    assert forall|i: int| 0x200 + size <= i < 0x20c + size implies #[trigger] bytes[i] == 0 by {
        assert(reserved[i - 0x200 - size] == bytes[i]);
        assert(zeros(RESERVED_BYTES as nat)[i - 0x200 - size] == 0);
    }
    assert(covered_bytes(bytes) == bytes.take(0x20c + size));
    assert(payload_bytes(bytes) == algorithm.payload);
}

/// The region names and the copyright of an accepted file that are ASCII stand in
/// its header as they are, up to the first zero: three regions of 64 bytes from
/// offset 48 on, and the copyright in the last 128 bytes.
#[verifier::rlimit(40)]
pub proof fn law_header_texts(bytes: Seq<u8>, expected_stem: Option<Seq<char>>)
    requires
        algorithm_file(bytes, expected_stem) is Ok,
    ensures
        ({
            let algorithm = algorithm_file(bytes, expected_stem)->Ok_0;
            &&& holds_name(bytes, 0x30, 0x40, algorithm.region_names[0])
            &&& holds_name(bytes, 0x70, 0x40, algorithm.region_names[1])
            &&& holds_name(bytes, 0xb0, 0x40, algorithm.region_names[2])
            &&& holds_name(bytes, 0x180, 0x80, algorithm.copyright)
        }),
{
    lemma_header_text(bytes, 0x30, 0x40);
    lemma_header_text(bytes, 0x70, 0x40);
    lemma_header_text(bytes, 0xb0, 0x40);
    lemma_header_text(bytes, 0x180, 0x80);
}

proof fn lemma_header_text(bytes: Seq<u8>, at: int, capacity: int)
    requires
        0 <= at,
        0 <= capacity,
        at + capacity <= bytes.len(),
    ensures
        utf8_field(bytes.subrange(at, at + capacity)) matches Some(name) ==> holds_name(
            bytes,
            at,
            capacity,
            name,
        ),
{
    let field = bytes.subrange(at, at + capacity);
    if utf8_field(field) is Some {
        let name = utf8_field(field).unwrap();
        assert forall|length: int|
            0 <= length <= capacity && #[trigger] ends_at(bytes, at, capacity, length) && (forall|
                i: int,
            |
                0 <= i < length ==> #[trigger] bytes[at + i] < 0x80) implies name.len() == length
            && (forall|i: int| 0 <= i < length ==> #[trigger] name[i] == bytes[at + i] as char) by {
            assert forall|i: int| 0 <= i < length implies field[i] != 0 by {
                assert(bytes[at + i] != 0);
            }
            assert(length < capacity ==> field[length] == bytes[at + length]);
            lemma_until_nul(field, length);
            let codes = until_nul(field);
            assert forall|i: int| 0 <= i < codes.len() implies #[trigger] codes[i] < 0x80 by {
                assert(codes[i] == bytes[at + i]);
            }
            lemma_ascii_decodes(codes);
            assert forall|i: int| 0 <= i < length implies #[trigger] name[i] == bytes[at
                + i] as char by {
                assert(codes[i] == bytes[at + i]);
            }
        }
    }
}

} // verus!
