//! Lossless parser for the device catalog.
//!
//! A catalog is a header, a table of vendors, a table of devices, and a trailer
//! with a CRC16 and a word that completes a byte sum. Known fields are named
//! while every record remains available as raw bytes.

use vstd::prelude::*;
use vstd::slice::slice_subrange;
use vstd::string::*;

use crate::bytes::{
    half, holds_bcd_timestamp, is_bcd_timestamp, law_fields_are_low_byte_first,
    lemma_until_nul, lemma_until_nul_prefix, nul_terminated, read_u16, read_u32, to_array, u16_at,
    u32_at, until_nul, word,
};
use crate::codepage::{catalog_text, decode_catalog_text};
use crate::text::{
    ascii_bytes, chars_of, chars_of_bytes, decimal, eq_ignoring_case, is_ascii_bytes, occurs,
    occurs_ignoring_case, push_decimal, same_ignoring_case, text_of_bytes,
};

verus! {

pub const HEADER_BYTES: usize = 0x100;

pub const VENDOR_RECORD_BYTES: usize = 0x30;

pub const DEVICE_RECORD_BYTES: usize = 0x90;

pub const TRAILER_BYTES: usize = 4;

/// The only catalog version that is understood.
pub const SUPPORTED_VERSION: u16 = 2;

/// What the bytes of a catalog and its last word add up to.
pub const TRAILER_SUM: u16 = 0x3c5a;

/// The bytes that algorithm and configuration stems are combined with.
pub open spec fn stem_key() -> Seq<u8> {
    seq![
        0xc5u8,
        0xfc,
        0x82,
        0xde,
        0xb1,
        0xf3,
        0xaf,
        0xe3,
        0xbc,
        0xc4,
        0xa2,
        0x99,
        0xb1,
        0xe1,
        0x96,
        0x9c,
    ]
}

/// One shift of the CCITT polynomial division.
pub open spec fn ccitt_shift(crc: u16) -> u16 {
    if crc & 0x8000 == 0 {
        crc << 1
    } else {
        (crc << 1) ^ 0x1021
    }
}

/// A number of shifts of the CCITT polynomial division.
pub open spec fn ccitt_shifts(crc: u16, count: nat) -> u16
    decreases count,
{
    if count == 0 {
        crc
    } else {
        ccitt_shift(ccitt_shifts(crc, (count - 1) as nat))
    }
}

/// The CCITT table entry of a byte.
pub open spec fn ccitt_entry(index: u8) -> u16 {
    ccitt_shifts((index as u16) << 8, 8)
}

/// What one more byte makes of a CRC16.
pub open spec fn sfly_step(crc: u16, byte: u8) -> u16 {
    ((crc << 8) | byte as u16) ^ ccitt_entry((crc >> 8) as u8)
}

/// The CRC16 of catalog and configuration files.
pub open spec fn sfly_crc(bytes: Seq<u8>) -> u16
    decreases bytes.len(),
{
    if bytes.len() == 0 {
        0
    } else {
        sfly_step(sfly_crc(bytes.drop_last()), bytes.last())
    }
}

/// The exclusive or of bytes.
pub open spec fn xor_of(bytes: Seq<u8>) -> u8
    decreases bytes.len(),
{
    if bytes.len() == 0 {
        0
    } else {
        xor_of(bytes.drop_last()) ^ bytes.last()
    }
}

/// The sum of bytes.
pub open spec fn sum_of(bytes: Seq<u8>) -> nat
    decreases bytes.len(),
{
    if bytes.len() == 0 {
        0
    } else {
        sum_of(bytes.drop_last()) + bytes.last() as nat
    }
}

/// The text of a NUL-terminated catalog field.
pub open spec fn text_field(field: Seq<u8>) -> Option<Seq<char>> {
    catalog_text(until_nul(field))
}

/// The bytes of a stem field behind its key.
pub open spec fn stem_bytes(field: Seq<u8>) -> Seq<u8> {
    Seq::new(until_nul(field).len(), |i: int| until_nul(field)[i] ^ stem_key()[i])
}

/// The stem in a field, if it is ASCII.
pub open spec fn stem_field(field: Seq<u8>) -> Option<Seq<char>> {
    if is_ascii_bytes(stem_bytes(field)) {
        Some(chars_of_bytes(stem_bytes(field)))
    } else {
        None
    }
}

/// The contents of a vendor record.
pub struct VendorRecordView {
    pub source_index: nat,
    pub source_offset: nat,
    pub code: Seq<char>,
    pub first_device_index: nat,
    pub device_count: nat,
    pub name: Seq<char>,
    pub raw: Seq<u8>,
}

/// The contents of a device record.
pub struct DeviceRecordView {
    pub source_index: nat,
    pub source_offset: nat,
    pub name: Seq<char>,
    pub vendor_index: nat,
    pub algorithm_stem: Seq<char>,
    pub configuration_stem: Option<Seq<char>>,
    pub raw: Seq<u8>,
}

/// The contents of a catalog.
pub struct DeviceDatabaseView {
    pub version: u16,
    pub internal_file_name: Seq<char>,
    pub timestamp: Seq<u8>,
    pub vendors: Seq<VendorRecordView>,
    pub devices: Seq<DeviceRecordView>,
    pub stored_crc16: u16,
    pub stored_sum_word: u16,
}

impl DeviceDatabaseView {
    /// What every accepted catalog guarantees: its references stay inside it, and
    /// its records are whole.
    pub open spec fn valid(self) -> bool {
        &&& forall|i: int|
            0 <= i < self.devices.len() ==> (#[trigger] self.devices[i]).vendor_index
                < self.vendors.len() && self.devices[i].raw.len() == DEVICE_RECORD_BYTES
        &&& forall|i: int|
            0 <= i < self.vendors.len() ==> (#[trigger] self.vendors[i]).first_device_index
                + self.vendors[i].device_count <= self.devices.len()
        &&& is_bcd_timestamp(self.timestamp)
    }
}

/// Number of vendors that a header declares.
pub open spec fn declared_vendors(bytes: Seq<u8>) -> nat {
    u32_at(bytes, 0x08) as nat
}

/// Number of devices that a header declares.
pub open spec fn declared_devices(bytes: Seq<u8>) -> nat {
    u32_at(bytes, 0x0c) as nat
}

/// Where a vendor record stands.
pub open spec fn vendor_offset(index: nat) -> nat {
    HEADER_BYTES as nat + index * 0x30
}

/// Where a device record stands.
pub open spec fn device_offset(vendors: nat, index: nat) -> nat {
    vendor_offset(vendors) + index * 0x90
}

/// The size of a catalog.
pub open spec fn catalog_length(vendors: nat, devices: nat) -> nat {
    device_offset(vendors, devices) + TRAILER_BYTES as nat
}

/// What the header of a catalog amounts to: the internal file name, or why the
/// header is refused. Rules apply in the order of the tests.
pub open spec fn parsed_header(bytes: Seq<u8>) -> Result<
    Seq<char>,
    DeviceDatabaseError<Seq<char>>,
> {
    let length = catalog_length(declared_vendors(bytes), declared_devices(bytes));
    let name = text_field(bytes.subrange(0x10, 0x20));
    if bytes.len() < HEADER_BYTES + TRAILER_BYTES {
        Err(
            DeviceDatabaseError::TooShort {
                actual: bytes.len() as usize,
                minimum: (HEADER_BYTES + TRAILER_BYTES) as usize,
            },
        )
    } else if bytes.take(4) != seq![0x44u8, 0x45, 0x56, 0x00] {
        Err(DeviceDatabaseError::InvalidMagic { actual: [bytes[0], bytes[1], bytes[2], bytes[3]] })
    } else if xor_of(bytes.take(HEADER_BYTES as int)) != 0 {
        Err(DeviceDatabaseError::HeaderXor { actual: xor_of(bytes.take(HEADER_BYTES as int)) })
    } else if u16_at(bytes, 0x04) != SUPPORTED_VERSION {
        Err(DeviceDatabaseError::UnsupportedVersion { actual: u16_at(bytes, 0x04) })
    } else if !is_bcd_timestamp(bytes.subrange(0x20, 0x28)) {
        Err(
            DeviceDatabaseError::InvalidBcdTimestamp {
                actual: [
                    bytes[0x20],
                    bytes[0x21],
                    bytes[0x22],
                    bytes[0x23],
                    bytes[0x24],
                    bytes[0x25],
                    bytes[0x26],
                    bytes[0x27],
                ],
            },
        )
    } else if length > usize::MAX {
        Err(DeviceDatabaseError::TableSizeOverflow)
    } else if bytes.len() != length {
        Err(
            DeviceDatabaseError::UnexpectedLength {
                actual: bytes.len() as usize,
                expected: length as usize,
            },
        )
    } else if name is None {
        Err(DeviceDatabaseError::InvalidText { field: "internal file name" })
    } else {
        Ok(name.unwrap())
    }
}

/// What the trailer of a catalog amounts to: its two words, or why it is
/// refused.
pub open spec fn parsed_trailer(bytes: Seq<u8>) -> Result<
    (u16, u16),
    DeviceDatabaseError<Seq<char>>,
> {
    let stored = u16_at(bytes, bytes.len() - 4);
    let computed = sfly_crc(bytes.take(bytes.len() - 4));
    let sum_word = u16_at(bytes, bytes.len() - 2);
    let sum = ((sum_of(bytes.take(bytes.len() - 2)) + sum_word as nat) % 0x1_0000) as u16;
    if stored != computed {
        Err(DeviceDatabaseError::CrcMismatch { stored, computed })
    } else if sum != TRAILER_SUM {
        Err(DeviceDatabaseError::SumMismatch { actual: sum, expected: TRAILER_SUM })
    } else {
        Ok((stored, sum_word))
    }
}

/// What one vendor record parses to.
pub open spec fn parsed_vendor(bytes: Seq<u8>, index: nat, devices: nat) -> Result<
    VendorRecordView,
    DeviceDatabaseError<Seq<char>>,
> {
    let offset = vendor_offset(index);
    let raw = bytes.subrange(offset as int, offset + VENDOR_RECORD_BYTES);
    let first = u32_at(raw, 0x04) as nat;
    let count = u32_at(raw, 0x08) as nat;
    let code = text_field(raw.subrange(0x00, 0x04));
    let name = text_field(raw.subrange(0x10, 0x30));
    if first + count > usize::MAX {
        Err(DeviceDatabaseError::TableSizeOverflow)
    } else if first + count > devices {
        Err(
            DeviceDatabaseError::VendorRangeOutOfBounds {
                vendor_index: index as usize,
                first_device_index: first as usize,
                device_count: count as usize,
                catalog_device_count: devices as usize,
            },
        )
    } else if code is None {
        Err(DeviceDatabaseError::InvalidText { field: "vendor code" })
    } else if name is None {
        Err(DeviceDatabaseError::InvalidText { field: "vendor name" })
    } else {
        Ok(
            VendorRecordView {
                source_index: index,
                source_offset: offset,
                code: code.unwrap(),
                first_device_index: first,
                device_count: count,
                name: name.unwrap(),
                raw,
            },
        )
    }
}

/// What the first vendor records parse to, or the first failure among them.
pub open spec fn parsed_vendors(bytes: Seq<u8>, count: nat, devices: nat) -> Result<
    Seq<VendorRecordView>,
    DeviceDatabaseError<Seq<char>>,
>
    decreases count,
{
    if count == 0 {
        Ok(Seq::empty())
    } else {
        match parsed_vendors(bytes, (count - 1) as nat, devices) {
            Err(error) => Err(error),
            Ok(vendors) => match parsed_vendor(bytes, (count - 1) as nat, devices) {
                Err(error) => Err(error),
                Ok(vendor) => Ok(vendors.push(vendor)),
            },
        }
    }
}

/// What one device record parses to.
pub open spec fn parsed_device(bytes: Seq<u8>, vendors: nat, index: nat) -> Result<
    DeviceRecordView,
    DeviceDatabaseError<Seq<char>>,
> {
    let offset = device_offset(vendors, index);
    let raw = bytes.subrange(offset as int, offset + DEVICE_RECORD_BYTES);
    let algorithm = stem_field(raw.subrange(0x50, 0x60));
    let configuration = stem_field(raw.subrange(0x60, 0x70));
    let name = text_field(raw.subrange(0x00, 0x20));
    if raw[0x20] >= vendors {
        Err(
            DeviceDatabaseError::InvalidVendorReference {
                device_index: index as usize,
                vendor_index: raw[0x20] as usize,
                vendor_count: vendors as usize,
            },
        )
    } else if algorithm is None {
        Err(DeviceDatabaseError::InvalidText { field: "algorithm stem" })
    } else if algorithm.unwrap().len() == 0 {
        Err(DeviceDatabaseError::EmptyAlgorithmStem { device_index: index as usize })
    } else if configuration is None {
        Err(DeviceDatabaseError::InvalidText { field: "configuration stem" })
    } else if name is None {
        Err(DeviceDatabaseError::InvalidText { field: "device name" })
    } else {
        Ok(
            DeviceRecordView {
                source_index: index,
                source_offset: offset,
                name: name.unwrap(),
                vendor_index: raw[0x20] as nat,
                algorithm_stem: algorithm.unwrap(),
                configuration_stem: if configuration.unwrap().len() == 0 {
                    None
                } else {
                    configuration
                },
                raw,
            },
        )
    }
}

/// What the first device records parse to, or the first failure among them.
pub open spec fn parsed_devices(bytes: Seq<u8>, vendors: nat, count: nat) -> Result<
    Seq<DeviceRecordView>,
    DeviceDatabaseError<Seq<char>>,
>
    decreases count,
{
    if count == 0 {
        Ok(Seq::empty())
    } else {
        match parsed_devices(bytes, vendors, (count - 1) as nat) {
            Err(error) => Err(error),
            Ok(devices) => match parsed_device(bytes, vendors, (count - 1) as nat) {
                Err(error) => Err(error),
                Ok(device) => Ok(devices.push(device)),
            },
        }
    }
}

/// What a catalog parses to, given the file name that it should carry.
pub open spec fn parsed_database(bytes: Seq<u8>, expected_file_name: Option<Seq<char>>) -> Result<
    DeviceDatabaseView,
    DeviceDatabaseError<Seq<char>>,
> {
    let vendor_count = declared_vendors(bytes);
    let device_count = declared_devices(bytes);
    match parsed_header(bytes) {
        Err(error) => Err(error),
        Ok(name) => if expected_file_name is Some && !same_ignoring_case(
            name,
            expected_file_name.unwrap(),
        ) {
            Err(
                DeviceDatabaseError::FileNameMismatch {
                    expected: expected_file_name.unwrap(),
                    actual: name,
                },
            )
        } else {
            match parsed_trailer(bytes) {
                Err(error) => Err(error),
                Ok((stored_crc16, stored_sum_word)) => match parsed_vendors(
                    bytes,
                    vendor_count,
                    device_count,
                ) {
                    Err(error) => Err(error),
                    Ok(vendors) => match parsed_devices(bytes, vendor_count, device_count) {
                        Err(error) => Err(error),
                        Ok(devices) => Ok(
                            DeviceDatabaseView {
                                version: u16_at(bytes, 0x04),
                                internal_file_name: name,
                                timestamp: bytes.subrange(0x20, 0x28),
                                vendors,
                                devices,
                                stored_crc16,
                                stored_sum_word,
                            },
                        ),
                    },
                },
            }
        },
    }
}

/// A result of parsing is the given one.
pub open spec fn database_result(
    result: Result<DeviceDatabase, DeviceDatabaseError>,
    expected: Result<DeviceDatabaseView, DeviceDatabaseError<Seq<char>>>,
) -> bool {
    match (result, expected) {
        (Ok(database), Ok(contents)) => database@ == contents,
        (Err(error), Err(reason)) => error@ == reason,
        _ => false,
    }
}

/// Failures of catalog validation.
#[allow(inconsistent_fields)]
#[derive(Debug, Clone, PartialEq, Eq)]
pub enum DeviceDatabaseError<S = String> {
    TooShort { actual: usize, minimum: usize },
    InvalidMagic { actual: [u8; 4] },
    HeaderXor { actual: u8 },
    UnsupportedVersion { actual: u16 },
    FileNameMismatch { expected: S, actual: S },
    InvalidBcdTimestamp { actual: [u8; 8] },
    TableSizeOverflow,
    UnexpectedLength { actual: usize, expected: usize },
    CrcMismatch { stored: u16, computed: u16 },
    SumMismatch { actual: u16, expected: u16 },
    VendorRangeOutOfBounds {
        vendor_index: usize,
        first_device_index: usize,
        device_count: usize,
        catalog_device_count: usize,
    },
    InvalidVendorReference { device_index: usize, vendor_index: usize, vendor_count: usize },
    EmptyAlgorithmStem { device_index: usize },
    InvalidText { field: &'static str },
}

impl View for DeviceDatabaseError<String> {
    type V = DeviceDatabaseError<Seq<char>>;

    open spec fn view(&self) -> DeviceDatabaseError<Seq<char>> {
        match *self {
            DeviceDatabaseError::TooShort { actual, minimum } => DeviceDatabaseError::TooShort {
                actual,
                minimum,
            },
            DeviceDatabaseError::InvalidMagic { actual } => DeviceDatabaseError::InvalidMagic {
                actual,
            },
            DeviceDatabaseError::HeaderXor { actual } => DeviceDatabaseError::HeaderXor { actual },
            DeviceDatabaseError::UnsupportedVersion { actual } => {
                DeviceDatabaseError::UnsupportedVersion { actual }
            },
            DeviceDatabaseError::FileNameMismatch { expected, actual } => {
                DeviceDatabaseError::FileNameMismatch { expected: expected@, actual: actual@ }
            },
            DeviceDatabaseError::InvalidBcdTimestamp { actual } => {
                DeviceDatabaseError::InvalidBcdTimestamp { actual }
            },
            DeviceDatabaseError::TableSizeOverflow => DeviceDatabaseError::TableSizeOverflow,
            DeviceDatabaseError::UnexpectedLength { actual, expected } => {
                DeviceDatabaseError::UnexpectedLength { actual, expected }
            },
            DeviceDatabaseError::CrcMismatch { stored, computed } => {
                DeviceDatabaseError::CrcMismatch { stored, computed }
            },
            DeviceDatabaseError::SumMismatch { actual, expected } => {
                DeviceDatabaseError::SumMismatch { actual, expected }
            },
            DeviceDatabaseError::VendorRangeOutOfBounds {
                vendor_index,
                first_device_index,
                device_count,
                catalog_device_count,
            } => DeviceDatabaseError::VendorRangeOutOfBounds {
                vendor_index,
                first_device_index,
                device_count,
                catalog_device_count,
            },
            DeviceDatabaseError::InvalidVendorReference {
                device_index,
                vendor_index,
                vendor_count,
            } => DeviceDatabaseError::InvalidVendorReference {
                device_index,
                vendor_index,
                vendor_count,
            },
            DeviceDatabaseError::EmptyAlgorithmStem { device_index } => {
                DeviceDatabaseError::EmptyAlgorithmStem { device_index }
            },
            DeviceDatabaseError::InvalidText { field } => DeviceDatabaseError::InvalidText {
                field,
            },
        }
    }
}

/// One vendor of a catalog.
#[derive(Debug, PartialEq, Eq)]
pub struct VendorRecord {
    source_index: usize,
    source_offset: usize,
    code: String,
    first_device_index: usize,
    device_count: usize,
    name: String,
    raw: [u8; VENDOR_RECORD_BYTES],
}

impl View for VendorRecord {
    type V = VendorRecordView;

    closed spec fn view(&self) -> VendorRecordView {
        VendorRecordView {
            source_index: self.source_index as nat,
            source_offset: self.source_offset as nat,
            code: self.code@,
            first_device_index: self.first_device_index as nat,
            device_count: self.device_count as nat,
            name: self.name@,
            raw: self.raw@,
        }
    }
}

impl Clone for VendorRecord {
    fn clone(&self) -> (copy: Self)
        ensures
            copy@ == self@,
    {
        VendorRecord {
            source_index: self.source_index,
            source_offset: self.source_offset,
            code: self.code.clone(),
            first_device_index: self.first_device_index,
            device_count: self.device_count,
            name: self.name.clone(),
            raw: self.raw,
        }
    }
}

impl VendorRecord {
    #[must_use]
    pub fn source_index(&self) -> (index: usize)
        ensures
            index == self@.source_index,
    {
        self.source_index
    }

    #[must_use]
    pub fn source_offset(&self) -> (offset: usize)
        ensures
            offset == self@.source_offset,
    {
        self.source_offset
    }

    #[must_use]
    pub fn code(&self) -> (code: &str)
        ensures
            code@ == self@.code,
    {
        self.code.as_str()
    }

    #[must_use]
    pub fn first_device_index(&self) -> (index: usize)
        ensures
            index == self@.first_device_index,
    {
        self.first_device_index
    }

    #[must_use]
    pub fn device_count(&self) -> (count: usize)
        ensures
            count == self@.device_count,
    {
        self.device_count
    }

    #[must_use]
    pub fn name(&self) -> (name: &str)
        ensures
            name@ == self@.name,
    {
        self.name.as_str()
    }

    #[must_use]
    pub fn raw(&self) -> (raw: &[u8; VENDOR_RECORD_BYTES])
        ensures
            raw@ == self@.raw,
    {
        &self.raw
    }
}

/// One device of a catalog.
#[derive(Debug, PartialEq, Eq)]
pub struct DeviceRecord {
    source_index: usize,
    source_offset: usize,
    name: String,
    vendor_index: usize,
    algorithm_stem: String,
    configuration_stem: Option<String>,
    raw: [u8; DEVICE_RECORD_BYTES],
}

impl View for DeviceRecord {
    type V = DeviceRecordView;

    closed spec fn view(&self) -> DeviceRecordView {
        DeviceRecordView {
            source_index: self.source_index as nat,
            source_offset: self.source_offset as nat,
            name: self.name@,
            vendor_index: self.vendor_index as nat,
            algorithm_stem: self.algorithm_stem@,
            configuration_stem: match self.configuration_stem {
                Some(stem) => Some(stem@),
                None => None,
            },
            raw: self.raw@,
        }
    }
}

impl Clone for DeviceRecord {
    fn clone(&self) -> (copy: Self)
        ensures
            copy@ == self@,
    {
        DeviceRecord {
            source_index: self.source_index,
            source_offset: self.source_offset,
            name: self.name.clone(),
            vendor_index: self.vendor_index,
            algorithm_stem: self.algorithm_stem.clone(),
            configuration_stem: match &self.configuration_stem {
                Some(stem) => Some(stem.clone()),
                None => None,
            },
            raw: self.raw,
        }
    }
}

/// One addressable data region described by a device record.
#[derive(Debug, Clone, Copy, PartialEq, Eq, Structural)]
pub struct DeviceRegion {
    start: u32,
    length: u32,
}

impl DeviceRegion {
    /// Where the region begins.
    pub closed spec fn first(self) -> u32 {
        self.start
    }

    /// How many bytes the region has.
    pub closed spec fn extent(self) -> u32 {
        self.length
    }

    #[must_use]
    pub fn start(self) -> (start: u32)
        ensures
            start == self.first(),
    {
        self.start
    }

    #[must_use]
    pub fn length(self) -> (length: u32)
        ensures
            length == self.extent(),
    {
        self.length
    }
}

/// The start and length of a data region, if the device has it.
pub open spec fn region_of(raw: Seq<u8>, index: int) -> Option<(u32, u32)> {
    let (start, length) = if index == 0 {
        (u32_at(raw, 0x34), u32_at(raw, 0x30))
    } else {
        (u32_at(raw, 0x3c), u32_at(raw, 0x38))
    };
    if 0 <= index <= 1 && length != 0 {
        Some((start, length))
    } else {
        None
    }
}

impl DeviceRecord {
    #[must_use]
    pub fn source_index(&self) -> (index: usize)
        ensures
            index == self@.source_index,
    {
        self.source_index
    }

    #[must_use]
    pub fn source_offset(&self) -> (offset: usize)
        ensures
            offset == self@.source_offset,
    {
        self.source_offset
    }

    #[must_use]
    pub fn name(&self) -> (name: &str)
        ensures
            name@ == self@.name,
    {
        self.name.as_str()
    }

    #[must_use]
    pub fn vendor_index(&self) -> (index: usize)
        ensures
            index == self@.vendor_index,
    {
        self.vendor_index
    }

    #[must_use]
    pub fn algorithm_stem(&self) -> (stem: &str)
        ensures
            stem@ == self@.algorithm_stem,
    {
        self.algorithm_stem.as_str()
    }

    #[must_use]
    pub fn configuration_stem(&self) -> (stem: Option<&str>)
        ensures
            match (stem, self@.configuration_stem) {
                (Some(stem), Some(expected)) => stem@ == expected,
                (None, None) => true,
                _ => false,
            },
    {
        match &self.configuration_stem {
            Some(stem) => Some(stem.as_str()),
            None => None,
        }
    }

    #[must_use]
    pub fn raw(&self) -> (raw: &[u8; DEVICE_RECORD_BYTES])
        ensures
            raw@ == self@.raw,
            raw@.len() == DEVICE_RECORD_BYTES,
    {
        &self.raw
    }

    /// Returns one of the two data regions of the record. Zero-length regions
    /// are unavailable.
    #[must_use]
    pub fn data_region(&self, index: usize) -> (region: Option<DeviceRegion>)
        ensures
            match (region, region_of(self@.raw, index as int)) {
                (Some(region), Some((start, length))) => region.first() == start && region.extent()
                    == length,
                (None, None) => true,
                _ => false,
            },
    {
        let raw: &[u8] = &self.raw;
        let (start, length): (u32, u32) = match index {
            0 => (read_u32(raw, 0x34), read_u32(raw, 0x30)),
            1 => (read_u32(raw, 0x3c), read_u32(raw, 0x38)),
            _ => { return None },
        };
        if length != 0 {
            Some(DeviceRegion { start, length })
        } else {
            None
        }
    }
}

/// Computes the CRC16 of catalog and configuration files.
#[must_use]
pub fn sfly_crc16(bytes: &[u8]) -> (crc: u16)
    ensures
        crc == sfly_crc(bytes@),
{
    let mut crc: u16 = 0;
    let mut i: usize = 0;
    while i < bytes.len()
        invariant
            i <= bytes@.len(),
            crc == sfly_crc(bytes@.take(i as int)),
        decreases bytes@.len() - i,
    {
        assert(bytes@.take(i + 1).drop_last() =~= bytes@.take(i as int));
        crc = ((crc << 8) | bytes[i] as u16) ^ ccitt_table_entry((crc >> 8) as u8);
        i += 1;
    }
    assert(bytes@.take(i as int) =~= bytes@);
    crc
}

fn ccitt_table_entry(index: u8) -> (entry: u16)
    ensures
        entry == ccitt_entry(index),
{
    let mut crc: u16 = (index as u16) << 8;
    let mut i: usize = 0;
    while i < 8
        invariant
            i <= 8,
            crc == ccitt_shifts((index as u16) << 8, i as nat),
        decreases 8 - i,
    {
        crc = if crc & 0x8000 == 0 {
            crc << 1
        } else {
            (crc << 1) ^ 0x1021
        };
        i += 1;
    }
    crc
}

/// The exclusive or of bytes.
fn xor_bytes(bytes: &[u8]) -> (value: u8)
    ensures
        value == xor_of(bytes@),
{
    let mut value: u8 = 0;
    let mut i: usize = 0;
    while i < bytes.len()
        invariant
            i <= bytes@.len(),
            value == xor_of(bytes@.take(i as int)),
        decreases bytes@.len() - i,
    {
        assert(bytes@.take(i + 1).drop_last() =~= bytes@.take(i as int));
        value = value ^ bytes[i];
        i += 1;
    }
    assert(bytes@.take(i as int) =~= bytes@);
    value
}

/// The sum of bytes, in sixteen bits.
fn sum_bytes(bytes: &[u8]) -> (value: u16)
    ensures
        value == sum_of(bytes@) % 0x1_0000,
{
    let mut value: u32 = 0;
    let mut i: usize = 0;
    while i < bytes.len()
        invariant
            i <= bytes@.len(),
            value < 0x1_0000,
            value == sum_of(bytes@.take(i as int)) % 0x1_0000,
        decreases bytes@.len() - i,
    {
        assert(bytes@.take(i + 1).drop_last() =~= bytes@.take(i as int));
        value = (value + bytes[i] as u32) % 0x1_0000;
        i += 1;
    }
    assert(bytes@.take(i as int) =~= bytes@);
    value as u16
}

/// The text of a catalog field.
fn decode_text(field: &[u8], name: &'static str) -> (text: Result<String, DeviceDatabaseError>)
    requires
        field@.len() <= 0x100,
    ensures
        match (text, text_field(field@)) {
            (Ok(text), Some(expected)) => text@ == expected,
            (Err(error), None) => error == (DeviceDatabaseError::<String>::InvalidText {
                field: name,
            }),
            _ => false,
        },
{
    proof {
        lemma_until_nul_prefix(field@);
    }
    match decode_catalog_text(nul_terminated(field)) {
        Some(text) => Ok(text),
        None => Err(DeviceDatabaseError::InvalidText { field: name }),
    }
}

/// The stem in a catalog field.
fn decode_stem(field: &[u8], name: &'static str) -> (stem: Result<String, DeviceDatabaseError>)
    requires
        field@.len() == 16,
    ensures
        match (stem, stem_field(field@)) {
            (Ok(stem), Some(expected)) => stem@ == expected,
            (Err(error), None) => error == (DeviceDatabaseError::<String>::InvalidText {
                field: name,
            }),
            _ => false,
        },
{
    let key: [u8; 16] = [
        0xc5,
        0xfc,
        0x82,
        0xde,
        0xb1,
        0xf3,
        0xaf,
        0xe3,
        0xbc,
        0xc4,
        0xa2,
        0x99,
        0xb1,
        0xe1,
        0x96,
        0x9c,
    ];
    proof {
        lemma_until_nul_prefix(field@);
        assert(key@ =~= stem_key());
    }
    let value: &[u8] = nul_terminated(field);
    let mut decoded: Vec<u8> = Vec::new();
    let mut i: usize = 0;
    while i < value.len()
        invariant
            i <= value@.len() <= 16,
            value@ == until_nul(field@),
            key@ == stem_key(),
            decoded@ == stem_bytes(field@).take(i as int),
        decreases value@.len() - i,
    {
        decoded.push(value[i] ^ key[i]);
        i += 1;
        assert(decoded@ =~= stem_bytes(field@).take(i as int));
    }
    assert(decoded@ =~= stem_bytes(field@));
    if !ascii_bytes(decoded.as_slice()) {
        return Err(DeviceDatabaseError::InvalidText { field: name });
    }
    Ok(text_of_bytes(decoded.as_slice()))
}

/// Checks the header and returns the internal file name.
fn parse_header(bytes: &[u8]) -> (result: Result<String, DeviceDatabaseError>)
    ensures
        match (result, parsed_header(bytes@)) {
            (Ok(name), Ok(expected)) => name@ == expected,
            (Err(error), Err(reason)) => error@ == reason,
            _ => false,
        },
{
    if bytes.len() < HEADER_BYTES + TRAILER_BYTES {
        return Err(
            DeviceDatabaseError::TooShort {
                actual: bytes.len(),
                minimum: HEADER_BYTES + TRAILER_BYTES,
            },
        );
    }
    let magic: [u8; 4] = [bytes[0], bytes[1], bytes[2], bytes[3]];
    if magic[0] != 0x44 || magic[1] != 0x45 || magic[2] != 0x56 || magic[3] != 0 {
        proof {
            let expected = seq![0x44u8, 0x45, 0x56, 0x00];
            assert(bytes@.take(4)[0] != expected[0] || bytes@.take(4)[1] != expected[1]
                || bytes@.take(4)[2] != expected[2] || bytes@.take(4)[3] != expected[3]);
        }
        return Err(DeviceDatabaseError::InvalidMagic { actual: magic });
    }
    assert(bytes@.take(4) =~= seq![0x44u8, 0x45, 0x56, 0x00]);
    assert(bytes@.subrange(0, HEADER_BYTES as int) =~= bytes@.take(HEADER_BYTES as int));
    let header_xor: u8 = xor_bytes(slice_subrange(bytes, 0, HEADER_BYTES));
    if header_xor != 0 {
        return Err(DeviceDatabaseError::HeaderXor { actual: header_xor });
    }
    let version: u16 = read_u16(bytes, 0x04);
    if version != SUPPORTED_VERSION {
        return Err(DeviceDatabaseError::UnsupportedVersion { actual: version });
    }
    let timestamp: [u8; 8] = [
        bytes[0x20],
        bytes[0x21],
        bytes[0x22],
        bytes[0x23],
        bytes[0x24],
        bytes[0x25],
        bytes[0x26],
        bytes[0x27],
    ];
    assert(timestamp@ =~= bytes@.subrange(0x20, 0x28));
    if !holds_bcd_timestamp(&timestamp) {
        return Err(DeviceDatabaseError::InvalidBcdTimestamp { actual: timestamp });
    }
    let vendor_count: u64 = read_u32(bytes, 0x08) as u64;
    let device_count: u64 = read_u32(bytes, 0x0c) as u64;
    let length: u64 = 0x100 + vendor_count * 0x30 + device_count * 0x90 + 4;
    if length > usize::MAX as u64 {
        return Err(DeviceDatabaseError::TableSizeOverflow);
    }
    if bytes.len() != length as usize {
        return Err(
            DeviceDatabaseError::UnexpectedLength {
                actual: bytes.len(),
                expected: length as usize,
            },
        );
    }
    decode_text(slice_subrange(bytes, 0x10, 0x20), "internal file name")
}

/// Checks the trailer and returns its two words.
fn validate_trailer(bytes: &[u8]) -> (result: Result<(u16, u16), DeviceDatabaseError>)
    requires
        bytes@.len() >= 4,
    ensures
        match (result, parsed_trailer(bytes@)) {
            (Ok(words), Ok(expected)) => words == expected,
            (Err(error), Err(reason)) => error@ == reason,
            _ => false,
        },
{
    let stored: u16 = read_u16(bytes, bytes.len() - 4);
    assert(bytes@.subrange(0, bytes@.len() - 4) =~= bytes@.take(bytes@.len() - 4));
    assert(bytes@.subrange(0, bytes@.len() - 2) =~= bytes@.take(bytes@.len() - 2));
    let computed: u16 = sfly_crc16(slice_subrange(bytes, 0, bytes.len() - 4));
    if stored != computed {
        return Err(DeviceDatabaseError::CrcMismatch { stored, computed });
    }
    let sum_word: u16 = read_u16(bytes, bytes.len() - 2);
    let byte_sum: u16 = sum_bytes(slice_subrange(bytes, 0, bytes.len() - 2));
    let sum: u16 = ((byte_sum as u32 + sum_word as u32) % 0x1_0000) as u16;
    if sum != TRAILER_SUM {
        return Err(DeviceDatabaseError::SumMismatch { actual: sum, expected: TRAILER_SUM });
    }
    Ok((stored, sum_word))
}

/// Parses one vendor record.
fn parse_vendor(bytes: &[u8], index: usize, device_count: usize) -> (result: Result<
    VendorRecord,
    DeviceDatabaseError,
>)
    requires
        vendor_offset(index as nat) + VENDOR_RECORD_BYTES <= bytes@.len(),
    ensures
        match (result, parsed_vendor(bytes@, index as nat, device_count as nat)) {
            (Ok(vendor), Ok(expected)) => vendor@ == expected,
            (Err(error), Err(reason)) => error@ == reason,
            _ => false,
        },
{
    assert(bytes@.len() == bytes.len());
    let offset: usize = HEADER_BYTES + index * VENDOR_RECORD_BYTES;
    let raw: &[u8] = slice_subrange(bytes, offset, offset + VENDOR_RECORD_BYTES);
    let first: u64 = read_u32(raw, 0x04) as u64;
    let count: u64 = read_u32(raw, 0x08) as u64;
    if first + count > usize::MAX as u64 {
        return Err(DeviceDatabaseError::TableSizeOverflow);
    }
    if first + count > device_count as u64 {
        return Err(
            DeviceDatabaseError::VendorRangeOutOfBounds {
                vendor_index: index,
                first_device_index: first as usize,
                device_count: count as usize,
                catalog_device_count: device_count,
            },
        );
    }
    let code: String = decode_text(slice_subrange(raw, 0x00, 0x04), "vendor code")?;
    let name: String = decode_text(slice_subrange(raw, 0x10, 0x30), "vendor name")?;
    Ok(
        VendorRecord {
            source_index: index,
            source_offset: offset,
            code,
            first_device_index: first as usize,
            device_count: count as usize,
            name,
            raw: to_array(raw),
        },
    )
}

/// Parses one device record.
fn parse_device(bytes: &[u8], vendor_count: usize, index: usize) -> (result: Result<
    DeviceRecord,
    DeviceDatabaseError,
>)
    requires
        device_offset(vendor_count as nat, index as nat) + DEVICE_RECORD_BYTES <= bytes@.len(),
    ensures
        match (result, parsed_device(bytes@, vendor_count as nat, index as nat)) {
            (Ok(device), Ok(expected)) => device@ == expected,
            (Err(error), Err(reason)) => error@ == reason,
            _ => false,
        },
{
    assert(bytes@.len() == bytes.len());
    let offset: usize = HEADER_BYTES + vendor_count * VENDOR_RECORD_BYTES + index
        * DEVICE_RECORD_BYTES;
    let raw: &[u8] = slice_subrange(bytes, offset, offset + DEVICE_RECORD_BYTES);
    let vendor_index: usize = raw[0x20] as usize;
    if vendor_index >= vendor_count {
        return Err(
            DeviceDatabaseError::InvalidVendorReference {
                device_index: index,
                vendor_index,
                vendor_count,
            },
        );
    }
    let algorithm_stem: String = decode_stem(slice_subrange(raw, 0x50, 0x60), "algorithm stem")?;
    if algorithm_stem.as_str().unicode_len() == 0 {
        return Err(DeviceDatabaseError::EmptyAlgorithmStem { device_index: index });
    }
    let configuration: String = decode_stem(slice_subrange(raw, 0x60, 0x70), "configuration stem")?;
    let name: String = decode_text(slice_subrange(raw, 0x00, 0x20), "device name")?;
    let configuration_stem: Option<String> = if configuration.as_str().unicode_len() == 0 {
        None
    } else {
        Some(configuration)
    };
    Ok(
        DeviceRecord {
            source_index: index,
            source_offset: offset,
            name,
            vendor_index,
            algorithm_stem,
            configuration_stem,
            raw: to_array(raw),
        },
    )
}

/// A failure among the first vendors is the failure of the whole table.
proof fn lemma_vendor_failure(bytes: Seq<u8>, failed: nat, count: nat, devices: nat)
    requires
        failed <= count,
        parsed_vendors(bytes, failed, devices) is Err,
    ensures
        parsed_vendors(bytes, count, devices) == parsed_vendors(bytes, failed, devices),
    decreases count,
{
    if failed < count {
        lemma_vendor_failure(bytes, failed, (count - 1) as nat, devices);
    }
}

/// A failure among the first devices is the failure of the whole table.
proof fn lemma_device_failure(bytes: Seq<u8>, failed: nat, count: nat, vendors: nat)
    requires
        failed <= count,
        parsed_devices(bytes, vendors, failed) is Err,
    ensures
        parsed_devices(bytes, vendors, count) == parsed_devices(bytes, vendors, failed),
    decreases count,
{
    if failed < count {
        lemma_device_failure(bytes, failed, (count - 1) as nat, vendors);
    }
}

/// A vendor table holds what its records parse to.
pub proof fn lemma_vendor_table(bytes: Seq<u8>, count: nat, devices: nat)
    requires
        parsed_vendors(bytes, count, devices) is Ok,
    ensures
        parsed_vendors(bytes, count, devices)->Ok_0.len() == count,
        forall|i: int|
            0 <= i < count ==> parsed_vendor(bytes, i as nat, devices) == Ok::<
                VendorRecordView,
                DeviceDatabaseError<Seq<char>>,
            >(#[trigger] parsed_vendors(bytes, count, devices)->Ok_0[i]),
    decreases count,
{
    if count > 0 {
        lemma_vendor_table(bytes, (count - 1) as nat, devices);
    }
}

/// A device table holds what its records parse to.
pub proof fn lemma_device_table(bytes: Seq<u8>, vendors: nat, count: nat)
    requires
        parsed_devices(bytes, vendors, count) is Ok,
    ensures
        parsed_devices(bytes, vendors, count)->Ok_0.len() == count,
        forall|i: int|
            0 <= i < count ==> parsed_device(bytes, vendors, i as nat) == Ok::<
                DeviceRecordView,
                DeviceDatabaseError<Seq<char>>,
            >(#[trigger] parsed_devices(bytes, vendors, count)->Ok_0[i]),
    decreases count,
{
    if count > 0 {
        lemma_device_table(bytes, vendors, (count - 1) as nat);
    }
}

/// The contents of vendor records.
pub open spec fn vendor_views(vendors: Seq<VendorRecord>) -> Seq<VendorRecordView> {
    vendors.map_values(|vendor: VendorRecord| vendor@)
}

/// The contents of device records.
pub open spec fn device_views(devices: Seq<DeviceRecord>) -> Seq<DeviceRecordView> {
    devices.map_values(|device: DeviceRecord| device@)
}

fn parse_vendors(bytes: &[u8], vendor_count: usize, device_count: usize) -> (result: Result<
    Vec<VendorRecord>,
    DeviceDatabaseError,
>)
    requires
        vendor_offset(vendor_count as nat) <= bytes@.len(),
    ensures
        match (result, parsed_vendors(bytes@, vendor_count as nat, device_count as nat)) {
            (Ok(vendors), Ok(expected)) => vendor_views(vendors@) == expected,
            (Err(error), Err(reason)) => error@ == reason,
            _ => false,
        },
{
    let mut vendors: Vec<VendorRecord> = Vec::new();
    let mut index: usize = 0;
    assert(vendor_views(vendors@) =~= Seq::<VendorRecordView>::empty());
    while index < vendor_count
        invariant
            index <= vendor_count,
            vendor_offset(vendor_count as nat) <= bytes@.len(),
            parsed_vendors(bytes@, index as nat, device_count as nat) == Ok::<
                Seq<VendorRecordView>,
                DeviceDatabaseError<Seq<char>>,
            >(vendor_views(vendors@)),
        decreases vendor_count - index,
    {
        let ghost next = parsed_vendors(bytes@, (index + 1) as nat, device_count as nat);
        match parse_vendor(bytes, index, device_count) {
            Ok(vendor) => {
                let ghost before = vendor_views(vendors@);
                vendors.push(vendor);
                assert(vendor_views(vendors@) =~= before.push(vendor@));
            },
            Err(error) => {
                proof {
                    assert(next is Err);
                    lemma_vendor_failure(
                        bytes@,
                        (index + 1) as nat,
                        vendor_count as nat,
                        device_count as nat,
                    );
                }
                return Err(error);
            },
        }
        index += 1;
    }
    Ok(vendors)
}

fn parse_devices(bytes: &[u8], vendor_count: usize, device_count: usize) -> (result: Result<
    Vec<DeviceRecord>,
    DeviceDatabaseError,
>)
    requires
        device_offset(vendor_count as nat, device_count as nat) <= bytes@.len(),
    ensures
        match (result, parsed_devices(bytes@, vendor_count as nat, device_count as nat)) {
            (Ok(devices), Ok(expected)) => device_views(devices@) == expected,
            (Err(error), Err(reason)) => error@ == reason,
            _ => false,
        },
{
    let mut devices: Vec<DeviceRecord> = Vec::new();
    let mut index: usize = 0;
    assert(device_views(devices@) =~= Seq::<DeviceRecordView>::empty());
    while index < device_count
        invariant
            index <= device_count,
            device_offset(vendor_count as nat, device_count as nat) <= bytes@.len(),
            parsed_devices(bytes@, vendor_count as nat, index as nat) == Ok::<
                Seq<DeviceRecordView>,
                DeviceDatabaseError<Seq<char>>,
            >(device_views(devices@)),
        decreases device_count - index,
    {
        let ghost next = parsed_devices(bytes@, vendor_count as nat, (index + 1) as nat);
        match parse_device(bytes, vendor_count, index) {
            Ok(device) => {
                let ghost before = device_views(devices@);
                devices.push(device);
                assert(device_views(devices@) =~= before.push(device@));
            },
            Err(error) => {
                proof {
                    assert(next is Err);
                    lemma_device_failure(
                        bytes@,
                        (index + 1) as nat,
                        device_count as nat,
                        vendor_count as nat,
                    );
                }
                return Err(error);
            },
        }
        index += 1;
    }
    Ok(devices)
}

/// A validated, lossless device catalog.
#[derive(Debug, PartialEq, Eq)]
pub struct DeviceDatabase {
    version: u16,
    internal_file_name: String,
    timestamp: [u8; 8],
    vendors: Vec<VendorRecord>,
    devices: Vec<DeviceRecord>,
    stored_crc16: u16,
    stored_sum_word: u16,
}

impl View for DeviceDatabase {
    type V = DeviceDatabaseView;

    closed spec fn view(&self) -> DeviceDatabaseView {
        DeviceDatabaseView {
            version: self.version,
            internal_file_name: self.internal_file_name@,
            timestamp: self.timestamp@,
            vendors: vendor_views(self.vendors@),
            devices: device_views(self.devices@),
            stored_crc16: self.stored_crc16,
            stored_sum_word: self.stored_sum_word,
        }
    }
}

impl DeviceDatabase {
    #[verifier::type_invariant]
    spec fn holds(self) -> bool {
        self@.valid()
    }

    /// Parses a catalog while preserving all source records.
    ///
    /// # Errors
    ///
    /// Returns [`DeviceDatabaseError`] for the first rule that the header, the
    /// trailer, a vendor or a device breaks.
    pub fn parse(bytes: &[u8]) -> (result: Result<Self, DeviceDatabaseError>)
        ensures
            database_result(result, parsed_database(bytes@, None)),
            result matches Ok(database) ==> database@.valid(),
    {
        Self::parse_inner(bytes, None)
    }

    /// Parses a catalog and checks the internal file name against the source
    /// file name up to ASCII case.
    ///
    /// # Errors
    ///
    /// Returns [`DeviceDatabaseError`] for invalid content or a name mismatch.
    pub fn parse_for_file_name(bytes: &[u8], expected_file_name: &str) -> (result: Result<
        Self,
        DeviceDatabaseError,
    >)
        ensures
            database_result(result, parsed_database(bytes@, Some(expected_file_name@))),
            result matches Ok(database) ==> database@.valid(),
    {
        Self::parse_inner(bytes, Some(expected_file_name))
    }

    fn parse_inner(bytes: &[u8], expected_file_name: Option<&str>) -> (result: Result<
        Self,
        DeviceDatabaseError,
    >)
        ensures
            database_result(
                result,
                parsed_database(
                    bytes@,
                    match expected_file_name {
                        Some(name) => Some(name@),
                        None => None,
                    },
                ),
            ),
            result matches Ok(database) ==> database@.valid(),
    {
        let internal_file_name: String = parse_header(bytes)?;
        if let Some(expected) = expected_file_name {
            if !eq_ignoring_case(internal_file_name.as_str(), expected) {
                return Err(
                    DeviceDatabaseError::FileNameMismatch {
                        expected: expected.to_owned(),
                        actual: internal_file_name,
                    },
                );
            }
        }
        let (stored_crc16, stored_sum_word) = validate_trailer(bytes)?;
        let vendor_count: usize = read_u32(bytes, 0x08) as usize;
        let device_count: usize = read_u32(bytes, 0x0c) as usize;
        let vendors: Vec<VendorRecord> = parse_vendors(bytes, vendor_count, device_count)?;
        let devices: Vec<DeviceRecord> = parse_devices(bytes, vendor_count, device_count)?;
        proof {
            lemma_vendor_table(bytes@, vendor_count as nat, device_count as nat);
            lemma_device_table(bytes@, vendor_count as nat, device_count as nat);
            assert(bytes@.subrange(0x20, 0x28).len() == 8);
        }
        let timestamp: [u8; 8] = to_array(slice_subrange(bytes, 0x20, 0x28));
        let version: u16 = read_u16(bytes, 0x04);
        Ok(
            DeviceDatabase {
                version,
                internal_file_name,
                timestamp,
                vendors,
                devices,
                stored_crc16,
                stored_sum_word,
            },
        )
    }

    #[must_use]
    pub fn version(&self) -> (version: u16)
        ensures
            version == self@.version,
    {
        self.version
    }

    #[must_use]
    pub fn internal_file_name(&self) -> (name: &str)
        ensures
            name@ == self@.internal_file_name,
    {
        self.internal_file_name.as_str()
    }

    #[must_use]
    pub fn timestamp(&self) -> (timestamp: [u8; 8])
        ensures
            timestamp@ == self@.timestamp,
    {
        self.timestamp
    }

    #[must_use]
    pub fn vendors(&self) -> (vendors: &[VendorRecord])
        ensures
            vendor_views(vendors@) == self@.vendors,
            self@.valid(),
    {
        proof {
            use_type_invariant(self);
        }
        self.vendors.as_slice()
    }

    #[must_use]
    pub fn devices(&self) -> (devices: &[DeviceRecord])
        ensures
            device_views(devices@) == self@.devices,
            self@.valid(),
    {
        proof {
            use_type_invariant(self);
        }
        self.devices.as_slice()
    }

    #[must_use]
    pub fn stored_crc16(&self) -> (crc: u16)
        ensures
            crc == self@.stored_crc16,
    {
        self.stored_crc16
    }

    #[must_use]
    pub fn stored_sum_word(&self) -> (word: u16)
        ensures
            word == self@.stored_sum_word,
    {
        self.stored_sum_word
    }

    /// Finds device records by a text that occurs in the device or vendor name up
    /// to ASCII case, in catalog order.
    #[must_use]
    #[verifier::rlimit(50)]
    pub fn find_devices<'a>(&'a self, query: &str) -> (found: Vec<&'a DeviceRecord>)
        ensures
            referenced_views(found@) == self@.devices.filter(
                |device: DeviceRecordView| is_found_by(self@, device, query@),
            ),
    {
        proof {
            use_type_invariant(self);
        }
        let ghost keeps = |device: DeviceRecordView| is_found_by(self@, device, query@);
        let needle: Vec<char> = chars_of(query);
        let mut found: Vec<&'a DeviceRecord> = Vec::new();
        let mut i: usize = 0;
        proof {
            assert(self@.devices.take(0) =~= Seq::<DeviceRecordView>::empty());
            reveal(Seq::filter);
            assert(referenced_views(found@) =~= self@.devices.take(0).filter(keeps));
        }
        while i < self.devices.len()
            invariant
                i <= self.devices@.len(),
                self@.valid(),
                needle@ == query@,
                keeps == (|device: DeviceRecordView| is_found_by(self@, device, query@)),
                referenced_views(found@) == self@.devices.take(i as int).filter(keeps),
            decreases self.devices@.len() - i,
        {
            let device: &'a DeviceRecord = &self.devices[i];
            assert(self@.devices[i as int] == device@);
            let vendor: &'a VendorRecord = &self.vendors[device.vendor_index];
            let matching: bool = occurs(needle.as_slice(), chars_of(device.name()).as_slice())
                || occurs(needle.as_slice(), chars_of(vendor.name()).as_slice());
            assert(self@.vendors[device.vendor_index as int] == vendor@);
            let ghost before = found@;
            if matching {
                found.push(device);
                assert(referenced_views(found@) =~= referenced_views(before).push(device@));
            }
            i += 1;
            proof {
                lemma_filter_step(self@.devices, i as int, keeps);
            }
        }
        proof {
            assert(self@.devices.take(i as int) =~= self@.devices);
        }
        found
    }

    /// Resolves one device by exact part name and an optional vendor name or
    /// code, all up to ASCII case.
    ///
    /// # Errors
    ///
    /// Returns [`DeviceSelectionError`] if no matching record exists or the
    /// selection is ambiguous.
    #[verifier::rlimit(50)]
    pub fn select_device<'a>(&'a self, device_name: &str, vendor: Option<&str>) -> (result: Result<
        DeviceSelection<'a>,
        DeviceSelectionError,
    >)
        ensures
            selection_outcome(
                self@,
                device_name@,
                match vendor {
                    Some(name) => Some(name@),
                    None => None,
                },
                result,
            ),
    {
        proof {
            use_type_invariant(self);
        }
        let ghost requested = match vendor {
            Some(name) => Some(name@),
            None => None,
        };
        let ghost keeps = |device: DeviceRecordView|
            is_selected_by(self@, device, device_name@, requested);
        let mut found: Vec<&'a DeviceRecord> = Vec::new();
        let mut i: usize = 0;
        proof {
            assert(self@.devices.take(0) =~= Seq::<DeviceRecordView>::empty());
            reveal(Seq::filter);
            assert(referenced_views(found@) =~= self@.devices.take(0).filter(keeps));
        }
        while i < self.devices.len()
            invariant
                i <= self.devices@.len(),
                self@.valid(),
                requested == match vendor {
                    Some(name) => Some(name@),
                    None => None,
                },
                keeps == (|device: DeviceRecordView|
                    is_selected_by(self@, device, device_name@, requested)),
                referenced_views(found@) == self@.devices.take(i as int).filter(keeps),
                forall|j: int|
                    0 <= j < found@.len() ==> (#[trigger] found@[j]).vendor_index
                        < self.vendors@.len(),
            decreases self.devices@.len() - i,
        {
            let device: &'a DeviceRecord = &self.devices[i];
            assert(self@.devices[i as int] == device@);
            let owner: &'a VendorRecord = &self.vendors[device.vendor_index];
            assert(self@.vendors[device.vendor_index as int] == owner@);
            let matching: bool = eq_ignoring_case(device.name(), device_name) && match vendor {
                Some(name) => eq_ignoring_case(owner.name(), name) || eq_ignoring_case(
                    owner.code(),
                    name,
                ),
                None => true,
            };
            let ghost before = found@;
            if matching {
                found.push(device);
                assert(referenced_views(found@) =~= referenced_views(before).push(device@));
            }
            i += 1;
            proof {
                lemma_filter_step(self@.devices, i as int, keeps);
            }
        }
        let ghost matches = self@.devices.filter(keeps);
        proof {
            assert(self@.devices.take(i as int) =~= self@.devices);
            assert(referenced_views(found@) == matches);
        }
        if found.len() == 0 {
            return Err(
                DeviceSelectionError::NotFound {
                    device: device_name.to_owned(),
                    vendor: match vendor {
                        Some(name) => Some(name.to_owned()),
                        None => None,
                    },
                },
            );
        }
        if found.len() == 1 {
            let device: &'a DeviceRecord = found[0];
            assert(matches[0] == device@);
            let owner: &'a VendorRecord = &self.vendors[device.vendor_index];
            assert(self@.vendors[device.vendor_index as int] == owner@);
            return Ok(DeviceSelection { device, vendor: owner });
        }
        let mut candidates: Vec<String> = Vec::new();
        let mut j: usize = 0;
        while j < found.len()
            invariant
                j <= found@.len(),
                self@.valid(),
                referenced_views(found@) == matches,
                candidates@.len() == j,
                forall|k: int|
                    0 <= k < found@.len() ==> (#[trigger] found@[k]).vendor_index
                        < self.vendors@.len(),
                forall|k: int|
                    0 <= k < j ==> (#[trigger] candidates@[k])@ == candidate_text(
                        self@,
                        matches[k],
                    ),
            decreases found@.len() - j,
        {
            let device: &'a DeviceRecord = found[j];
            assert(matches[j as int] == device@);
            let owner: &'a VendorRecord = &self.vendors[device.vendor_index];
            assert(self@.vendors[device.vendor_index as int] == owner@);
            candidates.push(describe_candidate(owner, device));
            j += 1;
        }
        Err(DeviceSelectionError::Ambiguous { device: device_name.to_owned(), candidates })
    }
}

impl Clone for DeviceDatabase {
    fn clone(&self) -> (copy: Self)
        ensures
            copy@ == self@,
    {
        proof {
            use_type_invariant(self);
        }
        let mut vendors: Vec<VendorRecord> = Vec::new();
        let mut i: usize = 0;
        while i < self.vendors.len()
            invariant
                i <= self.vendors@.len(),
                vendor_views(vendors@) == vendor_views(self.vendors@).take(i as int),
            decreases self.vendors@.len() - i,
        {
            let ghost before = vendor_views(vendors@);
            let vendor = self.vendors[i].clone();
            vendors.push(vendor);
            i += 1;
            proof {
                assert(vendor@ == vendor_views(self.vendors@)[i - 1]);
                assert(vendor_views(vendors@) =~= before.push(vendor@));
                assert(vendor_views(vendors@) =~= vendor_views(self.vendors@).take(i as int));
            }
        }
        assert(vendor_views(vendors@) =~= vendor_views(self.vendors@));
        let mut devices: Vec<DeviceRecord> = Vec::new();
        let mut j: usize = 0;
        while j < self.devices.len()
            invariant
                j <= self.devices@.len(),
                device_views(devices@) == device_views(self.devices@).take(j as int),
            decreases self.devices@.len() - j,
        {
            let ghost before = device_views(devices@);
            let device = self.devices[j].clone();
            devices.push(device);
            j += 1;
            proof {
                assert(device@ == device_views(self.devices@)[j - 1]);
                assert(device_views(devices@) =~= before.push(device@));
                assert(device_views(devices@) =~= device_views(self.devices@).take(j as int));
            }
        }
        assert(device_views(devices@) =~= device_views(self.devices@));
        DeviceDatabase {
            version: self.version,
            internal_file_name: self.internal_file_name.clone(),
            timestamp: self.timestamp,
            vendors,
            devices,
            stored_crc16: self.stored_crc16,
            stored_sum_word: self.stored_sum_word,
        }
    }
}

/// The contents of records that are referred to.
pub open spec fn referenced_views(devices: Seq<&DeviceRecord>) -> Seq<DeviceRecordView> {
    devices.map_values(|device: &DeviceRecord| device@)
}

/// A query occurs in the name of a device or of its vendor.
pub open spec fn is_found_by(
    database: DeviceDatabaseView,
    device: DeviceRecordView,
    query: Seq<char>,
) -> bool {
    ||| occurs_ignoring_case(query, device.name)
    ||| occurs_ignoring_case(query, database.vendors[device.vendor_index as int].name)
}

/// A device has the requested name, and its vendor the requested name or code.
pub open spec fn is_selected_by(
    database: DeviceDatabaseView,
    device: DeviceRecordView,
    name: Seq<char>,
    vendor: Option<Seq<char>>,
) -> bool {
    let owner = database.vendors[device.vendor_index as int];
    &&& same_ignoring_case(device.name, name)
    &&& match vendor {
        Some(requested) => same_ignoring_case(owner.name, requested) || same_ignoring_case(
            owner.code,
            requested,
        ),
        None => true,
    }
}

/// What a selection returns: the only device that is meant, or that there is none or
/// more than one.
pub open spec fn selection_outcome(
    database: DeviceDatabaseView,
    device_name: Seq<char>,
    requested: Option<Seq<char>>,
    result: Result<DeviceSelection<'_>, DeviceSelectionError>,
) -> bool {
    let matches = database.devices.filter(
        |device: DeviceRecordView| is_selected_by(database, device, device_name, requested),
    );
    match result {
        Ok(selection) => {
            &&& matches.len() == 1
            &&& selection.selected() == matches[0]
            &&& matches[0].vendor_index < database.vendors.len()
            &&& selection.owner() == database.vendors[matches[0].vendor_index as int]
        },
        Err(DeviceSelectionError::NotFound { device, vendor: missing }) => {
            &&& matches.len() == 0
            &&& device@ == device_name
            &&& match (missing, requested) {
                (Some(name), Some(expected)) => name@ == expected,
                (None, None) => true,
                _ => false,
            }
        },
        Err(DeviceSelectionError::Ambiguous { device, candidates }) => {
            &&& matches.len() > 1
            &&& device@ == device_name
            &&& candidates@.len() == matches.len()
            &&& forall|i: int|
                0 <= i < matches.len() ==> (#[trigger] candidates@[i])@ == candidate_text(
                    database,
                    matches[i],
                )
        },
    }
}

/// How an ambiguous candidate is described: vendor, device and record number.
pub open spec fn candidate_text(
    database: DeviceDatabaseView,
    device: DeviceRecordView,
) -> Seq<char> {
    database.vendors[device.vendor_index as int].name + seq![' '] + device.name + " (record "@
        + decimal(device.source_index) + seq![')']
}

fn describe_candidate(vendor: &VendorRecord, device: &DeviceRecord) -> (text: String)
    ensures
        text@ == vendor@.name + seq![' '] + device@.name + " (record "@ + decimal(
            device@.source_index,
        ) + seq![')'],
{
    let mut text: String = vendor.name().to_owned();
    text.push(' ');
    text.append(device.name());
    text.append(" (record ");
    push_decimal(&mut text, device.source_index() as u64);
    text.push(')');
    assert(text@ =~= vendor@.name + seq![' '] + device@.name + " (record "@ + decimal(
        device@.source_index,
    ) + seq![')']);
    text
}

proof fn lemma_filter_step(
    devices: Seq<DeviceRecordView>,
    length: int,
    keeps: spec_fn(DeviceRecordView) -> bool,
)
    requires
        0 < length <= devices.len(),
    ensures
        devices.take(length).filter(keeps) == if keeps(devices[length - 1]) {
            devices.take(length - 1).filter(keeps).push(devices[length - 1])
        } else {
            devices.take(length - 1).filter(keeps)
        },
{
    reveal(Seq::filter);
    assert(devices.take(length).drop_last() =~= devices.take(length - 1));
}

/// A uniquely selected device record and its owning vendor.
#[derive(Debug, Clone, Copy, PartialEq, Eq)]
pub struct DeviceSelection<'a> {
    device: &'a DeviceRecord,
    vendor: &'a VendorRecord,
}

impl<'a> DeviceSelection<'a> {
    /// The selected device.
    pub closed spec fn selected(self) -> DeviceRecordView {
        self.device@
    }

    /// The vendor of the selected device.
    pub closed spec fn owner(self) -> VendorRecordView {
        self.vendor@
    }

    #[must_use]
    pub fn device(self) -> (device: &'a DeviceRecord)
        ensures
            device@ == self.selected(),
    {
        self.device
    }

    #[must_use]
    pub fn vendor(self) -> (vendor: &'a VendorRecord)
        ensures
            vendor@ == self.owner(),
    {
        self.vendor
    }
}

/// Failures while resolving a device selection.
#[derive(Debug, Clone, PartialEq, Eq)]
pub enum DeviceSelectionError {
    NotFound { device: String, vendor: Option<String> },
    Ambiguous { device: String, candidates: Vec<String> },
}

/// Any bytes can be completed by two bytes so that the CRC16 of the whole is
/// zero: the bytes of the CRC16 that two zeros in their place would give, most
/// significant first.
pub proof fn law_crc16_residue_suffix(bytes: Seq<u8>)
    ensures
        ({
            let crc = sfly_crc(bytes.push(0).push(0));
            sfly_crc(bytes.push((crc >> 8) as u8).push((crc & 0xff) as u8)) == 0
        }),
{
    let start = sfly_crc(bytes);
    let crc = sfly_crc(bytes.push(0).push(0));
    let high: u8 = (crc >> 8) as u8;
    let low: u8 = (crc & 0xff) as u8;
    lemma_crc_push(bytes, 0);
    lemma_crc_push(bytes.push(0), 0);
    lemma_crc_push(bytes, high);
    lemma_crc_push(bytes.push(high), low);
    let first = ccitt_entry((start >> 8) as u8);
    let plain: u16 = ((start << 8) | 0u16) ^ first;
    let mixed: u16 = ((start << 8) | high as u16) ^ first;
    assert((mixed >> 8) as u8 == (plain >> 8) as u8 && mixed == plain ^ (high as u16)) by (bit_vector)
        requires
            plain == ((start << 8) | 0u16) ^ first,
            mixed == ((start << 8) | high as u16) ^ first,
    ;
    let second = ccitt_entry((plain >> 8) as u8);
    assert(((mixed << 8) | low as u16) ^ second == 0) by (bit_vector)
        requires
            mixed == plain ^ (high as u16),
            crc == ((plain << 8) | 0u16) ^ second,
            high == (crc >> 8) as u8,
            low == (crc & 0xff) as u8,
    ;
}

proof fn lemma_crc_push(bytes: Seq<u8>, byte: u8)
    ensures
        sfly_crc(bytes.push(byte)) == sfly_step(sfly_crc(bytes), byte),
{
    assert(bytes.push(byte).drop_last() =~= bytes);
}

/// A catalog is lossless: each record holds the bytes of the file at its source
/// offset, record after record, so that header, vendors, devices and trailer
/// make up the whole file.
pub proof fn law_catalog_is_lossless(bytes: Seq<u8>, expected_file_name: Option<Seq<char>>)
    requires
        parsed_database(bytes, expected_file_name) is Ok,
    ensures
        ({
            let database = parsed_database(bytes, expected_file_name)->Ok_0;
            let vendors = database.vendors;
            let devices = database.devices;
            &&& bytes.len() == catalog_length(vendors.len(), devices.len())
            &&& forall|i: int|
                0 <= i < vendors.len() ==> (#[trigger] vendors[i]).source_index == i
                    && vendors[i].source_offset == vendor_offset(i as nat) && vendors[i].raw
                    == bytes.subrange(
                    vendor_offset(i as nat) as int,
                    vendor_offset(i as nat) + VENDOR_RECORD_BYTES,
                )
            &&& forall|i: int|
                0 <= i < devices.len() ==> (#[trigger] devices[i]).source_index == i
                    && devices[i].source_offset == device_offset(vendors.len(), i as nat)
                    && devices[i].raw == bytes.subrange(
                    device_offset(vendors.len(), i as nat) as int,
                    device_offset(vendors.len(), i as nat) + DEVICE_RECORD_BYTES,
                )
        }),
{
    lemma_vendor_table(bytes, declared_vendors(bytes), declared_devices(bytes));
    lemma_device_table(bytes, declared_vendors(bytes), declared_devices(bytes));
    let database = parsed_database(bytes, expected_file_name)->Ok_0;
    assert forall|i: int| 0 <= i < database.vendors.len() implies (
    #[trigger] database.vendors[i]).source_index == i && database.vendors[i].source_offset
        == vendor_offset(i as nat) && database.vendors[i].raw == bytes.subrange(
        vendor_offset(i as nat) as int,
        vendor_offset(i as nat) + VENDOR_RECORD_BYTES,
    ) by {
        assert(parsed_vendor(bytes, i as nat, declared_devices(bytes)) == Ok::<
            VendorRecordView,
            DeviceDatabaseError<Seq<char>>,
        >(database.vendors[i]));
    }
    assert forall|i: int| 0 <= i < database.devices.len() implies (
    #[trigger] database.devices[i]).source_index == i && database.devices[i].source_offset
        == device_offset(database.vendors.len(), i as nat) && database.devices[i].raw
        == bytes.subrange(
        device_offset(database.vendors.len(), i as nat) as int,
        device_offset(database.vendors.len(), i as nat) + DEVICE_RECORD_BYTES,
    ) by {
        assert(parsed_device(bytes, declared_vendors(bytes), i as nat) == Ok::<
            DeviceRecordView,
            DeviceDatabaseError<Seq<char>>,
        >(database.devices[i]));
    }
}

/// Asking for a file name only adds a reason for refusal: what is accepted has
/// the requested name and is what is accepted without a request.
pub proof fn law_file_name_only_restricts(bytes: Seq<u8>, name: Seq<char>)
    ensures
        parsed_database(bytes, Some(name)) matches Ok(database) ==> parsed_database(bytes, None)
            == Ok::<DeviceDatabaseView, DeviceDatabaseError<Seq<char>>>(database)
            && same_ignoring_case(database.internal_file_name, name),
        parsed_database(bytes, None) matches Ok(database) ==> same_ignoring_case(
            database.internal_file_name,
            name,
        ) ==> parsed_database(bytes, Some(name)) == Ok::<
            DeviceDatabaseView,
            DeviceDatabaseError<Seq<char>>,
        >(database),
{
}

/// Each record of a catalog stands at its place and reads its fields from its own
/// bytes: a vendor its range of devices from offsets 4 and 8, a device the number
/// of its vendor from offset 32. That number is the index of a vendor in the file.
#[verifier::rlimit(40)]
pub proof fn law_records_read_their_own_fields(
    bytes: Seq<u8>,
    expected_file_name: Option<Seq<char>>,
)
    requires
        parsed_database(bytes, expected_file_name) is Ok,
    ensures
        ({
            let database = parsed_database(bytes, expected_file_name)->Ok_0;
            let vendors = database.vendors;
            let devices = database.devices;
            &&& vendors.len() == word(bytes, 8)
            &&& devices.len() == word(bytes, 12)
            &&& bytes.len() == 0x104 + 0x30 * vendors.len() + 0x90 * devices.len()
            &&& database.version == 2 && half(bytes, 4) == 2
            &&& database.timestamp == bytes.subrange(0x20, 0x28)
            &&& database.stored_crc16 == half(bytes, bytes.len() - 4)
            &&& database.stored_sum_word == half(bytes, bytes.len() - 2)
            &&& forall|i: int|
                #![trigger vendors[i]]
                0 <= i < vendors.len() ==> {
                    let at = 0x100 + 0x30 * i;
                    &&& vendors[i].source_index == i
                    &&& vendors[i].source_offset == at
                    &&& vendors[i].raw == bytes.subrange(at, at + 0x30)
                    &&& vendors[i].first_device_index == word(vendors[i].raw, 4)
                    &&& vendors[i].device_count == word(vendors[i].raw, 8)
                    &&& vendors[i].first_device_index + vendors[i].device_count <= devices.len()
                }
            &&& forall|i: int|
                #![trigger devices[i]]
                0 <= i < devices.len() ==> {
                    let at = 0x100 + 0x30 * vendors.len() + 0x90 * i;
                    &&& devices[i].source_index == i
                    &&& devices[i].source_offset == at
                    &&& devices[i].raw == bytes.subrange(at, at + 0x90)
                    &&& devices[i].vendor_index == devices[i].raw[0x20]
                    &&& devices[i].raw[0x20] < vendors.len()
                    &&& devices[i].algorithm_stem.len() > 0
                }
        }),
{
    law_catalog_is_lossless(bytes, expected_file_name);
    let database = parsed_database(bytes, expected_file_name)->Ok_0;
    let vendors = database.vendors;
    let devices = database.devices;
    lemma_vendor_table(bytes, declared_vendors(bytes), declared_devices(bytes));
    lemma_device_table(bytes, declared_vendors(bytes), declared_devices(bytes));
    law_fields_are_low_byte_first(bytes, 4);
    law_fields_are_low_byte_first(bytes, 8);
    law_fields_are_low_byte_first(bytes, 12);
    assert forall|i: int|
        #![trigger vendors[i]]
        0 <= i < vendors.len() implies {
        let at = 0x100 + 0x30 * i;
        &&& vendors[i].source_index == i
        &&& vendors[i].source_offset == at
        &&& vendors[i].raw == bytes.subrange(at, at + 0x30)
        &&& vendors[i].first_device_index == word(vendors[i].raw, 4)
        &&& vendors[i].device_count == word(vendors[i].raw, 8)
        &&& vendors[i].first_device_index + vendors[i].device_count <= devices.len()
    } by {
        assert(parsed_vendor(bytes, i as nat, declared_devices(bytes)) == Ok::<
            VendorRecordView,
            DeviceDatabaseError<Seq<char>>,
        >(vendors[i]));
        law_fields_are_low_byte_first(vendors[i].raw, 4);
        law_fields_are_low_byte_first(vendors[i].raw, 8);
    }
    assert forall|i: int|
        #![trigger devices[i]]
        0 <= i < devices.len() implies {
        let at = 0x100 + 0x30 * vendors.len() + 0x90 * i;
        &&& devices[i].source_index == i
        &&& devices[i].source_offset == at
        &&& devices[i].raw == bytes.subrange(at, at + 0x90)
        &&& devices[i].vendor_index == devices[i].raw[0x20]
        &&& devices[i].raw[0x20] < vendors.len()
        &&& devices[i].algorithm_stem.len() > 0
    } by {
        assert(parsed_device(bytes, declared_vendors(bytes), i as nat) == Ok::<
            DeviceRecordView,
            DeviceDatabaseError<Seq<char>>,
        >(devices[i]));
    }
}

/// A device has a name up to case, and its vendor, which is the one with the number
/// at offset 32 of its record, the requested name or code.
pub open spec fn is_meant(
    database: DeviceDatabaseView,
    index: int,
    name: Seq<char>,
    vendor: Option<Seq<char>>,
) -> bool {
    let device = database.devices[index];
    &&& same_ignoring_case(device.name, name)
    &&& vendor matches Some(requested) ==> exists|owner: int|
        0 <= owner < database.vendors.len() && (#[trigger] database.vendors[owner]).source_index
            == device.raw[0x20] && (same_ignoring_case(database.vendors[owner].name, requested)
            || same_ignoring_case(database.vendors[owner].code, requested))
}

/// A selected device is one of the catalog that is meant by the request, comes with
/// the vendor whose number its record holds, and is the only one that is meant.
/// Where none is returned for want of a device, none is meant.
#[verifier::rlimit(40)]
pub proof fn law_selections_are_unique(
    bytes: Seq<u8>,
    file_name: Option<Seq<char>>,
    name: Seq<char>,
    vendor: Option<Seq<char>>,
    result: Result<DeviceSelection<'_>, DeviceSelectionError>,
    other: int,
)
    requires
        parsed_database(bytes, file_name) is Ok,
        selection_outcome(parsed_database(bytes, file_name)->Ok_0, name, vendor, result),
        0 <= other < parsed_database(bytes, file_name)->Ok_0.devices.len(),
    ensures
        ({
            let database = parsed_database(bytes, file_name)->Ok_0;
            match result {
                Ok(selection) => {
                    let index = selection.selected().source_index as int;
                    &&& 0 <= index < database.devices.len()
                    &&& selection.selected() == database.devices[index]
                    &&& is_meant(database, index, name, vendor)
                    &&& database.vendors.contains(selection.owner())
                    &&& selection.owner().source_index == selection.selected().raw[0x20]
                    &&& is_meant(database, other, name, vendor) ==> other == index
                },
                Err(DeviceSelectionError::NotFound { .. }) => !is_meant(
                    database,
                    other,
                    name,
                    vendor,
                ),
                Err(DeviceSelectionError::Ambiguous { candidates, .. }) => candidates@.len() > 1,
            }
        }),
{
    let database = parsed_database(bytes, file_name)->Ok_0;
    let devices = database.devices;
    let keeps = |device: DeviceRecordView| is_selected_by(database, device, name, vendor);
    let matches = devices.filter(keeps);
    law_records_read_their_own_fields(bytes, file_name);
    assert forall|i: int| 0 <= i < devices.len() implies (keeps(#[trigger] devices[i]) <==> is_meant(
        database,
        i,
        name,
        vendor,
    )) by {
        let at = devices[i].raw[0x20] as int;
        assert(database.vendors[at].source_index == at);
        if is_meant(database, i, name, vendor) && vendor is Some {
            let owner = choose|owner: int|
                0 <= owner < database.vendors.len() && (
                #[trigger] database.vendors[owner]).source_index == devices[i].raw[0x20] && (
                same_ignoring_case(database.vendors[owner].name, vendor.unwrap())
                    || same_ignoring_case(database.vendors[owner].code, vendor.unwrap()));
            assert(database.vendors[owner].source_index == owner);
        }
    }
    if is_meant(database, other, name, vendor) {
        devices.lemma_filter_contains(keeps, other);
        assert(matches.contains(devices[other]));
    }
    if result is Ok {
        let chosen = matches[0];
        assert(matches.contains(chosen));
        devices.lemma_filter_contains_rev(keeps, chosen);
        devices.lemma_filter_pred(keeps, 0);
        let index = choose|index: int| 0 <= index < devices.len() && devices[index] == chosen;
        assert(devices[index].source_index == index);
        if is_meant(database, other, name, vendor) {
            let k = choose|k: int| 0 <= k < matches.len() && matches[k] == devices[other];
            assert(k == 0);
            assert(devices[other].source_index == other);
        }
        assert(database.vendors[chosen.raw[0x20] as int].source_index == chosen.raw[0x20]);
    }
}

/// A search finds a device if and only if the query occurs, up to case, in its name
/// or in that of the vendor whose number its record holds. What is found stands in
/// the order of the catalog, each device once.
#[verifier::rlimit(40)]
pub proof fn law_searches_find_by_either_name(
    bytes: Seq<u8>,
    file_name: Option<Seq<char>>,
    query: Seq<char>,
    index: int,
)
    requires
        parsed_database(bytes, file_name) is Ok,
        0 <= index < parsed_database(bytes, file_name)->Ok_0.devices.len(),
    ensures
        ({
            let database = parsed_database(bytes, file_name)->Ok_0;
            let found = database.devices.filter(
                |device: DeviceRecordView| is_found_by(database, device, query),
            );
            &&& found.contains(database.devices[index]) <==> occurs_ignoring_case(
                query,
                database.devices[index].name,
            ) || exists|owner: int|
                0 <= owner < database.vendors.len() && (
                #[trigger] database.vendors[owner]).source_index
                    == database.devices[index].raw[0x20] && occurs_ignoring_case(
                    query,
                    database.vendors[owner].name,
                )
            &&& forall|i: int, j: int|
                0 <= i < j < found.len() ==> (#[trigger] found[i]).source_index < (
                #[trigger] found[j]).source_index
            &&& forall|i: int|
                0 <= i < found.len() ==> database.devices.contains(#[trigger] found[i])
        }),
{
    let database = parsed_database(bytes, file_name)->Ok_0;
    let devices = database.devices;
    let keeps = |device: DeviceRecordView| is_found_by(database, device, query);
    let found = devices.filter(keeps);
    law_records_read_their_own_fields(bytes, file_name);
    let device = devices[index];
    let at = device.raw[0x20] as int;
    assert(database.vendors[at].source_index == at);
    if keeps(device) {
        devices.lemma_filter_contains(keeps, index);
    }
    if found.contains(device) {
        devices.lemma_filter_contains_rev(keeps, device);
        let k = choose|k: int| 0 <= k < found.len() && found[k] == device;
        devices.lemma_filter_pred(keeps, k);
    }
    if exists|owner: int|
        0 <= owner < database.vendors.len() && (#[trigger] database.vendors[owner]).source_index
            == device.raw[0x20] && occurs_ignoring_case(query, database.vendors[owner].name) {
        let owner = choose|owner: int|
            0 <= owner < database.vendors.len() && (
            #[trigger] database.vendors[owner]).source_index == device.raw[0x20]
                && occurs_ignoring_case(query, database.vendors[owner].name);
        assert(database.vendors[owner].source_index == owner);
    }
    assert forall|i: int| 0 <= i < found.len() implies devices.contains(#[trigger] found[i]) by {
        assert(found.contains(found[i]));
        devices.lemma_filter_contains_rev(keeps, found[i]);
    }
    lemma_filtered_order(devices, keeps);
}

proof fn lemma_filtered_order(
    devices: Seq<DeviceRecordView>,
    keeps: spec_fn(DeviceRecordView) -> bool,
)
    requires
        forall|i: int| 0 <= i < devices.len() ==> (#[trigger] devices[i]).source_index == i,
    ensures
        forall|i: int|
            0 <= i < devices.filter(keeps).len() ==> (
            #[trigger] devices.filter(keeps)[i]).source_index < devices.len(),
        forall|i: int, j: int|
            0 <= i < j < devices.filter(keeps).len() ==> (
            #[trigger] devices.filter(keeps)[i]).source_index < (
            #[trigger] devices.filter(keeps)[j]).source_index,
    decreases devices.len(),
{
    reveal(Seq::filter);
    if devices.len() > 0 {
        let shorter = devices.drop_last();
        assert forall|i: int| 0 <= i < shorter.len() implies (#[trigger] shorter[i]).source_index
            == i by {
            assert(shorter[i] == devices[i]);
        }
        lemma_filtered_order(shorter, keeps);
        assert(devices.last().source_index == devices.len() - 1);
    }
}

/// The names of a record are read from its bytes. A name that is ASCII stands in its
/// field as it is, up to the first zero: that of a vendor from offset 16 on and its
/// code from offset 0 on, that of a device from offset 0 on.
#[verifier::rlimit(40)]
pub proof fn law_names_stand_in_their_records(
    bytes: Seq<u8>,
    file_name: Option<Seq<char>>,
    index: int,
)
    requires
        parsed_database(bytes, file_name) is Ok,
    ensures
        ({
            let database = parsed_database(bytes, file_name)->Ok_0;
            &&& 0 <= index < database.devices.len() ==> {
                let device = database.devices[index];
                &&& holds_name(device.raw, 0, 0x20, device.name)
                &&& holds_stem(device.raw, 0x50, device.algorithm_stem)
                &&& match device.configuration_stem {
                    Some(stem) => stem.len() > 0 && holds_stem(device.raw, 0x60, stem),
                    None => device.raw[0x60] == 0,
                }
            }
            &&& 0 <= index < database.vendors.len() ==> {
                let vendor = database.vendors[index];
                &&& holds_name(vendor.raw, 0x10, 0x20, vendor.name)
                &&& holds_name(vendor.raw, 0, 4, vendor.code)
            }
        }),
{
    let database = parsed_database(bytes, file_name)->Ok_0;
    law_catalog_is_lossless(bytes, file_name);
    lemma_vendor_table(bytes, declared_vendors(bytes), declared_devices(bytes));
    lemma_device_table(bytes, declared_vendors(bytes), declared_devices(bytes));
    if 0 <= index < database.devices.len() {
        let device = database.devices[index];
        assert(parsed_device(bytes, declared_vendors(bytes), index as nat) == Ok::<
            DeviceRecordView,
            DeviceDatabaseError<Seq<char>>,
        >(device));
        lemma_name_field(device.raw, 0, 0x20);
        lemma_stem_field(device.raw, 0x50);
        lemma_stem_field(device.raw, 0x60);
    }
    if 0 <= index < database.vendors.len() {
        let vendor = database.vendors[index];
        assert(parsed_vendor(bytes, index as nat, declared_devices(bytes)) == Ok::<
            VendorRecordView,
            DeviceDatabaseError<Seq<char>>,
        >(vendor));
        lemma_name_field(vendor.raw, 0x10, 0x20);
        lemma_name_field(vendor.raw, 0, 4);
    }
}

/// A field whose bytes before the first zero are ASCII holds a name as it is.
pub open spec fn holds_name(raw: Seq<u8>, at: int, capacity: int, name: Seq<char>) -> bool {
    forall|length: int|
        0 <= length <= capacity && #[trigger] ends_at(raw, at, capacity, length) && (forall|i: int|
            0 <= i < length ==> #[trigger] raw[at + i] < 0x80) ==> name.len() == length && (forall|
            i: int,
        |
            0 <= i < length ==> #[trigger] name[i] == raw[at + i] as char)
}

/// The first zero of a field, or its end.
pub open spec fn ends_at(raw: Seq<u8>, at: int, capacity: int, length: int) -> bool {
    &&& forall|i: int| 0 <= i < length ==> #[trigger] raw[at + i] != 0
    &&& length < capacity ==> raw[at + length] == 0
}

/// A field of sixteen bytes holds a stem: each of its letters, combined with the key
/// byte at its place, stands in the field, up to the first zero.
pub open spec fn holds_stem(raw: Seq<u8>, at: int, stem: Seq<char>) -> bool {
    &&& stem.len() <= 16
    &&& ends_at(raw, at, 16, stem.len() as int)
    &&& forall|i: int|
        0 <= i < stem.len() ==> (#[trigger] stem[i]) as u8 ^ stem_key()[i] == raw[at + i]
            && stem[i] as int <= 0x7f
}

proof fn lemma_name_field(raw: Seq<u8>, at: int, capacity: int)
    requires
        0 <= at,
        0 <= capacity,
        at + capacity <= raw.len(),
    ensures
        text_field(raw.subrange(at, at + capacity)) matches Some(name) ==> holds_name(
            raw,
            at,
            capacity,
            name,
        ),
{
    let field = raw.subrange(at, at + capacity);
    if text_field(field) is Some {
        let name = text_field(field).unwrap();
        assert forall|length: int|
            0 <= length <= capacity && #[trigger] ends_at(raw, at, capacity, length) && (forall|
                i: int,
            |
                0 <= i < length ==> #[trigger] raw[at + i] < 0x80) implies name.len() == length && (
        forall|i: int| 0 <= i < length ==> #[trigger] name[i] == raw[at + i] as char) by {
            assert forall|i: int| 0 <= i < length implies field[i] != 0 by {
                assert(raw[at + i] != 0);
            }
            assert(length < capacity ==> field[length] == raw[at + length]);
            lemma_until_nul(field, length);
            let codes = until_nul(field);
            assert forall|i: int| 0 <= i < codes.len() implies #[trigger] codes[i] < 0x80 by {
                assert(codes[i] == raw[at + i]);
            }
            lemma_ascii_catalog_text(codes);
            assert forall|i: int| 0 <= i < length implies #[trigger] name[i] == raw[at
                + i] as char by {
                assert(codes[i] == raw[at + i]);
            }
        }
    }
}

/// ASCII bytes are their own text.
proof fn lemma_ascii_catalog_text(codes: Seq<u8>)
    requires
        is_ascii_bytes(codes),
    ensures
        catalog_text(codes) == Some(chars_of_bytes(codes)),
    decreases codes.len(),
{
    crate::text::lemma_ascii_decodes(codes);
}

proof fn lemma_stem_field(raw: Seq<u8>, at: int)
    requires
        0 <= at,
        at + 16 <= raw.len(),
    ensures
        stem_field(raw.subrange(at, at + 16)) matches Some(stem) ==> {
            &&& holds_stem(raw, at, stem)
            &&& stem.len() == 0 <==> raw[at] == 0
        },
{
    let field = raw.subrange(at, at + 16);
    lemma_until_nul_prefix(field);
    let codes = until_nul(field);
    if stem_field(field) is Some {
        let stem = stem_field(field).unwrap();
        let plain = stem_bytes(field);
        assert forall|i: int| 0 <= i < stem.len() implies (#[trigger] stem[i]) as u8 ^ stem_key()[i]
            == raw[at + i] && stem[i] as int <= 0x7f by {
            let a = codes[i];
            let k = stem_key()[i];
            assert(plain[i] < 0x80);
            assert(stem[i] as u8 == plain[i]);
            assert((a ^ k) ^ k == a) by (bit_vector);
            assert(codes[i] == field[i]);
        }
        assert forall|i: int| 0 <= i < stem.len() implies #[trigger] raw[at + i] != 0 by {
            assert(codes[i] != 0);
            assert(codes[i] == field[i]);
        }
        if stem.len() < 16 {
            assert(field[stem.len() as int] == raw[at + stem.len()]);
        }
        assert(field[0] == raw[at]);
    }
}

/// A device has its two data regions where their lengths, at offsets 48 and 56, are
/// not zero; their starts stand behind them at offsets 52 and 60. There is no third.
pub proof fn law_data_regions(raw: Seq<u8>, index: int)
    requires
        raw.len() == 0x90,
    ensures
        match region_of(raw, index) {
            Some((start, length)) => {
                &&& index == 0 || index == 1
                &&& length > 0
                &&& index == 0 ==> start == word(raw, 52) && length == word(raw, 48)
                &&& index == 1 ==> start == word(raw, 60) && length == word(raw, 56)
            },
            None => (index == 0 ==> word(raw, 48) == 0) && (index == 1 ==> word(raw, 56) == 0),
        },
{
    law_fields_are_low_byte_first(raw, 48);
    law_fields_are_low_byte_first(raw, 52);
    law_fields_are_low_byte_first(raw, 56);
    law_fields_are_low_byte_first(raw, 60);
}

/// A catalog that is accepted has a header whose bytes cancel each other out, a CRC16
/// over all but its last four bytes, and bytes that, together with its last word, add
/// up to 0x3c5a in sixteen bits.
pub proof fn law_accepted_catalogs(bytes: Seq<u8>, expected_file_name: Option<Seq<char>>)
    requires
        parsed_database(bytes, expected_file_name) is Ok,
    ensures
        bytes[0] == 0x44 && bytes[1] == 0x45 && bytes[2] == 0x56 && bytes[3] == 0,
        xor_of(bytes.take(0x100)) == 0,
        sfly_crc(bytes.take(bytes.len() - 4)) == half(bytes, bytes.len() - 4),
        (sum_of(bytes.take(bytes.len() - 2)) + half(bytes, bytes.len() - 2)) % 0x1_0000 == 0x3c5a,
{
    law_fields_are_low_byte_first(bytes, bytes.len() - 4);
    law_fields_are_low_byte_first(bytes, bytes.len() - 2);
    let magic = bytes.take(4);
    let mark = seq![0x44u8, 0x45, 0x56, 0x00];
    assert(magic == mark);
    assert(mark[0] == 0x44 && mark[1] == 0x45 && mark[2] == 0x56 && mark[3] == 0);
    assert(magic[0] == bytes[0] && magic[1] == bytes[1] && magic[2] == bytes[2] && magic[3]
        == bytes[3]);
}

} // verus!
