//! Deterministic construction of the 2048-byte device parameter image.
//!
//! Runtime profile fields without a known name are identified by their source
//! offsets.

use core::ops::Range;

use vstd::prelude::*;
use vstd::slice::slice_subrange;
use vstd::string::*;

use crate::assets::algorithm::{Algorithm, AlgorithmView};
use crate::assets::configuration::{Configuration, ConfigurationView};
use crate::assets::device_db::{region_of, DeviceRecord, DeviceRecordView, DEVICE_RECORD_BYTES};
use crate::assets::package_map::{PackageRecord, PackageRecordView};
use crate::bytes::{
    all_bcd, extend, extend_u16, extend_u32, extend_zeros, holds_bcd, is_bcd, le16, le32,
    lemma_le16_reads_back, lemma_le32_reads_back, lemma_until_nul, read_u16, read_u32, to_array,
    u16_at, u32_at, zeros,
};
use crate::checksum::{crc32, hash};
use crate::codepage::{encode_gbk, gbk_encoded, law_ascii_is_encoded_verbatim};
use crate::protocol::{
    encodable_name, metadata_error, sprj_error, DeviceParameterImage, DEVICE_PARAMETER_BYTES,
    DEVICE_PARAMETER_COVERED_BYTES, DEVICE_PARAMETER_FORMAT, DEVICE_PARAMETER_LAYOUT,
};
use crate::text::{
    ascii_codes, bytes_of_chars, eq_ignoring_case, is_ascii_text,
    lemma_ascii_codes_are_lossless, same_ignoring_case,
};

verus! {

pub const RUNTIME_PROFILE_BYTES: usize = 0x0a28;

pub const DERIVED_RANGE_BYTES: usize = 0x18;

pub const PROJECT_ALIGNMENT_BYTES: usize = 0x800;

/// User-facing operation that a profile schedules.
#[derive(Debug, Clone, Copy, PartialEq, Eq, Structural)]
pub enum ParameterOperation {
    /// The defaults of a new project: program followed by verify.
    Prepare,
    Program,
    Read,
    Verify,
    BlankCheck,
    ConfigurationWrite,
    ConfigurationRead,
    ChipErase,
    AutomaticErase,
    ConfigurationVerify,
    Progress,
}

/// The number of an operation in a schedule.
pub open spec fn code_of(operation: ParameterOperation) -> u8 {
    match operation {
        ParameterOperation::Prepare => 0,
        ParameterOperation::Program => 1,
        ParameterOperation::Read => 2,
        ParameterOperation::Verify => 3,
        ParameterOperation::BlankCheck => 4,
        ParameterOperation::ConfigurationWrite => 5,
        ParameterOperation::ConfigurationRead => 6,
        ParameterOperation::ChipErase => 7,
        ParameterOperation::Progress => 8,
        ParameterOperation::AutomaticErase => 9,
        ParameterOperation::ConfigurationVerify => 10,
    }
}

/// Operations that work on a configuration.
pub open spec fn needs_configuration(operation: ParameterOperation) -> bool {
    operation is ConfigurationWrite || operation is ConfigurationRead
        || operation is ConfigurationVerify
}

/// The capability that an operation code stands for.
pub open spec fn capability_of(code: u8) -> u32 {
    if code == 1 {
        0x001
    } else if code == 2 {
        0x002
    } else if code == 3 {
        0x004
    } else if code == 4 {
        0x008
    } else if code == 5 {
        0x010
    } else if code == 6 {
        0x020
    } else if code == 7 {
        0x800
    } else if code == 9 {
        0x808
    } else if code == 10 {
        0x040
    } else {
        0
    }
}

/// The capabilities of a schedule.
pub open spec fn folded_capabilities(codes: Seq<u8>) -> u32
    decreases codes.len(),
{
    if codes.len() == 0 {
        0
    } else {
        folded_capabilities(codes.drop_last()) | capability_of(codes.last())
    }
}

/// A schedule has the capability of each of its codes.
pub proof fn law_schedules_have_the_capabilities_of_their_codes(codes: Seq<u8>, i: int)
    requires
        0 <= i < codes.len(),
    ensures
        folded_capabilities(codes) & capability_of(codes[i]) == capability_of(codes[i]),
    decreases codes.len(),
{
    let before = folded_capabilities(codes.drop_last());
    let last = capability_of(codes.last());
    let wanted = capability_of(codes[i]);
    if i == codes.len() - 1 {
        assert((before | wanted) & wanted == wanted) by (bit_vector);
    } else {
        law_schedules_have_the_capabilities_of_their_codes(codes.drop_last(), i);
        assert((before | last) & wanted == wanted) by (bit_vector)
            requires
                before & wanted == wanted,
        ;
    }
}

/// The bit of a region in a mask of eight.
pub open spec fn region_bit(region: u32) -> u8 {
    if region == 0 {
        0x01
    } else if region == 1 {
        0x02
    } else if region == 2 {
        0x04
    } else if region == 3 {
        0x08
    } else if region == 4 {
        0x10
    } else if region == 5 {
        0x20
    } else if region == 6 {
        0x40
    } else if region == 7 {
        0x80
    } else {
        0
    }
}

/// The two region masks of a profile: what is written or checked, and what is
/// read.
pub open spec fn region_masks(operation: ParameterOperation, region: u32) -> (u8, u8) {
    match operation {
        ParameterOperation::Read => (0, region_bit(region)),
        ParameterOperation::ConfigurationRead => (0, 0x10),
        ParameterOperation::ConfigurationWrite => (0x10, 0),
        ParameterOperation::ConfigurationVerify => (0x10, 0),
        ParameterOperation::Prepare => (region_bit(region), region_bit(region)),
        ParameterOperation::Progress => (region_bit(region), region_bit(region)),
        _ => (region_bit(region), 0),
    }
}

/// The sixteen operation codes that a new project schedules.
pub open spec fn scheduled_codes(operation: ParameterOperation) -> Seq<u8> {
    if operation is Prepare {
        seq![1u8, 3u8] + zeros(14)
    } else {
        seq![code_of(operation)] + zeros(15)
    }
}

/// The preparatory steps that a device needs.
pub open spec fn preparatory_steps(capabilities: u32) -> Seq<u8> {
    let erases = capabilities & 0x800 != 0;
    let first = if erases {
        seq![0x87u8]
    } else {
        Seq::empty()
    };
    let second = if erases && capabilities & 0x08 != 0 {
        first.push(0x84)
    } else {
        first
    };
    let third = if capabilities & 0x01 != 0 {
        second.push(0x81)
    } else {
        second
    };
    if capabilities & 0x04 != 0 {
        third.push(0x83)
    } else {
        third
    }
}

/// The bus width of a device, in bytes.
pub open spec fn bus_width(raw: Seq<u8>) -> u16 {
    if u16_at(raw, 0x40) != 0 {
        u16_at(raw, 0x40)
    } else if raw[0x23] == 0x10 {
        2
    } else if raw[0x23] == 0x20 {
        4
    } else {
        1
    }
}

/// The number of data regions of a device.
pub open spec fn region_count(raw: Seq<u8>) -> u8 {
    ((if u32_at(raw, 0x30) != 0 {
        1int
    } else {
        0
    }) + (if u32_at(raw, 0x38) != 0 {
        1int
    } else {
        0
    })) as u8
}

/// Where a region ends, in thirty-two bits; a region without bytes ends at zero.
pub open spec fn region_end(start: u32, length: u32) -> u32 {
    if length == 0 {
        0
    } else {
        ((start + length) % 0x1_0000_0000) as u32
    }
}

/// Where the last data region of a device ends.
pub open spec fn maximum_end(raw: Seq<u8>) -> u32 {
    let first = region_end(u32_at(raw, 0x34), u32_at(raw, 0x30));
    let second = region_end(u32_at(raw, 0x3c), u32_at(raw, 0x38));
    if first < second {
        second
    } else {
        first
    }
}

/// The runtime profile of a new project, field by field in the order of its
/// offsets.
pub open spec fn project_profile(
    device: DeviceRecordView,
    package: PackageRecordView,
    configuration: Option<ConfigurationView>,
    operation: ParameterOperation,
    region: u32,
) -> Seq<u8> {
    profile_start(device) + profile_device(device, package) + profile_schedule(
        device,
        configuration,
        operation,
        region,
    )
}

/// The runtime profile before offset `0x3f0`.
pub open spec fn profile_start(device: DeviceRecordView) -> Seq<u8> {
    let raw = device.raw;
    le32(1) + zeros(0xd0)
    // 0x0d4
     + le32(device.source_index as u32) + seq![raw[0x23]] + seq![raw[0x22]] + raw.subrange(
        0x24,
        0x28,
    ) + zeros(0x42)
    // 0x120
     + raw.subrange(0x34, 0x38) + raw.subrange(0x30, 0x34) + zeros(0x140)
    // 0x268
     + raw.subrange(0x3c, 0x40) + raw.subrange(0x38, 0x3c) + zeros(0x180)
}

/// The runtime profile between offsets `0x3f0` and `0x505`.
pub open spec fn profile_device(device: DeviceRecordView, package: PackageRecordView) -> Seq<u8> {
    let raw = device.raw;
    seq![raw[0x2c]] + seq![raw[0x2f]] + seq![region_count(raw)] + zeros(5)
    // 0x3f8
     + raw.subrange(0x44, 0x48) + zeros(0x4c)
    // 0x448
     + le32(
        if device.configuration_stem is Some {
            1
        } else {
            0
        },
    ) + raw.subrange(0x28, 0x2a) + raw.subrange(0x2a, 0x2c) + le16(bus_width(raw)) + raw.subrange(
        0x74,
        0x78,
    ) + zeros(2)
    // 0x458
     + raw.subrange(0x70, 0x74) + le32(maximum_end(raw)) + raw.subrange(0x48, 0x4c) + seq![
        package.key,
    ] + zeros(1) + le16(package.package_type)
    // 0x468
     + raw.subrange(0x78, 0x7c) + raw.subrange(0x7c, 0x80) + raw.subrange(0x80, 0x84) + zeros(0x91)
}

/// The runtime profile from offset `0x505` on.
pub open spec fn profile_schedule(
    device: DeviceRecordView,
    configuration: Option<ConfigurationView>,
    operation: ParameterOperation,
    region: u32,
) -> Seq<u8> {
    let raw = device.raw;
    let capabilities = u32_at(raw, 0x48);
    let steps = preparatory_steps(capabilities);
    let masks = region_masks(operation, region);
    let (block_0, block_1, bits) = match configuration {
        Some(values) => (
            values.default_block_0,
            values.default_block_1,
            le32(values.default_protection_bits),
        ),
        None => (zeros(0x40), zeros(0x40), zeros(4)),
    };
    seq![
        if capabilities & 0x800 != 0 {
            1u8
        } else {
            2u8
        },
    ] + steps + zeros((16 - steps.len()) as nat)
    // 0x516
     + scheduled_codes(operation) + zeros(0x216)
    // 0x73c
     + seq![masks.0] + seq![masks.1] + block_0 + block_1 + bits
    // 0x7c2
     + raw.subrange(0x28, 0x2a) + le32(0x111) + zeros(0x28)
    // 0x7f0
     + le32(0x0104_0000) + le32(((u32_at(raw, 0x30) + 0x1_0000_0000 - 0x10) % 0x1_0000_0000) as u32)
        + zeros(0x230)
}

/// A text in a field that keeps a zero at its end.
pub open spec fn text_area(value: Seq<u8>, capacity: nat) -> Seq<u8> {
    let length = if value.len() < capacity {
        value.len() as int
    } else {
        capacity - 1
    };
    value.take(length) + zeros((capacity - length) as nat)
}

/// Where the part behind the last path separator begins, or zero.
pub open spec fn file_name_start(path: Seq<u8>) -> nat
    decreases path.len(),
{
    if path.len() == 0 || path.last() == 0x2f || path.last() == 0x5c {
        path.len()
    } else {
        file_name_start(path.drop_last())
    }
}

/// What a field of the given capacity keeps of a path: all of it if it fits,
/// else its file name, or its end if it has no separator.
pub open spec fn kept_path(path: Seq<u8>, capacity: nat) -> Seq<u8> {
    if path.len() < capacity {
        path
    } else if exists|i: int| 0 <= i < path.len() && is_separator(#[trigger] path[i]) {
        path.skip(file_name_start(path) as int)
    } else {
        path.skip(path.len() - (capacity - 1))
    }
}

/// A byte separates the parts of a path.
pub open spec fn is_separator(byte: u8) -> bool {
    byte == 0x2f || byte == 0x5c
}

/// The first sixteen bytes of an image.
pub open spec fn image_header(profile: Seq<u8>) -> Seq<u8> {
    seq![0x53u8, 0x50, 0x52, 0x4a] + le32(DEVICE_PARAMETER_FORMAT) + le16(DEVICE_PARAMETER_LAYOUT)
        + le16(
        if profile[0x7f0] == 0 {
            0x0100
        } else {
            0x0132
        },
    ) + le16(
        if u32_at(profile, 0x124) > 0x0400_0000 || profile[0x72e] & 0x20 != 0 {
            0x0100
        } else {
            0
        },
    ) + zeros(2)
}

/// The bytes of an image between `0x010` and `0x320`.
pub open spec fn image_titles(
    profile: Seq<u8>,
    texts: Seq<Seq<u8>>,
    device_record: Seq<u8>,
    local_time: Seq<u8>,
) -> Seq<u8> {
    local_time + zeros(9)
    // 0x020
     + text_area(texts[0], 0x20) + text_area(texts[1], 0x20) + text_area(texts[2], 0x20)
    // 0x080
     + profile.subrange(0xd4, 0xd8) + profile.subrange(0x466, 0x468) + seq![profile[0x464]] + zeros(
        9,
    )
    // 0x090
     + device_record + zeros(0x70)
    // 0x190
     + text_area(kept_path(texts[3], 0x104), 0x104) + zeros(0x0b) + seq![profile[0x72e]]
    // 0x2a0
     + text_area(texts[4], 0x20) + text_area(texts[5], 0x20) + text_area(texts[6], 0x40)
}

/// The bytes of an image between `0x320` and `0x540`.
pub open spec fn image_settings(profile: Seq<u8>, texts: Seq<Seq<u8>>) -> Seq<u8> {
    seq![profile[0x73c]] + seq![profile[0x73d]] + seq![profile[0x504]] + zeros(1)
        + profile.subrange(0x7c4, 0x7c8) + profile.subrange(0x7c2, 0x7c4) + zeros(6)
    // 0x330
     + profile.subrange(0x7f0, 0x800) + seq![profile[0x800]] + zeros(7)
    // 0x348
     + text_area(texts[7], 0x104) + profile.subrange(0xa0c, 0xa10)
    // 0x450
     + profile.subrange(0x73e, 0x7c2) + zeros(0x0c)
    // 0x4e0
     + seq![profile[0x505]] + zeros(3) + le32(folded_capabilities(profile.subrange(0x516, 0x526)))
        + profile.subrange(0x516, 0x526) + profile.subrange(0x506, 0x516)
    // 0x508
     + profile.subrange(0x7e8, 0x7ec) + seq![profile[0x7ec]] + zeros(0x13)
    // 0x520
     + profile.subrange(0x7c8, 0x7e8)
}

/// The bytes of an image between `0x540` and `0x560`.
pub open spec fn image_identity(algorithm: AlgorithmView) -> Seq<u8> {
    text_area(bytes_of_chars(algorithm.name), 0x10) + algorithm.timestamp + le32(
        algorithm.payload.len() as u32,
    ) + le32(algorithm.payload_crc32)
}

/// The bytes of an image between `0x560` and `0x7fc`.
pub open spec fn image_project(
    profile: Seq<u8>,
    start: int,
    length: int,
    data_crc: u32,
    derived_ranges: Seq<u8>,
) -> Seq<u8> {
    profile.subrange(0x730, 0x73c) + le32(start as u32) + le32(length as u32) + le32(data_crc)
        + derived_ranges + zeros(0x26c)
}

/// The bytes of an image that its CRC32 covers.
pub open spec fn image_body(
    profile: Seq<u8>,
    texts: Seq<Seq<u8>>,
    device_record: Seq<u8>,
    algorithm: AlgorithmView,
    start: int,
    length: int,
    data_crc: u32,
    local_time: Seq<u8>,
    derived_ranges: Seq<u8>,
) -> Seq<u8> {
    image_header(profile) + image_titles(profile, texts, device_record, local_time)
        + image_settings(profile, texts) + image_identity(algorithm) + image_project(
        profile,
        start,
        length,
        data_crc,
        derived_ranges,
    )
}

/// A body with the CRC32 behind it.
pub open spec fn sealed(body: Seq<u8>) -> Seq<u8> {
    body + le32(crc32(body))
}

/// Source offsets of the eight profile strings copied into an image.
#[derive(Debug, Clone, Copy, PartialEq, Eq, Structural)]
pub enum ProfileTextField {
    Source0050,
    Source000e,
    Source0092,
    Source0526,
    Source00e0,
    Source0228,
    Source0370,
    Source0802,
}

impl ProfileTextField {
    /// The number of a string.
    pub open spec fn position(self) -> int {
        match self {
            ProfileTextField::Source0050 => 0,
            ProfileTextField::Source000e => 1,
            ProfileTextField::Source0092 => 2,
            ProfileTextField::Source0526 => 3,
            ProfileTextField::Source00e0 => 4,
            ProfileTextField::Source0228 => 5,
            ProfileTextField::Source0370 => 6,
            ProfileTextField::Source0802 => 7,
        }
    }

    fn index(self) -> (index: usize)
        ensures
            index == self.position(),
            index < 8,
    {
        match self {
            ProfileTextField::Source0050 => 0,
            ProfileTextField::Source000e => 1,
            ProfileTextField::Source0092 => 2,
            ProfileTextField::Source0526 => 3,
            ProfileTextField::Source00e0 => 4,
            ProfileTextField::Source0228 => 5,
            ProfileTextField::Source0370 => 6,
            ProfileTextField::Source0802 => 7,
        }
    }
}

/// Encoded bytes for the strings of a runtime profile.
///
/// Keeping the conversion outside the layout makes the code page an explicit
/// input and keeps the output deterministic on all host platforms.
#[derive(Debug, Clone, PartialEq, Eq)]
pub struct ProfileTextFields {
    values: [Vec<u8>; 8],
}

impl View for ProfileTextFields {
    type V = Seq<Seq<u8>>;

    closed spec fn view(&self) -> Seq<Seq<u8>> {
        Seq::new(8, |i: int| self.values@[i]@)
    }
}

impl Default for ProfileTextFields {
    fn default() -> (fields: Self)
        ensures
            fields@ == Seq::new(8, |i: int| Seq::<u8>::empty()),
    {
        let fields = ProfileTextFields {
            values: [
                Vec::new(),
                Vec::new(),
                Vec::new(),
                Vec::new(),
                Vec::new(),
                Vec::new(),
                Vec::new(),
                Vec::new(),
            ],
        };
        assert(fields@ =~= Seq::new(8, |i: int| Seq::<u8>::empty()));
        fields
    }
}

impl ProfileTextFields {
    pub fn set(&mut self, field: ProfileTextField, encoded: Vec<u8>)
        ensures
            final(self)@ == old(self)@.update(field.position(), encoded@),
    {
        self.values[field.index()] = encoded;
        assert(self@ =~= old(self)@.update(field.position(), encoded@));
    }

    #[must_use]
    pub fn get(&self, field: ProfileTextField) -> (encoded: &[u8])
        ensures
            encoded@ == self@[field.position()],
    {
        self.values[field.index()].as_slice()
    }
}

/// Failures of parameter construction.
#[allow(inconsistent_fields)]
#[derive(Debug, Clone, PartialEq, Eq)]
pub enum DeviceParameterBuildError<S = String> {
    InvalidBcdTime { value: [u8; 7] },
    DataRange { start: usize, end: usize, data_length: usize },
    AlgorithmMismatch { expected: S, actual: S },
    ConfigurationMismatch { expected: S, actual: S },
    ConfigurationRequired { stem: Option<S> },
    PackageUnavailable { key: u8, device: S },
    RegionUnavailable { region: u32 },
    ProjectTooLarge { data_length: usize, region: u32, capacity: usize },
    InvalidProfileText { field: &'static str },
    IntegerOverflow,
}

impl View for DeviceParameterBuildError<String> {
    type V = DeviceParameterBuildError<Seq<char>>;

    open spec fn view(&self) -> DeviceParameterBuildError<Seq<char>> {
        match *self {
            DeviceParameterBuildError::InvalidBcdTime { value } => {
                DeviceParameterBuildError::InvalidBcdTime { value }
            },
            DeviceParameterBuildError::DataRange { start, end, data_length } => {
                DeviceParameterBuildError::DataRange { start, end, data_length }
            },
            DeviceParameterBuildError::AlgorithmMismatch { expected, actual } => {
                DeviceParameterBuildError::AlgorithmMismatch {
                    expected: expected@,
                    actual: actual@,
                }
            },
            DeviceParameterBuildError::ConfigurationMismatch { expected, actual } => {
                DeviceParameterBuildError::ConfigurationMismatch {
                    expected: expected@,
                    actual: actual@,
                }
            },
            DeviceParameterBuildError::ConfigurationRequired { stem } => {
                DeviceParameterBuildError::ConfigurationRequired {
                    stem: match stem {
                        Some(stem) => Some(stem@),
                        None => None,
                    },
                }
            },
            DeviceParameterBuildError::PackageUnavailable { key, device } => {
                DeviceParameterBuildError::PackageUnavailable { key, device: device@ }
            },
            DeviceParameterBuildError::RegionUnavailable { region } => {
                DeviceParameterBuildError::RegionUnavailable { region }
            },
            DeviceParameterBuildError::ProjectTooLarge { data_length, region, capacity } => {
                DeviceParameterBuildError::ProjectTooLarge { data_length, region, capacity }
            },
            DeviceParameterBuildError::InvalidProfileText { field } => {
                DeviceParameterBuildError::InvalidProfileText { field }
            },
            DeviceParameterBuildError::IntegerOverflow => {
                DeviceParameterBuildError::IntegerOverflow
            },
        }
    }
}

/// Applies the mapping from operation codes to capabilities.
#[must_use]
pub fn fold_capabilities(operation_codes: [u8; 16]) -> (capabilities: u32)
    ensures
        capabilities == folded_capabilities(operation_codes@),
{
    fold_codes(&operation_codes)
}

fn fold_codes(codes: &[u8]) -> (capabilities: u32)
    ensures
        capabilities == folded_capabilities(codes@),
{
    let mut capabilities: u32 = 0;
    let mut i: usize = 0;
    while i < codes.len()
        invariant
            i <= codes@.len(),
            capabilities == folded_capabilities(codes@.take(i as int)),
        decreases codes@.len() - i,
    {
        let capability: u32 = match codes[i] {
            1 => 0x001,
            2 => 0x002,
            3 => 0x004,
            4 => 0x008,
            5 => 0x010,
            6 => 0x020,
            7 => 0x800,
            9 => 0x808,
            10 => 0x040,
            _ => 0,
        };
        assert(codes@.take(i + 1).drop_last() =~= codes@.take(i as int));
        capabilities = capabilities | capability;
        i += 1;
    }
    assert(codes@.take(i as int) =~= codes@);
    capabilities
}

/// Inputs of the byte layout.
pub struct DeviceParameterInputs<'a> {
    pub runtime_profile: &'a [u8; RUNTIME_PROFILE_BYTES],
    pub profile_text: &'a ProfileTextFields,
    pub device_record: &'a [u8; DEVICE_RECORD_BYTES],
    pub algorithm: &'a Algorithm,
    pub project_data: &'a [u8],
    pub data_range: Range<usize>,
    pub local_time_bcd: [u8; 7],
    pub derived_ranges: [u8; DERIVED_RANGE_BYTES],
}

impl<'a> DeviceParameterInputs<'a> {
    /// Why the inputs cannot be laid out. Rules apply in the order of the tests.
    pub open spec fn refusal(&self) -> Option<DeviceParameterBuildError<Seq<char>>> {
        let range = self.data_range;
        if !all_bcd(self.local_time_bcd@) {
            Some(DeviceParameterBuildError::InvalidBcdTime { value: self.local_time_bcd })
        } else if range.start > range.end || range.end > self.project_data@.len() {
            Some(
                DeviceParameterBuildError::DataRange {
                    start: range.start,
                    end: range.end,
                    data_length: self.project_data@.len() as usize,
                },
            )
        } else if range.start > u32::MAX || range.end - range.start > u32::MAX {
            Some(DeviceParameterBuildError::IntegerOverflow)
        } else {
            None
        }
    }

    /// The project data that the image describes.
    pub open spec fn selected_data(&self) -> Seq<u8> {
        self.project_data@.subrange(self.data_range.start as int, self.data_range.end as int)
    }

    /// The bytes that the inputs are laid out to, given the CRC32 of the
    /// selected data.
    pub open spec fn body(&self, data_crc: u32) -> Seq<u8> {
        image_body(
            self.runtime_profile@,
            self.profile_text@,
            self.device_record@,
            self.algorithm@,
            self.data_range.start as int,
            self.data_range.end - self.data_range.start,
            data_crc,
            self.local_time_bcd@,
            self.derived_ranges@,
        )
    }
}

/// Appends one byte.
fn extend_byte(target: &mut Vec<u8>, byte: u8)
    ensures
        final(target)@ == old(target)@ + seq![byte],
{
    let ghost before = target@;
    target.push(byte);
    assert(target@ =~= before + seq![byte]);
}

/// Appends a part of a slice.
fn extend_part(target: &mut Vec<u8>, source: &[u8], start: usize, end: usize)
    requires
        start <= end <= source@.len(),
    ensures
        final(target)@ == old(target)@ + source@.subrange(start as int, end as int),
{
    extend(target, slice_subrange(source, start, end));
}

/// Appends a text in a field that keeps a zero at its end.
fn extend_text(target: &mut Vec<u8>, value: &[u8], capacity: usize)
    requires
        capacity > 0,
    ensures
        final(target)@ == old(target)@ + text_area(value@, capacity as nat),
{
    let ghost before = target@;
    let length: usize = if value.len() < capacity {
        value.len()
    } else {
        capacity - 1
    };
    assert(value@.subrange(0, length as int) =~= value@.take(length as int));
    extend(target, slice_subrange(value, 0, length));
    extend_zeros(target, capacity - length);
    assert(target@ =~= before + text_area(value@, capacity as nat));
}

/// What a field of the given capacity keeps of a path.
fn keep_path(path: &[u8], capacity: usize) -> (kept: &[u8])
    requires
        capacity > 0,
    ensures
        kept@ == kept_path(path@, capacity as nat),
{
    if path.len() < capacity {
        return path;
    }
    let mut start: usize = path.len();
    assert(path@.take(start as int) =~= path@);
    while start > 0 && path[start - 1] != 0x2f && path[start - 1] != 0x5c
        invariant
            start <= path@.len(),
            file_name_start(path@) == file_name_start(path@.take(start as int)),
            forall|i: int| start <= i < path@.len() ==> !is_separator(#[trigger] path@[i]),
        decreases start,
    {
        assert(path@.take(start as int).drop_last() =~= path@.take(start - 1));
        start -= 1;
    }
    if start > 0 {
        assert(is_separator(path@[start - 1]));
        assert(path@.subrange(start as int, path@.len() as int) =~= path@.skip(start as int));
        slice_subrange(path, start, path.len())
    } else {
        let from: usize = path.len() - (capacity - 1);
        assert(path@.subrange(from as int, path@.len() as int) =~= path@.skip(from as int));
        slice_subrange(path, from, path.len())
    }
}

/// A text area fills its field.
pub(crate) proof fn lemma_text_area(value: Seq<u8>, capacity: nat)
    requires
        capacity > 0,
    ensures
        text_area(value, capacity).len() == capacity,
{
}

fn extend_header(target: &mut Vec<u8>, profile: &[u8])
    requires
        profile@.len() == RUNTIME_PROFILE_BYTES,
    ensures
        final(target)@ == old(target)@ + image_header(profile@),
        image_header(profile@).len() == 0x10,
{
    let mut part: Vec<u8> = Vec::new();
    part.push(0x53);
    part.push(0x50);
    part.push(0x52);
    part.push(0x4a);
    assert(part@ =~= seq![0x53u8, 0x50, 0x52, 0x4a]);
    extend_u32(&mut part, DEVICE_PARAMETER_FORMAT);
    extend_u16(&mut part, DEVICE_PARAMETER_LAYOUT);
    extend_u16(
        &mut part,
        if profile[0x7f0] == 0 {
            0x0100
        } else {
            0x0132
        },
    );
    let large: bool = read_u32(profile, 0x124) > 0x0400_0000 || profile[0x72e] & 0x20 != 0;
    extend_u16(
        &mut part,
        if large {
            0x0100
        } else {
            0
        },
    );
    extend_zeros(&mut part, 2);
    assert(part@ == image_header(profile@));
    extend(target, part.as_slice());
}

#[verifier::rlimit(50)]
fn extend_titles(
    target: &mut Vec<u8>,
    profile: &[u8],
    texts: &ProfileTextFields,
    device_record: &[u8],
    local_time: &[u8],
)
    requires
        profile@.len() == RUNTIME_PROFILE_BYTES,
        device_record@.len() == DEVICE_RECORD_BYTES,
        local_time@.len() == 7,
    ensures
        final(target)@ == old(target)@ + image_titles(
            profile@,
            texts@,
            device_record@,
            local_time@,
        ),
        image_titles(profile@, texts@, device_record@, local_time@).len() == 0x310,
{
    let mut part: Vec<u8> = Vec::new();
    extend(&mut part, local_time);
    assert(part@ =~= local_time@);
    extend_zeros(&mut part, 9);
    extend_text(&mut part, texts.get(ProfileTextField::Source0050), 0x20);
    extend_text(&mut part, texts.get(ProfileTextField::Source000e), 0x20);
    extend_text(&mut part, texts.get(ProfileTextField::Source0092), 0x20);
    extend_part(&mut part, profile, 0xd4, 0xd8);
    extend_part(&mut part, profile, 0x466, 0x468);
    extend_byte(&mut part, profile[0x464]);
    extend_zeros(&mut part, 9);
    extend(&mut part, device_record);
    extend_zeros(&mut part, 0x70);
    extend_text(&mut part, keep_path(texts.get(ProfileTextField::Source0526), 0x104), 0x104);
    extend_zeros(&mut part, 0x0b);
    extend_byte(&mut part, profile[0x72e]);
    extend_text(&mut part, texts.get(ProfileTextField::Source00e0), 0x20);
    extend_text(&mut part, texts.get(ProfileTextField::Source0228), 0x20);
    extend_text(&mut part, texts.get(ProfileTextField::Source0370), 0x40);
    assert(part@ == image_titles(profile@, texts@, device_record@, local_time@));
    proof {
        lemma_text_area(texts@[0], 0x20);
        lemma_text_area(texts@[1], 0x20);
        lemma_text_area(texts@[2], 0x20);
        lemma_text_area(kept_path(texts@[3], 0x104), 0x104);
        lemma_text_area(texts@[4], 0x20);
        lemma_text_area(texts@[5], 0x20);
        lemma_text_area(texts@[6], 0x40);
    }
    extend(target, part.as_slice());
}

#[verifier::rlimit(50)]
fn extend_settings(target: &mut Vec<u8>, profile: &[u8], texts: &ProfileTextFields)
    requires
        profile@.len() == RUNTIME_PROFILE_BYTES,
    ensures
        final(target)@ == old(target)@ + image_settings(profile@, texts@),
        image_settings(profile@, texts@).len() == 0x220,
{
    let mut part: Vec<u8> = Vec::new();
    part.push(profile[0x73c]);
    assert(part@ =~= seq![profile@[0x73c]]);
    extend_byte(&mut part, profile[0x73d]);
    extend_byte(&mut part, profile[0x504]);
    extend_zeros(&mut part, 1);
    extend_part(&mut part, profile, 0x7c4, 0x7c8);
    extend_part(&mut part, profile, 0x7c2, 0x7c4);
    extend_zeros(&mut part, 6);
    extend_part(&mut part, profile, 0x7f0, 0x800);
    extend_byte(&mut part, profile[0x800]);
    extend_zeros(&mut part, 7);
    extend_text(&mut part, texts.get(ProfileTextField::Source0802), 0x104);
    extend_part(&mut part, profile, 0xa0c, 0xa10);
    extend_part(&mut part, profile, 0x73e, 0x7c2);
    extend_zeros(&mut part, 0x0c);
    extend_byte(&mut part, profile[0x505]);
    extend_zeros(&mut part, 3);
    extend_u32(&mut part, fold_codes(slice_subrange(profile, 0x516, 0x526)));
    extend_part(&mut part, profile, 0x516, 0x526);
    extend_part(&mut part, profile, 0x506, 0x516);
    extend_part(&mut part, profile, 0x7e8, 0x7ec);
    extend_byte(&mut part, profile[0x7ec]);
    extend_zeros(&mut part, 0x13);
    extend_part(&mut part, profile, 0x7c8, 0x7e8);
    assert(part@ == image_settings(profile@, texts@));
    proof {
        lemma_text_area(texts@[7], 0x104);
    }
    extend(target, part.as_slice());
}

fn extend_identity(target: &mut Vec<u8>, algorithm: &Algorithm)
    ensures
        final(target)@ == old(target)@ + image_identity(algorithm@),
        image_identity(algorithm@).len() == 0x20,
{
    let mut part: Vec<u8> = Vec::new();
    let payload: &[u8] = algorithm.payload();
    let timestamp: [u8; 8] = algorithm.timestamp();
    match ascii_codes(algorithm.name()) {
        Some(codes) => {
            extend_text(&mut part, codes.as_slice(), 0x10);
        },
        None => {
            assert(false);
        },
    }
    assert(part@ =~= text_area(bytes_of_chars(algorithm@.name), 0x10));
    extend(&mut part, &timestamp);
    extend_u32(&mut part, payload.len() as u32);
    extend_u32(&mut part, algorithm.payload_crc32());
    assert(part@ == image_identity(algorithm@));
    proof {
        lemma_text_area(bytes_of_chars(algorithm@.name), 0x10);
    }
    extend(target, part.as_slice());
}

/// Lays out the bytes of an image that its CRC32 covers, given the CRC32 of the
/// selected project data.
///
/// # Errors
///
/// Returns [`DeviceParameterBuildError`] as [`build_device_parameters`] does.
pub fn device_parameter_body(inputs: &DeviceParameterInputs<'_>, data_crc: u32) -> (result: Result<
    Vec<u8>,
    DeviceParameterBuildError,
>)
    ensures
        match (result, inputs.refusal()) {
            (Ok(body), None) => body@ == inputs.body(data_crc) && body@.len()
                == DEVICE_PARAMETER_COVERED_BYTES,
            (Err(error), Some(reason)) => error@ == reason,
            _ => false,
        },
{
    let time: [u8; 7] = inputs.local_time_bcd;
    if !holds_bcd(&time) {
        return Err(DeviceParameterBuildError::InvalidBcdTime { value: time });
    }
    let start: usize = inputs.data_range.start;
    let end: usize = inputs.data_range.end;
    if start > end || end > inputs.project_data.len() {
        return Err(
            DeviceParameterBuildError::DataRange {
                start,
                end,
                data_length: inputs.project_data.len(),
            },
        );
    }
    if start > 0xffff_ffff || end - start > 0xffff_ffff {
        return Err(DeviceParameterBuildError::IntegerOverflow);
    }
    let profile: &[u8] = inputs.runtime_profile;
    let record: &[u8] = inputs.device_record;
    let mut body: Vec<u8> = Vec::new();
    extend_header(&mut body, profile);
    assert(body@ =~= image_header(profile@));
    extend_titles(&mut body, profile, inputs.profile_text, record, &time);
    extend_settings(&mut body, profile, inputs.profile_text);
    extend_identity(&mut body, inputs.algorithm);
    let mut part: Vec<u8> = Vec::new();
    extend_part(&mut part, profile, 0x730, 0x73c);
    assert(part@ =~= profile@.subrange(0x730, 0x73c));
    extend_u32(&mut part, start as u32);
    extend_u32(&mut part, (end - start) as u32);
    extend_u32(&mut part, data_crc);
    let ranges: [u8; DERIVED_RANGE_BYTES] = inputs.derived_ranges;
    extend(&mut part, &ranges);
    extend_zeros(&mut part, 0x26c);
    extend(&mut body, part.as_slice());
    Ok(body)
}

/// Puts a CRC32 behind the bytes of an image that it covers.
#[must_use]
pub fn seal_with_crc(body: Vec<u8>, crc: u32) -> (image: DeviceParameterImage)
    requires
        body@.len() == DEVICE_PARAMETER_COVERED_BYTES,
    ensures
        image@ == body@ + le32(crc),
{
    let mut bytes: Vec<u8> = body;
    extend_u32(&mut bytes, crc);
    DeviceParameterImage::from_bytes(to_array(bytes.as_slice()))
}

/// Puts the CRC32 of bytes behind them.
fn seal(body: Vec<u8>) -> (image: DeviceParameterImage)
    requires
        body@.len() == DEVICE_PARAMETER_COVERED_BYTES,
    ensures
        image@ == sealed(body@),
{
    let crc: u32 = hash(body.as_slice());
    seal_with_crc(body, crc)
}

/// Builds the exact-size image after validating caller-controlled boundaries.
///
/// # Errors
///
/// Returns [`DeviceParameterBuildError`] when the BCD time, the project data
/// range, or an integer field cannot be represented by the layout.
pub fn build_device_parameters(inputs: &DeviceParameterInputs<'_>) -> (result: Result<
    DeviceParameterImage,
    DeviceParameterBuildError,
>)
    ensures
        match (result, inputs.refusal()) {
            (Ok(image), None) => image@ == sealed(inputs.body(crc32(inputs.selected_data()))),
            (Err(error), Some(reason)) => error@ == reason,
            _ => false,
        },
{
    let start: usize = inputs.data_range.start;
    let end: usize = inputs.data_range.end;
    let data_crc: u32 = if start <= end && end <= inputs.project_data.len() {
        hash(slice_subrange(inputs.project_data, start, end))
    } else {
        0
    };
    let body: Vec<u8> = device_parameter_body(inputs, data_crc)?;
    Ok(seal(body))
}

/// Where the first byte that is not erased stands, or the length.
pub open spec fn first_programmed(source: Seq<u8>) -> nat
    decreases source.len(),
{
    if source.len() == 0 || source[0] != 0xff {
        0
    } else {
        1 + first_programmed(source.skip(1))
    }
}

/// Where the bytes behind the last one that is not erased begin, or zero.
pub open spec fn programmed_end(source: Seq<u8>) -> nat
    decreases source.len(),
{
    if source.len() == 0 || source.last() != 0xff {
        source.len()
    } else {
        programmed_end(source.drop_last())
    }
}

/// Padded project bytes and the aligned range of them that matters.
pub struct PreparedProjectView {
    pub bytes: Seq<u8>,
    pub start: int,
    pub end: int,
}

impl PreparedProjectView {
    /// The bytes of the range.
    pub open spec fn selected(self) -> Seq<u8> {
        self.bytes.subrange(self.start, self.end)
    }
}

/// The aligned range of a source and the bytes up to its end, where what lies
/// beyond the source is erased.
pub open spec fn aligned_project(source: Seq<u8>) -> PreparedProjectView {
    let end: int = (programmed_end(source) as int + 0x7ff) / 0x800 * 0x800;
    PreparedProjectView {
        bytes: Seq::new(
            end as nat,
            |i: int|
                if i < source.len() {
                    source[i]
                } else {
                    0xff
                },
        ),
        start: if programmed_end(source) == 0 {
            0
        } else {
            first_programmed(source) as int / 0x800 * 0x800
        },
        end,
    }
}

/// What a source is prepared to, or why it is refused.
pub open spec fn prepared_project(raw: Seq<u8>, region: u32, source: Seq<u8>) -> Result<
    PreparedProjectView,
    DeviceParameterBuildError<Seq<char>>,
> {
    match region_of(raw, region as int) {
        None => Err(DeviceParameterBuildError::RegionUnavailable { region }),
        Some((_, capacity)) => {
            let project = aligned_project(source);
            if source.len() > capacity {
                Err(
                    DeviceParameterBuildError::ProjectTooLarge {
                        data_length: source.len() as usize,
                        region,
                        capacity: capacity as usize,
                    },
                )
            } else if programmed_end(source) + 0x7ff > usize::MAX {
                Err(DeviceParameterBuildError::IntegerOverflow)
            } else if project.end > capacity {
                Err(
                    DeviceParameterBuildError::ProjectTooLarge {
                        data_length: project.end as usize,
                        region,
                        capacity: capacity as usize,
                    },
                )
            } else {
                Ok(project)
            }
        },
    }
}

/// Where the first byte that is not erased stands.
proof fn lemma_first_programmed(source: Seq<u8>)
    ensures
        first_programmed(source) <= source.len(),
        forall|i: int| 0 <= i < first_programmed(source) ==> #[trigger] source[i] == 0xff,
        first_programmed(source) < source.len() ==> source[first_programmed(source) as int] != 0xff,
    decreases source.len(),
{
    if source.len() > 0 && source[0] == 0xff {
        let rest = source.skip(1);
        lemma_first_programmed(rest);
        assert forall|i: int| 0 <= i < first_programmed(source) implies #[trigger] source[i]
            == 0xff by {
            if i > 0 {
                assert(source[i] == rest[i - 1]);
            }
        }
    }
}

/// Where the last byte that is not erased stands.
proof fn lemma_programmed_end(source: Seq<u8>)
    ensures
        programmed_end(source) <= source.len(),
        forall|i: int| programmed_end(source) <= i < source.len() ==> #[trigger] source[i] == 0xff,
        programmed_end(source) > 0 ==> source[programmed_end(source) - 1] != 0xff,
    decreases source.len(),
{
    if source.len() > 0 && source.last() == 0xff {
        lemma_programmed_end(source.drop_last());
        assert forall|i: int| programmed_end(source) <= i < source.len() implies #[trigger] source[i]
            == 0xff by {
            if i < source.len() - 1 {
                assert(source[i] == source.drop_last()[i]);
            }
        }
    }
}

/// A range holds every byte of a source that is not erased.
pub open spec fn covers(source: Seq<u8>, start: int, end: int) -> bool {
    forall|i: int| 0 <= i < source.len() && #[trigger] source[i] != 0xff ==> start <= i < end
}

/// An aligned range begins and ends at a multiple of 2048, holds every byte of
/// the source that is not erased, and keeps the bytes of the source; what it
/// adds is erased. A source without such a byte has an empty range. The range is
/// the smallest one: its first and its last 2048 bytes hold such a byte, and it
/// lies in every aligned range that holds them all.
pub proof fn law_aligned_range_covers_the_project(source: Seq<u8>)
    ensures
        ({
            let project = aligned_project(source);
            &&& 0 <= project.start <= project.end == project.bytes.len()
            &&& project.start % 0x800 == 0 && project.end % 0x800 == 0
            &&& project.end < source.len() + 0x800
            &&& forall|i: int|
                0 <= i < source.len() && #[trigger] source[i] != 0xff ==> project.start <= i
                    < project.end && project.bytes[i] == source[i]
            &&& forall|i: int|
                source.len() <= i < project.end ==> #[trigger] project.bytes[i] == 0xff
            &&& forall|i: int|
                0 <= i < source.len() && i < project.end ==> #[trigger] project.bytes[i]
                    == source[i]
            &&& (forall|i: int| 0 <= i < source.len() ==> #[trigger] source[i] == 0xff)
                ==> project.end == 0
            &&& project.start < project.end ==> {
                &&& exists|i: int|
                    0 <= i < source.len() && #[trigger] source[i] != 0xff && project.start <= i
                        < project.start + 0x800
                &&& exists|i: int|
                    0 <= i < source.len() && #[trigger] source[i] != 0xff && project.end - 0x800
                        <= i < project.end
            }
            &&& forall|start: int, end: int|
                project.start < project.end && start % 0x800 == 0 && end % 0x800 == 0
                    && #[trigger] covers(source, start, end) ==> start <= project.start
                    && project.end <= end
        }),
{
    lemma_first_programmed(source);
    lemma_programmed_end(source);
    let project = aligned_project(source);
    let end = programmed_end(source);
    let first = first_programmed(source);
    assert(end <= project.end < end + 0x800);
    if end > 0 {
        assert(source[end - 1] != 0xff);
        assert(first < end);
        assert(project.start <= first < project.start + 0x800);
        assert(project.start <= project.end);
        assert(source[first as int] != 0xff);
        assert(project.end - 0x800 <= end - 1);
        assert forall|start: int, end: int|
            project.start < project.end && start % 0x800 == 0 && end % 0x800 == 0
                && #[trigger] covers(source, start, end) implies start <= project.start
            && project.end <= end by {
            assert(source[first as int] != 0xff);
            assert(source[programmed_end(source) - 1] != 0xff);
        }
        assert forall|i: int| 0 <= i < source.len() && #[trigger] source[i] != 0xff implies
            project.start <= i < project.end && project.bytes[i] == source[i] by {
            assert(i >= first);
            assert(i < end);
        }
    }
}

/// Padded project bytes and the aligned absolute range used by both the image
/// metadata and the program and verify transfers.
#[derive(Debug, PartialEq, Eq)]
pub struct PreparedProjectData {
    bytes: Vec<u8>,
    start: usize,
    end: usize,
}

impl View for PreparedProjectData {
    type V = PreparedProjectView;

    closed spec fn view(&self) -> PreparedProjectView {
        PreparedProjectView { bytes: self.bytes@, start: self.start as int, end: self.end as int }
    }
}

impl Clone for PreparedProjectData {
    fn clone(&self) -> (copy: Self)
        ensures
            copy@ == self@,
    {
        proof {
            use_type_invariant(self);
        }
        PreparedProjectData {
            bytes: crate::bytes::to_vec(self.bytes.as_slice()),
            start: self.start,
            end: self.end,
        }
    }
}

impl PreparedProjectData {
    #[verifier::type_invariant]
    spec fn holds(self) -> bool {
        self.start <= self.end && self.end == self.bytes@.len() && self.end <= u32::MAX
    }

    #[must_use]
    pub fn bytes(&self) -> (bytes: &[u8])
        ensures
            bytes@ == self@.bytes,
    {
        self.bytes.as_slice()
    }

    #[must_use]
    pub fn range(&self) -> (range: Range<usize>)
        ensures
            range.start == self@.start,
            range.end == self@.end,
            range.start <= range.end == self@.bytes.len(),
            range.end <= u32::MAX,
    {
        proof {
            use_type_invariant(self);
        }
        Range { start: self.start, end: self.end }
    }

    #[must_use]
    pub fn operation_bytes(&self) -> (bytes: &[u8])
        ensures
            bytes@ == self@.selected(),
    {
        proof {
            use_type_invariant(self);
        }
        slice_subrange(self.bytes.as_slice(), self.start, self.end)
    }
}

/// The capacity of a data region.
fn region_capacity(device: &DeviceRecord, region: u32) -> (capacity: Result<
    usize,
    DeviceParameterBuildError,
>)
    ensures
        match (capacity, region_of(device@.raw, region as int)) {
            (Ok(capacity), Some((_, length))) => capacity == length,
            (Err(error), None) => error@ == (
            DeviceParameterBuildError::<Seq<char>>::RegionUnavailable { region }),
            _ => false,
        },
{
    match device.data_region(region as usize) {
        Some(selected) => Ok(selected.length() as usize),
        None => Err(DeviceParameterBuildError::RegionUnavailable { region }),
    }
}

/// Aligns a project range to 2048 bytes. Bytes outside the caller's data but
/// inside the aligned range have the erased value `0xff`.
///
/// # Errors
///
/// Returns [`DeviceParameterBuildError`] if the region is unavailable, the
/// source is too large, or alignment cannot be represented on this platform.
pub fn prepare_project_data(device: &DeviceRecord, region: u32, source: &[u8]) -> (result: Result<
    PreparedProjectData,
    DeviceParameterBuildError,
>)
    ensures
        match (result, prepared_project(device@.raw, region, source@)) {
            (Ok(prepared), Ok(expected)) => prepared@ == expected,
            (Err(error), Err(reason)) => error@ == reason,
            _ => false,
        },
{
    let capacity: usize = region_capacity(device, region)?;
    if source.len() > capacity {
        return Err(
            DeviceParameterBuildError::ProjectTooLarge {
                data_length: source.len(),
                region,
                capacity,
            },
        );
    }
    let mut last: usize = source.len();
    assert(source@.take(last as int) =~= source@);
    while last > 0 && source[last - 1] == 0xff
        invariant
            last <= source@.len(),
            programmed_end(source@) == programmed_end(source@.take(last as int)),
        decreases last,
    {
        assert(source@.take(last as int).drop_last() =~= source@.take(last - 1));
        last -= 1;
    }
    assert(last == programmed_end(source@));
    if last == 0 {
        let prepared = PreparedProjectData { bytes: Vec::new(), start: 0, end: 0 };
        assert(prepared@.bytes =~= aligned_project(source@).bytes);
        return Ok(prepared);
    }
    let mut first: usize = 0;
    proof {
        lemma_first_programmed(source@);
        lemma_programmed_end(source@);
        assert(source@.skip(0) =~= source@);
    }
    while first < source.len() && source[first] == 0xff
        invariant
            first <= source@.len(),
            first_programmed(source@) == first + first_programmed(source@.skip(first as int)),
        decreases source@.len() - first,
    {
        assert(source@.skip(first as int).skip(1) =~= source@.skip(first + 1));
        first += 1;
    }
    assert(first == first_programmed(source@));
    if last > usize::MAX - 0x7ff {
        return Err(DeviceParameterBuildError::IntegerOverflow);
    }
    let start: usize = first / PROJECT_ALIGNMENT_BYTES * PROJECT_ALIGNMENT_BYTES;
    let end: usize = (last + 0x7ff) / PROJECT_ALIGNMENT_BYTES * PROJECT_ALIGNMENT_BYTES;
    if end > capacity {
        return Err(
            DeviceParameterBuildError::ProjectTooLarge { data_length: end, region, capacity },
        );
    }
    let ghost expected = aligned_project(source@);
    let mut bytes: Vec<u8> = Vec::new();
    let mut i: usize = 0;
    while i < end
        invariant
            i <= end,
            end == expected.end,
            expected == aligned_project(source@),
            bytes@ == expected.bytes.take(i as int),
        decreases end - i,
    {
        if i < source.len() {
            bytes.push(source[i]);
        } else {
            bytes.push(0xff);
        }
        i += 1;
        assert(bytes@ =~= expected.bytes.take(i as int));
    }
    proof {
        assert(bytes@ =~= expected.bytes);
        law_aligned_range_covers_the_project(source@);
    }
    Ok(PreparedProjectData { bytes, start, end })
}

/// High-level inputs from which all runtime-profile defaults are derived.
pub struct AutomaticParameterInputs<'a> {
    pub device: &'a DeviceRecord,
    /// The package keys that the device can be had in.
    pub package_keys: &'a [u8],
    pub vendor_name: &'a str,
    pub algorithm: &'a Algorithm,
    pub configuration: Option<&'a Configuration>,
    pub package: &'a PackageRecord,
    pub operation: ParameterOperation,
    pub region: u32,
    pub project_data: &'a [u8],
    pub local_time_bcd: [u8; 7],
}

/// A text in the code page of the image, and whether it holds a character that
/// the code page lacks.
#[derive(Debug, Clone, PartialEq, Eq)]
pub struct EncodedText {
    pub bytes: Vec<u8>,
    pub unmappable: bool,
}

impl View for EncodedText {
    type V = (Seq<u8>, bool);

    open spec fn view(&self) -> (Seq<u8>, bool) {
        (self.bytes@, self.unmappable)
    }
}

/// The six texts of a new project: vendor, device, package and the three regions
/// of the algorithm.
pub struct ProjectTexts {
    pub vendor: EncodedText,
    pub device: EncodedText,
    pub package: EncodedText,
    pub region_0: EncodedText,
    pub region_1: EncodedText,
    pub region_2: EncodedText,
}

/// The six texts of a new project, each with whether the code page lacks one of
/// its characters.
pub struct ProjectTextsView {
    pub vendor: (Seq<u8>, bool),
    pub device: (Seq<u8>, bool),
    pub package: (Seq<u8>, bool),
    pub region_0: (Seq<u8>, bool),
    pub region_1: (Seq<u8>, bool),
    pub region_2: (Seq<u8>, bool),
}

impl View for ProjectTexts {
    type V = ProjectTextsView;

    open spec fn view(&self) -> ProjectTextsView {
        ProjectTextsView {
            vendor: self.vendor@,
            device: self.device@,
            package: self.package@,
            region_0: self.region_0@,
            region_1: self.region_1@,
            region_2: self.region_2@,
        }
    }
}

impl ProjectTextsView {
    /// The first text that the code page cannot represent.
    pub open spec fn unmappable_field(self) -> Option<&'static str> {
        if self.vendor.1 {
            Some("vendor name")
        } else if self.device.1 {
            Some("device name")
        } else if self.package.1 {
            Some("package name")
        } else if self.region_0.1 {
            Some("algorithm region 0")
        } else if self.region_1.1 {
            Some("algorithm region 1")
        } else if self.region_2.1 {
            Some("algorithm region 2")
        } else {
            None
        }
    }

    /// The eight strings of the profile; the fourth and the last stay empty.
    pub open spec fn profile_strings(self) -> Seq<Seq<u8>> {
        seq![
            self.vendor.0,
            self.device.0,
            self.package.0,
            Seq::empty(),
            self.region_0.0,
            self.region_1.0,
            self.region_2.0,
            Seq::empty(),
        ]
    }
}

/// The ranges that a new project stores.
pub open spec fn derived_range_bytes(start: int, length: int, capacity: u32) -> Seq<u8> {
    le32(start as u32) + le32(length as u32) + zeros(4) + le32(capacity) + zeros(4) + le32(capacity)
}

/// The contents of the inputs of a new project.
pub struct AutomaticInputsView {
    pub device: DeviceRecordView,
    pub package_keys: Seq<u8>,
    pub vendor_name: Seq<char>,
    pub algorithm: AlgorithmView,
    pub configuration: Option<ConfigurationView>,
    pub package: PackageRecordView,
    pub operation: ParameterOperation,
    pub region: u32,
    pub project_data: Seq<u8>,
    pub local_time_bcd: [u8; 7],
}

impl<'a> View for AutomaticParameterInputs<'a> {
    type V = AutomaticInputsView;

    open spec fn view(&self) -> AutomaticInputsView {
        AutomaticInputsView {
            device: self.device@,
            package_keys: self.package_keys@,
            vendor_name: self.vendor_name@,
            algorithm: self.algorithm@,
            configuration: match self.configuration {
                Some(configuration) => Some(configuration@),
                None => None,
            },
            package: self.package@,
            operation: self.operation,
            region: self.region,
            project_data: self.project_data@,
            local_time_bcd: self.local_time_bcd,
        }
    }
}

impl AutomaticInputsView {
    /// The first way in which the selected assets do not belong together.
    pub open spec fn binding_error(self) -> Option<DeviceParameterBuildError<Seq<char>>> {
        let stem = self.device.configuration_stem;
        if !self.package_keys.contains(self.package.key) {
            Some(
                DeviceParameterBuildError::PackageUnavailable {
                    key: self.package.key,
                    device: self.device.name,
                },
            )
        } else if !same_ignoring_case(self.algorithm.name, self.device.algorithm_stem) {
            Some(
                DeviceParameterBuildError::AlgorithmMismatch {
                    expected: self.device.algorithm_stem,
                    actual: self.algorithm.name,
                },
            )
        } else if stem is Some && self.configuration is Some && !same_ignoring_case(
            self.configuration.unwrap().name,
            stem.unwrap(),
        ) {
            Some(
                DeviceParameterBuildError::ConfigurationMismatch {
                    expected: stem.unwrap(),
                    actual: self.configuration.unwrap().name,
                },
            )
        } else if needs_configuration(self.operation) && self.configuration is None {
            Some(DeviceParameterBuildError::ConfigurationRequired { stem })
        } else {
            None
        }
    }

    /// Why checked assets with encoded texts cannot be laid out.
    pub open spec fn layout_error(self, texts: ProjectTextsView) -> Option<
        DeviceParameterBuildError<Seq<char>>,
    > {
        if region_of(self.device.raw, self.region as int) is None {
            Some(DeviceParameterBuildError::RegionUnavailable { region: self.region })
        } else if self.device.source_index > u32::MAX {
            Some(DeviceParameterBuildError::IntegerOverflow)
        } else if texts.unmappable_field() is Some {
            Some(
                DeviceParameterBuildError::InvalidProfileText {
                    field: texts.unmappable_field().unwrap(),
                },
            )
        } else if !all_bcd(self.local_time_bcd@) {
            Some(DeviceParameterBuildError::InvalidBcdTime { value: self.local_time_bcd })
        } else {
            None
        }
    }

    /// The bytes that the image of a new project has before its CRC32.
    pub open spec fn project_body(
        &self,
        project: PreparedProjectView,
        strings: Seq<Seq<u8>>,
        data_crc: u32,
    ) -> Seq<u8> {
        let capacity = region_of(self.device.raw, self.region as int).unwrap().1;
        let length = project.end - project.start;
        image_body(
            project_profile(
                self.device,
                self.package,
                self.configuration,
                self.operation,
                self.region,
            ),
            strings,
            self.device.raw,
            self.algorithm,
            project.start,
            length,
            data_crc,
            self.local_time_bcd@,
            derived_range_bytes(project.start, length, capacity),
        )
    }

    /// The texts of the inputs in the code page of the image.
    pub open spec fn encoded_texts(self) -> ProjectTextsView {
        ProjectTextsView {
            vendor: gbk_encoded(self.vendor_name),
            device: gbk_encoded(self.device.name),
            package: gbk_encoded(self.package.package_name),
            region_0: gbk_encoded(self.algorithm.region_names[0]),
            region_1: gbk_encoded(self.algorithm.region_names[1]),
            region_2: gbk_encoded(self.algorithm.region_names[2]),
        }
    }

    /// What the inputs amount to, once their texts are encoded: the prepared
    /// project, or why there is no image.
    pub open spec fn outcome(self, texts: ProjectTextsView) -> Result<
        PreparedProjectView,
        DeviceParameterBuildError<Seq<char>>,
    > {
        match self.binding_error() {
            Some(error) => Err(error),
            None => match prepared_project(self.device.raw, self.region, self.project_data) {
                Err(error) => Err(error),
                Ok(project) => match self.layout_error(texts) {
                    Some(error) => Err(error),
                    None => Ok(project),
                },
            },
        }
    }
}

/// Checks that the selected assets belong together.
///
/// # Errors
///
/// Returns the first mismatch among package, algorithm and configuration.
pub fn validate_asset_bindings(inputs: &AutomaticParameterInputs<'_>) -> (result: Result<
    (),
    DeviceParameterBuildError,
>)
    ensures
        match (result, inputs@.binding_error()) {
            (Ok(_), None) => true,
            (Err(error), Some(reason)) => error@ == reason,
            _ => false,
        },
{
    let key: u8 = inputs.package.key();
    let keys: &[u8] = inputs.package_keys;
    let mut listed: bool = false;
    let mut i: usize = 0;
    while i < keys.len()
        invariant
            i <= keys@.len(),
            listed == keys@.take(i as int).contains(key),
        decreases keys@.len() - i,
    {
        proof {
            let shorter = keys@.take(i as int);
            let longer = keys@.take(i + 1);
            assert(longer =~= shorter.push(keys@[i as int]));
            if shorter.contains(key) {
                let at = choose|at: int| 0 <= at < shorter.len() && shorter[at] == key;
                assert(longer[at] == key);
            }
            if keys@[i as int] == key {
                assert(longer[i as int] == key);
            }
            if longer.contains(key) && keys@[i as int] != key {
                let at = choose|at: int| 0 <= at < longer.len() && longer[at] == key;
                assert(shorter[at] == key);
            }
        }
        if keys[i] == key {
            listed = true;
        }
        i += 1;
    }
    assert(keys@.take(i as int) =~= keys@);
    if !listed {
        return Err(
            DeviceParameterBuildError::PackageUnavailable {
                key,
                device: inputs.device.name().to_owned(),
            },
        );
    }
    if !eq_ignoring_case(inputs.algorithm.name(), inputs.device.algorithm_stem()) {
        return Err(
            DeviceParameterBuildError::AlgorithmMismatch {
                expected: inputs.device.algorithm_stem().to_owned(),
                actual: inputs.algorithm.name().to_owned(),
            },
        );
    }
    let stem: Option<&str> = inputs.device.configuration_stem();
    if let Some(expected) = stem {
        if let Some(configuration) = inputs.configuration {
            if !eq_ignoring_case(configuration.name(), expected) {
                return Err(
                    DeviceParameterBuildError::ConfigurationMismatch {
                        expected: expected.to_owned(),
                        actual: configuration.name().to_owned(),
                    },
                );
            }
        }
    }
    if is_configuration_operation(inputs.operation) && inputs.configuration.is_none() {
        return Err(
            DeviceParameterBuildError::ConfigurationRequired {
                stem: match stem {
                    Some(stem) => Some(stem.to_owned()),
                    None => None,
                },
            },
        );
    }
    Ok(())
}

fn operation_code(operation: ParameterOperation) -> (code: u8)
    ensures
        code == code_of(operation),
{
    match operation {
        ParameterOperation::Prepare => 0,
        ParameterOperation::Program => 1,
        ParameterOperation::Read => 2,
        ParameterOperation::Verify => 3,
        ParameterOperation::BlankCheck => 4,
        ParameterOperation::ConfigurationWrite => 5,
        ParameterOperation::ConfigurationRead => 6,
        ParameterOperation::ChipErase => 7,
        ParameterOperation::Progress => 8,
        ParameterOperation::AutomaticErase => 9,
        ParameterOperation::ConfigurationVerify => 10,
    }
}

fn is_configuration_operation(operation: ParameterOperation) -> (is: bool)
    ensures
        is == needs_configuration(operation),
{
    matches!(
        operation,
        ParameterOperation::ConfigurationWrite | ParameterOperation::ConfigurationRead
            | ParameterOperation::ConfigurationVerify
    )
}

fn region_mask(region: u32) -> (mask: u8)
    ensures
        mask == region_bit(region),
{
    match region {
        0 => 0x01,
        1 => 0x02,
        2 => 0x04,
        3 => 0x08,
        4 => 0x10,
        5 => 0x20,
        6 => 0x40,
        7 => 0x80,
        _ => 0,
    }
}

fn masks_of(operation: ParameterOperation, region: u32) -> (masks: (u8, u8))
    ensures
        masks == region_masks(operation, region),
{
    match operation {
        ParameterOperation::Read => (0, region_mask(region)),
        ParameterOperation::ConfigurationRead => (0, 0x10),
        ParameterOperation::ConfigurationWrite => (0x10, 0),
        ParameterOperation::ConfigurationVerify => (0x10, 0),
        ParameterOperation::Prepare => (region_mask(region), region_mask(region)),
        ParameterOperation::Progress => (region_mask(region), region_mask(region)),
        _ => (region_mask(region), 0),
    }
}

fn end_of_region(start: u32, length: u32) -> (end: u32)
    ensures
        end == region_end(start, length),
{
    if length == 0 {
        0
    } else {
        ((start as u64 + length as u64) % 0x1_0000_0000) as u32
    }
}

/// The profile of a new project before offset `0x3f0`.
fn profile_start_bytes(device: &DeviceRecord) -> (bytes: Vec<u8>)
    requires
        device@.source_index <= u32::MAX,
    ensures
        bytes@ == profile_start(device@),
        bytes@.len() == 0x3f0,
{
    let raw: &[u8] = device.raw();
    let mut bytes: Vec<u8> = Vec::new();
    extend_u32(&mut bytes, 1);
    assert(bytes@ =~= le32(1));
    extend_zeros(&mut bytes, 0xd0);
    extend_u32(&mut bytes, device.source_index() as u32);
    extend_byte(&mut bytes, raw[0x23]);
    extend_byte(&mut bytes, raw[0x22]);
    extend_part(&mut bytes, raw, 0x24, 0x28);
    extend_zeros(&mut bytes, 0x42);
    extend_part(&mut bytes, raw, 0x34, 0x38);
    extend_part(&mut bytes, raw, 0x30, 0x34);
    extend_zeros(&mut bytes, 0x140);
    extend_part(&mut bytes, raw, 0x3c, 0x40);
    extend_part(&mut bytes, raw, 0x38, 0x3c);
    extend_zeros(&mut bytes, 0x180);
    bytes
}

/// The profile of a new project between offsets `0x3f0` and `0x505`.
#[verifier::rlimit(50)]
fn profile_device_bytes(device: &DeviceRecord, package: &PackageRecord) -> (bytes: Vec<u8>)
    ensures
        bytes@ == profile_device(device@, package@),
        bytes@.len() == 0x115,
{
    let raw: &[u8] = device.raw();
    let first_length: u32 = read_u32(raw, 0x30);
    let second_length: u32 = read_u32(raw, 0x38);
    let first_end: u32 = end_of_region(read_u32(raw, 0x34), first_length);
    let second_end: u32 = end_of_region(read_u32(raw, 0x3c), second_length);
    let regions: u8 = if first_length != 0 {
        if second_length != 0 {
            2
        } else {
            1
        }
    } else if second_length != 0 {
        1
    } else {
        0
    };
    let stored_width: u16 = read_u16(raw, 0x40);
    let width: u16 = if stored_width != 0 {
        stored_width
    } else if raw[0x23] == 0x10 {
        2
    } else if raw[0x23] == 0x20 {
        4
    } else {
        1
    };
    let mut bytes: Vec<u8> = Vec::new();
    bytes.push(raw[0x2c]);
    assert(bytes@ =~= seq![raw@[0x2c]]);
    extend_byte(&mut bytes, raw[0x2f]);
    extend_byte(&mut bytes, regions);
    extend_zeros(&mut bytes, 5);
    extend_part(&mut bytes, raw, 0x44, 0x48);
    extend_zeros(&mut bytes, 0x4c);
    extend_u32(
        &mut bytes,
        if device.configuration_stem().is_some() {
            1
        } else {
            0
        },
    );
    extend_part(&mut bytes, raw, 0x28, 0x2a);
    extend_part(&mut bytes, raw, 0x2a, 0x2c);
    extend_u16(&mut bytes, width);
    extend_part(&mut bytes, raw, 0x74, 0x78);
    extend_zeros(&mut bytes, 2);
    extend_part(&mut bytes, raw, 0x70, 0x74);
    extend_u32(
        &mut bytes,
        if first_end < second_end {
            second_end
        } else {
            first_end
        },
    );
    extend_part(&mut bytes, raw, 0x48, 0x4c);
    extend_byte(&mut bytes, package.key());
    extend_zeros(&mut bytes, 1);
    extend_u16(&mut bytes, package.package_type());
    extend_part(&mut bytes, raw, 0x78, 0x7c);
    extend_part(&mut bytes, raw, 0x7c, 0x80);
    extend_part(&mut bytes, raw, 0x80, 0x84);
    extend_zeros(&mut bytes, 0x91);
    bytes
}

/// The profile of a new project from offset `0x505` on.
#[verifier::rlimit(50)]
fn profile_schedule_bytes(
    device: &DeviceRecord,
    configuration: Option<&Configuration>,
    operation: ParameterOperation,
    region: u32,
) -> (bytes: Vec<u8>)
    ensures
        bytes@ == profile_schedule(
            device@,
            match configuration {
                Some(configuration) => Some(configuration@),
                None => None,
            },
            operation,
            region,
        ),
        bytes@.len() == 0x523,
{
    let raw: &[u8] = device.raw();
    let capabilities: u32 = read_u32(raw, 0x48);
    let erases: bool = capabilities & 0x800 != 0;
    let mut steps: Vec<u8> = Vec::new();
    if erases {
        steps.push(0x87);
    }
    assert(steps@ =~= if erases {
        seq![0x87u8]
    } else {
        Seq::empty()
    });
    if erases && capabilities & 0x08 != 0 {
        steps.push(0x84);
    }
    if capabilities & 0x01 != 0 {
        steps.push(0x81);
    }
    if capabilities & 0x04 != 0 {
        steps.push(0x83);
    }
    assert(steps@ == preparatory_steps(capabilities));
    let masks: (u8, u8) = masks_of(operation, region);
    let mut bytes: Vec<u8> = Vec::new();
    bytes.push(
        if erases {
            1
        } else {
            2
        },
    );
    assert(bytes@ =~= seq![
        if erases {
            1u8
        } else {
            2u8
        },
    ]);
    extend(&mut bytes, steps.as_slice());
    extend_zeros(&mut bytes, 16 - steps.len());
    let mut codes: Vec<u8> = Vec::new();
    if matches!(operation, ParameterOperation::Prepare) {
        codes.push(1);
        codes.push(3);
        extend_zeros(&mut codes, 14);
    } else {
        codes.push(operation_code(operation));
        extend_zeros(&mut codes, 15);
    }
    assert(codes@ =~= scheduled_codes(operation));
    extend(&mut bytes, codes.as_slice());
    extend_zeros(&mut bytes, 0x216);
    extend_byte(&mut bytes, masks.0);
    extend_byte(&mut bytes, masks.1);
    match configuration {
        Some(values) => {
            extend(&mut bytes, values.default_block_0());
            extend(&mut bytes, values.default_block_1());
            extend_u32(&mut bytes, values.default_protection_bits());
        },
        None => {
            extend_zeros(&mut bytes, 0x40);
            extend_zeros(&mut bytes, 0x40);
            extend_zeros(&mut bytes, 4);
        },
    }
    extend_part(&mut bytes, raw, 0x28, 0x2a);
    extend_u32(&mut bytes, 0x111);
    extend_zeros(&mut bytes, 0x28);
    extend_u32(&mut bytes, 0x0104_0000);
    let primary: u64 = read_u32(raw, 0x30) as u64;
    extend_u32(&mut bytes, ((primary + 0x1_0000_0000 - 0x10) % 0x1_0000_0000) as u32);
    extend_zeros(&mut bytes, 0x230);
    bytes
}

/// Lays out the bytes of a new project's image that its CRC32 covers, from
/// assets that belong together, a prepared project, encoded texts, and the
/// CRC32 of the aligned range of the project.
///
/// # Errors
///
/// Returns [`DeviceParameterBuildError`] if the region is unavailable, a text
/// is not representable, or the local time is not decimal.
#[verifier::rlimit(50)]
pub fn automatic_parameter_body(
    inputs: &AutomaticParameterInputs<'_>,
    prepared: &PreparedProjectData,
    texts: ProjectTexts,
    data_crc: u32,
) -> (result: Result<Vec<u8>, DeviceParameterBuildError>)
    ensures
        match (result, inputs@.layout_error(texts@)) {
            (Ok(body), None) => body@ == inputs@.project_body(
                prepared@,
                texts@.profile_strings(),
                data_crc,
            ) && body@.len() == DEVICE_PARAMETER_COVERED_BYTES,
            (Err(error), Some(reason)) => error@ == reason,
            _ => false,
        },
{
    let capacity: u32 = region_capacity(inputs.device, inputs.region)? as u32;
    if inputs.device.source_index() > 0xffff_ffff {
        return Err(DeviceParameterBuildError::IntegerOverflow);
    }
    let mut profile: Vec<u8> = profile_start_bytes(inputs.device);
    extend(&mut profile, profile_device_bytes(inputs.device, inputs.package).as_slice());
    extend(
        &mut profile,
        profile_schedule_bytes(
            inputs.device,
            inputs.configuration,
            inputs.operation,
            inputs.region,
        ).as_slice(),
    );
    if texts.vendor.unmappable {
        return Err(DeviceParameterBuildError::InvalidProfileText { field: "vendor name" });
    }
    if texts.device.unmappable {
        return Err(DeviceParameterBuildError::InvalidProfileText { field: "device name" });
    }
    if texts.package.unmappable {
        return Err(DeviceParameterBuildError::InvalidProfileText { field: "package name" });
    }
    if texts.region_0.unmappable {
        return Err(DeviceParameterBuildError::InvalidProfileText { field: "algorithm region 0" });
    }
    if texts.region_1.unmappable {
        return Err(DeviceParameterBuildError::InvalidProfileText { field: "algorithm region 1" });
    }
    if texts.region_2.unmappable {
        return Err(DeviceParameterBuildError::InvalidProfileText { field: "algorithm region 2" });
    }
    let mut fields = ProfileTextFields::default();
    fields.set(ProfileTextField::Source0050, texts.vendor.bytes);
    fields.set(ProfileTextField::Source000e, texts.device.bytes);
    fields.set(ProfileTextField::Source0092, texts.package.bytes);
    fields.set(ProfileTextField::Source00e0, texts.region_0.bytes);
    fields.set(ProfileTextField::Source0228, texts.region_1.bytes);
    fields.set(ProfileTextField::Source0370, texts.region_2.bytes);
    assert(fields@ =~= texts@.profile_strings());
    let range: Range<usize> = prepared.range();
    let mut derived: Vec<u8> = Vec::new();
    extend_u32(&mut derived, range.start as u32);
    assert(derived@ =~= le32(range.start as u32));
    extend_u32(&mut derived, (range.end - range.start) as u32);
    extend_zeros(&mut derived, 4);
    extend_u32(&mut derived, capacity);
    extend_zeros(&mut derived, 4);
    extend_u32(&mut derived, capacity);
    let profile_bytes: [u8; RUNTIME_PROFILE_BYTES] = to_array(profile.as_slice());
    device_parameter_body(
        &DeviceParameterInputs {
            runtime_profile: &profile_bytes,
            profile_text: &fields,
            device_record: inputs.device.raw(),
            algorithm: inputs.algorithm,
            project_data: prepared.bytes(),
            data_range: range,
            local_time_bcd: inputs.local_time_bcd,
            derived_ranges: to_array(derived.as_slice()),
        },
        data_crc,
    )
}

/// A text in the code page of the image.
fn encode_profile_text(value: &str) -> (text: EncodedText)
    ensures
        text@ == gbk_encoded(value@),
{
    let (bytes, unmappable) = encode_gbk(value);
    EncodedText { bytes, unmappable }
}

/// Constructs an image from a selected device and the operation to run.
///
/// The device record supplies capacity, addressing, capability, algorithm, and
/// configuration references. Configuration defaults and algorithm region names
/// go to the fields of a new project.
///
/// # Errors
///
/// Returns [`DeviceParameterBuildError`] if the selected assets do not match,
/// the region is unavailable, the input is too large, text is not representable
/// in the code page of the image, or the local time is not decimal.
pub fn build_automatic_device_parameters(inputs: &AutomaticParameterInputs<'_>) -> (result: Result<
    DeviceParameterImage,
    DeviceParameterBuildError,
>)
    ensures
        match (result, inputs@.outcome(inputs@.encoded_texts())) {
            (Ok(image), Ok(project)) => image@ == sealed(
                inputs@.project_body(
                    project,
                    inputs@.encoded_texts().profile_strings(),
                    crc32(project.selected()),
                ),
            ),
            (Err(error), Err(reason)) => error@ == reason,
            _ => false,
        },
{
    validate_asset_bindings(inputs)?;
    let prepared = prepare_project_data(inputs.device, inputs.region, inputs.project_data)?;
    let names: &[String; 3] = inputs.algorithm.region_names();
    assert(inputs.algorithm@.region_names[0] == names@[0]@);
    assert(inputs.algorithm@.region_names[1] == names@[1]@);
    assert(inputs.algorithm@.region_names[2] == names@[2]@);
    let texts = ProjectTexts {
        vendor: encode_profile_text(inputs.vendor_name),
        device: encode_profile_text(inputs.device.name()),
        package: encode_profile_text(inputs.package.package_name()),
        region_0: encode_profile_text(names[0].as_str()),
        region_1: encode_profile_text(names[1].as_str()),
        region_2: encode_profile_text(names[2].as_str()),
    };
    let data_crc: u32 = hash(prepared.operation_bytes());
    assert(texts@ == inputs@.encoded_texts());
    let body: Vec<u8> = automatic_parameter_body(inputs, &prepared, texts, data_crc)?;
    Ok(seal(body))
}

/// An image that was built is well-formed: its header and its CRC32 pass the
/// checks of a supplied image.
#[verifier::rlimit(50)]
pub proof fn law_built_images_are_well_formed(
    profile: Seq<u8>,
    texts: Seq<Seq<u8>>,
    device_record: Seq<u8>,
    algorithm: AlgorithmView,
    start: int,
    length: int,
    data_crc: u32,
    local_time: Seq<u8>,
    derived_ranges: Seq<u8>,
)
    requires
        profile.len() == RUNTIME_PROFILE_BYTES,
        device_record.len() == DEVICE_RECORD_BYTES,
        local_time.len() == 7,
        derived_ranges.len() == DERIVED_RANGE_BYTES,
        algorithm.valid(),
    ensures
        ({
            let image = sealed(
                image_body(
                    profile,
                    texts,
                    device_record,
                    algorithm,
                    start,
                    length,
                    data_crc,
                    local_time,
                    derived_ranges,
                ),
            );
            &&& image.len() == DEVICE_PARAMETER_BYTES
            &&& sprj_error(image, crc32(image.take(DEVICE_PARAMETER_COVERED_BYTES as int))) is None
        }),
{
    let header = image_header(profile);
    let body = image_body(
        profile,
        texts,
        device_record,
        algorithm,
        start,
        length,
        data_crc,
        local_time,
        derived_ranges,
    );
    let image = sealed(body);
    lemma_part_lengths(
        profile,
        texts,
        device_record,
        algorithm,
        start,
        length,
        data_crc,
        local_time,
        derived_ranges,
    );
    assert forall|i: int| 0 <= i < 0x10 implies image[i] == header[i] by {}
    assert forall|i: int| 0 <= i < 4 implies image[0x7fc + i] == le32(crc32(body))[i] by {}
    assert(image.take(DEVICE_PARAMETER_COVERED_BYTES as int) =~= body);
    lemma_le32_reads_back(DEVICE_PARAMETER_FORMAT);
    lemma_le16_reads_back(DEVICE_PARAMETER_LAYOUT);
    lemma_le32_reads_back(crc32(body));
    assert(image.take(4) =~= seq![0x53u8, 0x50, 0x52, 0x4a]);
    assert(u32_at(image, 0x04) == u32_at(le32(DEVICE_PARAMETER_FORMAT), 0));
    assert(u16_at(image, 0x08) == u16_at(le16(DEVICE_PARAMETER_LAYOUT), 0));
    assert(u32_at(image, 0x7fc) == u32_at(le32(crc32(body)), 0));
}

/// An image that was built identifies its algorithm. A name of sixteen
/// characters does not fit its field; no such algorithm can be sent.
#[verifier::rlimit(50)]
pub proof fn law_built_images_identify_their_algorithm(
    profile: Seq<u8>,
    texts: Seq<Seq<u8>>,
    device_record: Seq<u8>,
    algorithm: AlgorithmView,
    start: int,
    length: int,
    data_crc: u32,
    local_time: Seq<u8>,
    derived_ranges: Seq<u8>,
)
    requires
        profile.len() == RUNTIME_PROFILE_BYTES,
        device_record.len() == DEVICE_RECORD_BYTES,
        local_time.len() == 7,
        derived_ranges.len() == DERIVED_RANGE_BYTES,
        algorithm.valid(),
        encodable_name(algorithm.name),
    ensures
        metadata_error(
            sealed(
                image_body(
                    profile,
                    texts,
                    device_record,
                    algorithm,
                    start,
                    length,
                    data_crc,
                    local_time,
                    derived_ranges,
                ),
            ),
            algorithm,
        ) is None,
{
    let identity = image_identity(algorithm);
    let image = sealed(
        image_body(
            profile,
            texts,
            device_record,
            algorithm,
            start,
            length,
            data_crc,
            local_time,
            derived_ranges,
        ),
    );
    lemma_part_lengths(
        profile,
        texts,
        device_record,
        algorithm,
        start,
        length,
        data_crc,
        local_time,
        derived_ranges,
    );
    assert forall|i: int| 0 <= i < 0x20 implies image[0x540 + i] == identity[i] by {}
    let codes = bytes_of_chars(algorithm.name);
    let field = image.subrange(0x540, 0x550);
    let area = text_area(codes, 0x10);
    assert(area =~= codes + zeros((16 - codes.len()) as nat));
    assert(field =~= area);
    assert forall|i: int| 0 <= i < codes.len() implies field[i] != 0 by {
        assert(algorithm.name[i] != '\0');
        assert('\0' <= algorithm.name[i] && algorithm.name[i] <= '\u{7f}');
    }
    lemma_until_nul(field, codes.len() as int);
    assert(field.take(codes.len() as int) =~= codes);
    lemma_ascii_codes_are_lossless(algorithm.name);
    assert(image.subrange(0x550, 0x558) =~= algorithm.timestamp);
    lemma_le32_reads_back(algorithm.payload.len() as u32);
    lemma_le32_reads_back(algorithm.payload_crc32);
    assert(u32_at(image, 0x558) == u32_at(le32(algorithm.payload.len() as u32), 0));
    assert(u32_at(image, 0x55c) == u32_at(le32(algorithm.payload_crc32), 0));
}

pub(crate) proof fn lemma_profile_start_length(device: DeviceRecordView)
    requires
        device.raw.len() == DEVICE_RECORD_BYTES,
    ensures
        profile_start(device).len() == 0x3f0,
{
}

pub(crate) proof fn lemma_profile_device_length(device: DeviceRecordView, package: PackageRecordView)
    requires
        device.raw.len() == DEVICE_RECORD_BYTES,
    ensures
        profile_device(device, package).len() == 0x115,
{
}

pub(crate) proof fn lemma_profile_schedule_length(
    device: DeviceRecordView,
    configuration: Option<ConfigurationView>,
    operation: ParameterOperation,
    region: u32,
)
    requires
        device.raw.len() == DEVICE_RECORD_BYTES,
        configuration matches Some(values) ==> values.default_block_0.len() == 0x40
            && values.default_block_1.len() == 0x40,
    ensures
        profile_schedule(device, configuration, operation, region).len() == 0x523,
{
    assert(preparatory_steps(u32_at(device.raw, 0x48)).len() <= 4);
    assert(scheduled_codes(operation).len() == 16);
}

/// A runtime profile has its size.
pub(crate) proof fn lemma_profile_length(
    device: DeviceRecordView,
    package: PackageRecordView,
    configuration: Option<ConfigurationView>,
    operation: ParameterOperation,
    region: u32,
)
    requires
        device.raw.len() == DEVICE_RECORD_BYTES,
        configuration matches Some(values) ==> values.default_block_0.len() == 0x40
            && values.default_block_1.len() == 0x40,
    ensures
        project_profile(device, package, configuration, operation, region).len()
            == RUNTIME_PROFILE_BYTES,
{
    lemma_profile_start_length(device);
    lemma_profile_device_length(device, package);
    lemma_profile_schedule_length(device, configuration, operation, region);
}

/// The image of a new project is well-formed.
#[verifier::rlimit(40)]
pub proof fn law_project_images_are_well_formed(
    inputs: AutomaticInputsView,
    project: PreparedProjectView,
    strings: Seq<Seq<u8>>,
    data_crc: u32,
)
    requires
        inputs.device.raw.len() == DEVICE_RECORD_BYTES,
        inputs.algorithm.valid(),
        inputs.configuration matches Some(values) ==> values.default_block_0.len() == 0x40
            && values.default_block_1.len() == 0x40,
    ensures
        ({
            let image = sealed(inputs.project_body(project, strings, data_crc));
            &&& image.len() == DEVICE_PARAMETER_BYTES
            &&& sprj_error(image, crc32(image.take(DEVICE_PARAMETER_COVERED_BYTES as int))) is None
        }),
{
    let capacity = region_of(inputs.device.raw, inputs.region as int).unwrap().1;
    let length = project.end - project.start;
    let profile = project_profile(
        inputs.device,
        inputs.package,
        inputs.configuration,
        inputs.operation,
        inputs.region,
    );
    lemma_profile_length(
        inputs.device,
        inputs.package,
        inputs.configuration,
        inputs.operation,
        inputs.region,
    );
    law_built_images_are_well_formed(
        profile,
        strings,
        inputs.device.raw,
        inputs.algorithm,
        project.start,
        length,
        data_crc,
        inputs.local_time_bcd@,
        derived_range_bytes(project.start, length, capacity),
    );
}

/// An image stores the device record unchanged, and the range of project data
/// and its CRC32 in its metadata.
#[verifier::rlimit(50)]
pub proof fn law_images_describe_device_and_data(
    profile: Seq<u8>,
    texts: Seq<Seq<u8>>,
    device_record: Seq<u8>,
    algorithm: AlgorithmView,
    start: int,
    length: int,
    data_crc: u32,
    local_time: Seq<u8>,
    derived_ranges: Seq<u8>,
)
    requires
        profile.len() == RUNTIME_PROFILE_BYTES,
        device_record.len() == DEVICE_RECORD_BYTES,
        local_time.len() == 7,
        derived_ranges.len() == DERIVED_RANGE_BYTES,
        algorithm.valid(),
        0 <= start <= u32::MAX,
        0 <= length <= u32::MAX,
    ensures
        ({
            let body = image_body(
                profile,
                texts,
                device_record,
                algorithm,
                start,
                length,
                data_crc,
                local_time,
                derived_ranges,
            );
            &&& body.subrange(0x10, 0x17) == local_time
            &&& body.subrange(0x90, 0x120) == device_record
            &&& u32_at(body, 0x56c) == start
            &&& u32_at(body, 0x570) == length
            &&& u32_at(body, 0x574) == data_crc
            &&& body.subrange(0x578, 0x590) == derived_ranges
        }),
{
    let titles = image_titles(profile, texts, device_record, local_time);
    let project = image_project(profile, start, length, data_crc, derived_ranges);
    let body = image_body(
        profile,
        texts,
        device_record,
        algorithm,
        start,
        length,
        data_crc,
        local_time,
        derived_ranges,
    );
    lemma_part_lengths(
        profile,
        texts,
        device_record,
        algorithm,
        start,
        length,
        data_crc,
        local_time,
        derived_ranges,
    );
    assert forall|i: int| 0 <= i < 0x310 implies body[0x10 + i] == titles[i] by {}
    assert forall|i: int| 0 <= i < 0x29c implies body[0x560 + i] == project[i] by {}
    assert(body.subrange(0x10, 0x17) =~= titles.subrange(0, 7));
    assert(titles.subrange(0, 7) =~= local_time);
    assert(body.subrange(0x90, 0x120) =~= titles.subrange(0x80, 0x110));
    assert(titles.subrange(0x80, 0x110) =~= device_record);
    lemma_le32_reads_back(start as u32);
    lemma_le32_reads_back(length as u32);
    lemma_le32_reads_back(data_crc);
    assert(u32_at(body, 0x56c) == u32_at(le32(start as u32), 0));
    assert(u32_at(body, 0x570) == u32_at(le32(length as u32), 0));
    assert(u32_at(body, 0x574) == u32_at(le32(data_crc), 0));
    assert(body.subrange(0x578, 0x590) =~= project.subrange(0x18, 0x30));
    assert(project.subrange(0x18, 0x30) =~= derived_ranges);
}

/// The parts of an image fill the places that they have in it.
#[verifier::rlimit(50)]
pub(crate) proof fn lemma_part_lengths(
    profile: Seq<u8>,
    texts: Seq<Seq<u8>>,
    device_record: Seq<u8>,
    algorithm: AlgorithmView,
    start: int,
    length: int,
    data_crc: u32,
    local_time: Seq<u8>,
    derived_ranges: Seq<u8>,
)
    requires
        profile.len() == RUNTIME_PROFILE_BYTES,
        device_record.len() == DEVICE_RECORD_BYTES,
        local_time.len() == 7,
        derived_ranges.len() == DERIVED_RANGE_BYTES,
        algorithm.valid(),
    ensures
        image_header(profile).len() == 0x10,
        image_titles(profile, texts, device_record, local_time).len() == 0x310,
        image_settings(profile, texts).len() == 0x220,
        image_identity(algorithm).len() == 0x20,
        image_project(profile, start, length, data_crc, derived_ranges).len() == 0x29c,
{
    lemma_text_area(texts[0], 0x20);
    lemma_text_area(texts[1], 0x20);
    lemma_text_area(texts[2], 0x20);
    lemma_text_area(kept_path(texts[3], 0x104), 0x104);
    lemma_text_area(texts[4], 0x20);
    lemma_text_area(texts[5], 0x20);
    lemma_text_area(texts[6], 0x40);
    lemma_text_area(texts[7], 0x104);
    lemma_text_area(bytes_of_chars(algorithm.name), 0x10);
}

/// The image of a new project holds names of ASCII characters as they are: the
/// vendor, the device, the package and the regions of the algorithm, each cut to
/// its field.
#[verifier::rlimit(50)]
pub proof fn law_ascii_names_stand_in_the_image(
    inputs: AutomaticInputsView,
    project: PreparedProjectView,
    data_crc: u32,
)
    requires
        inputs.device.raw.len() == DEVICE_RECORD_BYTES,
        inputs.algorithm.valid(),
        inputs.configuration matches Some(values) ==> values.default_block_0.len() == 0x40
            && values.default_block_1.len() == 0x40,
    ensures
        ({
            let image = sealed(
                inputs.project_body(project, inputs.encoded_texts().profile_strings(), data_crc),
            );
            let regions = inputs.algorithm.region_names;
            &&& is_ascii_text(inputs.vendor_name) ==> image.subrange(0x20, 0x40) == text_area(
                bytes_of_chars(inputs.vendor_name),
                0x20,
            )
            &&& is_ascii_text(inputs.device.name) ==> image.subrange(0x40, 0x60) == text_area(
                bytes_of_chars(inputs.device.name),
                0x20,
            )
            &&& is_ascii_text(inputs.package.package_name) ==> image.subrange(0x60, 0x80)
                == text_area(bytes_of_chars(inputs.package.package_name), 0x20)
            &&& is_ascii_text(regions[0]) ==> image.subrange(0x2a0, 0x2c0) == text_area(
                bytes_of_chars(regions[0]),
                0x20,
            )
            &&& is_ascii_text(regions[1]) ==> image.subrange(0x2c0, 0x2e0) == text_area(
                bytes_of_chars(regions[1]),
                0x20,
            )
            &&& is_ascii_text(regions[2]) ==> image.subrange(0x2e0, 0x320) == text_area(
                bytes_of_chars(regions[2]),
                0x40,
            )
        }),
{
    let texts = inputs.encoded_texts();
    let strings = texts.profile_strings();
    lemma_verbatim(inputs.vendor_name);
    lemma_verbatim(inputs.device.name);
    lemma_verbatim(inputs.package.package_name);
    lemma_verbatim(inputs.algorithm.region_names[0]);
    lemma_verbatim(inputs.algorithm.region_names[1]);
    lemma_verbatim(inputs.algorithm.region_names[2]);
    lemma_image_texts(inputs, project, strings, data_crc);
}

proof fn lemma_verbatim(text: Seq<char>)
    ensures
        is_ascii_text(text) ==> gbk_encoded(text).0 == bytes_of_chars(text),
{
    if is_ascii_text(text) {
        law_ascii_is_encoded_verbatim(text);
    }
}

/// Where the strings of the profile stand in an image.
#[verifier::rlimit(50)]
proof fn lemma_image_texts(
    inputs: AutomaticInputsView,
    project: PreparedProjectView,
    strings: Seq<Seq<u8>>,
    data_crc: u32,
)
    requires
        inputs.device.raw.len() == DEVICE_RECORD_BYTES,
        inputs.algorithm.valid(),
        inputs.configuration matches Some(values) ==> values.default_block_0.len() == 0x40
            && values.default_block_1.len() == 0x40,
    ensures
        ({
            let image = sealed(inputs.project_body(project, strings, data_crc));
            &&& image.subrange(0x20, 0x40) == text_area(strings[0], 0x20)
            &&& image.subrange(0x40, 0x60) == text_area(strings[1], 0x20)
            &&& image.subrange(0x60, 0x80) == text_area(strings[2], 0x20)
            &&& image.subrange(0x2a0, 0x2c0) == text_area(strings[4], 0x20)
            &&& image.subrange(0x2c0, 0x2e0) == text_area(strings[5], 0x20)
            &&& image.subrange(0x2e0, 0x320) == text_area(strings[6], 0x40)
        }),
{
    let capacity = region_of(inputs.device.raw, inputs.region as int).unwrap().1;
    let length = project.end - project.start;
    let profile = project_profile(
        inputs.device,
        inputs.package,
        inputs.configuration,
        inputs.operation,
        inputs.region,
    );
    lemma_profile_length(
        inputs.device,
        inputs.package,
        inputs.configuration,
        inputs.operation,
        inputs.region,
    );
    lemma_part_lengths(
        profile,
        strings,
        inputs.device.raw,
        inputs.algorithm,
        project.start,
        length,
        data_crc,
        inputs.local_time_bcd@,
        derived_range_bytes(project.start, length, capacity),
    );
    let titles = image_titles(profile, strings, inputs.device.raw, inputs.local_time_bcd@);
    let image = sealed(inputs.project_body(project, strings, data_crc));
    lemma_text_area(strings[0], 0x20);
    lemma_text_area(strings[1], 0x20);
    lemma_text_area(strings[2], 0x20);
    lemma_text_area(kept_path(strings[3], 0x104), 0x104);
    lemma_text_area(strings[4], 0x20);
    lemma_text_area(strings[5], 0x20);
    lemma_text_area(strings[6], 0x40);
    assert(image.subrange(0x10, 0x320) =~= titles);
    lemma_title_texts(profile, strings, inputs.device.raw, inputs.local_time_bcd@);
    assert(image.subrange(0x20, 0x40) =~= titles.subrange(0x10, 0x30));
    assert(image.subrange(0x40, 0x60) =~= titles.subrange(0x30, 0x50));
    assert(image.subrange(0x60, 0x80) =~= titles.subrange(0x50, 0x70));
    assert(image.subrange(0x2a0, 0x2c0) =~= titles.subrange(0x290, 0x2b0));
    assert(image.subrange(0x2c0, 0x2e0) =~= titles.subrange(0x2b0, 0x2d0));
    assert(image.subrange(0x2e0, 0x320) =~= titles.subrange(0x2d0, 0x310));
}

proof fn lemma_title_texts(
    profile: Seq<u8>,
    texts: Seq<Seq<u8>>,
    device_record: Seq<u8>,
    local_time: Seq<u8>,
)
    requires
        profile.len() == RUNTIME_PROFILE_BYTES,
        device_record.len() == DEVICE_RECORD_BYTES,
        local_time.len() == 7,
    ensures
        ({
            let titles = image_titles(profile, texts, device_record, local_time);
            &&& titles.len() == 0x310
            &&& titles.subrange(0x10, 0x30) == text_area(texts[0], 0x20)
            &&& titles.subrange(0x30, 0x50) == text_area(texts[1], 0x20)
            &&& titles.subrange(0x50, 0x70) == text_area(texts[2], 0x20)
            &&& titles.subrange(0x290, 0x2b0) == text_area(texts[4], 0x20)
            &&& titles.subrange(0x2b0, 0x2d0) == text_area(texts[5], 0x20)
            &&& titles.subrange(0x2d0, 0x310) == text_area(texts[6], 0x40)
        }),
{
    let titles = image_titles(profile, texts, device_record, local_time);
    lemma_text_area(texts[0], 0x20);
    lemma_text_area(texts[1], 0x20);
    lemma_text_area(texts[2], 0x20);
    lemma_text_area(kept_path(texts[3], 0x104), 0x104);
    lemma_text_area(texts[4], 0x20);
    lemma_text_area(texts[5], 0x20);
    lemma_text_area(texts[6], 0x40);
    assert(titles.subrange(0x10, 0x30) =~= text_area(texts[0], 0x20));
    assert(titles.subrange(0x30, 0x50) =~= text_area(texts[1], 0x20));
    assert(titles.subrange(0x50, 0x70) =~= text_area(texts[2], 0x20));
    assert(titles.subrange(0x290, 0x2b0) =~= text_area(texts[4], 0x20));
    assert(titles.subrange(0x2b0, 0x2d0) =~= text_area(texts[5], 0x20));
    assert(titles.subrange(0x2d0, 0x310) =~= text_area(texts[6], 0x40));
}

/// The words of the derived ranges.
proof fn lemma_derived_ranges(start: int, length: int, capacity: u32)
    requires
        0 <= start <= u32::MAX,
        0 <= length <= u32::MAX,
    ensures
        ({
            let ranges = derived_range_bytes(start, length, capacity);
            &&& ranges.len() == DERIVED_RANGE_BYTES
            &&& u32_at(ranges, 0x00) == start
            &&& u32_at(ranges, 0x04) == length
            &&& u32_at(ranges, 0x0c) == capacity
            &&& u32_at(ranges, 0x14) == capacity
        }),
{
    lemma_le32_reads_back(start as u32);
    lemma_le32_reads_back(length as u32);
    lemma_le32_reads_back(capacity);
    let ranges = derived_range_bytes(start, length, capacity);
    assert(u32_at(ranges, 0x00) == u32_at(le32(start as u32), 0));
    assert(u32_at(ranges, 0x04) == u32_at(le32(length as u32), 0));
    assert(u32_at(ranges, 0x0c) == u32_at(le32(capacity), 0));
    assert(u32_at(ranges, 0x14) == u32_at(le32(capacity), 0));
}

/// A word of a part is a word of the whole.
proof fn lemma_word_of_part(whole: Seq<u8>, start: int, end: int, offset: int)
    requires
        0 <= start <= end <= whole.len(),
        0 <= offset <= end - start - 4,
    ensures
        u32_at(whole, start + offset) == u32_at(whole.subrange(start, end), offset),
{
}

/// The image of a new project states the aligned range of its data, the CRC32 of
/// what lies in the range, and the capacity of the region, and repeats range and
/// capacity among the derived ranges.
#[verifier::rlimit(40)]
pub proof fn law_project_images_describe_their_range(
    inputs: AutomaticInputsView,
    project: PreparedProjectView,
    strings: Seq<Seq<u8>>,
    data_crc: u32,
)
    requires
        inputs.device.raw.len() == DEVICE_RECORD_BYTES,
        inputs.algorithm.valid(),
        inputs.configuration matches Some(values) ==> values.default_block_0.len() == 0x40
            && values.default_block_1.len() == 0x40,
        0 <= project.start <= project.end <= u32::MAX,
    ensures
        ({
            let image = sealed(inputs.project_body(project, strings, data_crc));
            &&& u32_at(image, 0x56c) == project.start
            &&& u32_at(image, 0x570) == project.end - project.start
            &&& u32_at(image, 0x574) == data_crc
            &&& u32_at(image, 0x578) == project.start
            &&& u32_at(image, 0x57c) == project.end - project.start
            &&& region_of(inputs.device.raw, inputs.region as int) matches Some((_, capacity))
                ==> u32_at(image, 0x584) == capacity && u32_at(image, 0x58c) == capacity
        }),
{
    let capacity = region_of(inputs.device.raw, inputs.region as int).unwrap().1;
    let length = project.end - project.start;
    let profile = project_profile(
        inputs.device,
        inputs.package,
        inputs.configuration,
        inputs.operation,
        inputs.region,
    );
    lemma_profile_length(
        inputs.device,
        inputs.package,
        inputs.configuration,
        inputs.operation,
        inputs.region,
    );
    let ranges = derived_range_bytes(project.start, length, capacity);
    law_images_describe_device_and_data(
        profile,
        strings,
        inputs.device.raw,
        inputs.algorithm,
        project.start,
        length,
        data_crc,
        inputs.local_time_bcd@,
        ranges,
    );
    lemma_part_lengths(
        profile,
        strings,
        inputs.device.raw,
        inputs.algorithm,
        project.start,
        length,
        data_crc,
        inputs.local_time_bcd@,
        ranges,
    );
    lemma_derived_ranges(project.start, length, capacity);
    let body = inputs.project_body(project, strings, data_crc);
    lemma_sealed_words(body);
    lemma_word_of_part(body, 0x578, 0x590, 0x00);
    lemma_word_of_part(body, 0x578, 0x590, 0x04);
    lemma_word_of_part(body, 0x578, 0x590, 0x0c);
    lemma_word_of_part(body, 0x578, 0x590, 0x14);
}

/// Sealing keeps the words of a body.
proof fn lemma_sealed_words(body: Seq<u8>)
    requires
        body.len() == DEVICE_PARAMETER_COVERED_BYTES,
    ensures
        forall|offset: int|
            0 <= offset <= 0x7f8 ==> #[trigger] u32_at(sealed(body), offset) == u32_at(
                body,
                offset,
            ),
{
    assert forall|offset: int| 0 <= offset <= 0x7f8 implies #[trigger] u32_at(
        sealed(body),
        offset,
    ) == u32_at(body, offset) by {
        let image = sealed(body);
        assert(image[offset] == body[offset] && image[offset + 1] == body[offset + 1] && image[offset
            + 2] == body[offset + 2] && image[offset + 3] == body[offset + 3]);
    }
}

/// An offset of the runtime profile that no value of a new project is known for.
pub open spec fn is_unnamed(offset: int) -> bool {
    ||| 0x004 <= offset < 0x0d4
    ||| 0x0de <= offset < 0x120
    ||| 0x128 <= offset < 0x268
    ||| 0x270 <= offset < 0x3f0
    ||| 0x3f3 <= offset < 0x3f8
    ||| 0x3fc <= offset < 0x448
    ||| 0x456 <= offset < 0x458
    ||| offset == 0x465
    ||| 0x474 <= offset < 0x505
    ||| 0x526 <= offset < 0x73c
    ||| 0x7c8 <= offset < 0x7f0
    ||| 0x7f8 <= offset < 0xa28
}

/// The runtime profile of a new project is zero wherever no value is known.
pub proof fn law_unnamed_profile_bytes_are_zero(
    device: DeviceRecordView,
    package: PackageRecordView,
    configuration: Option<ConfigurationView>,
    operation: ParameterOperation,
    region: u32,
    offset: int,
)
    requires
        device.raw.len() == DEVICE_RECORD_BYTES,
        configuration matches Some(values) ==> values.default_block_0.len() == 0x40
            && values.default_block_1.len() == 0x40,
        is_unnamed(offset),
    ensures
        project_profile(device, package, configuration, operation, region)[offset] == 0,
{
    lemma_profile_start_length(device);
    lemma_profile_device_length(device, package);
    lemma_profile_schedule_length(device, configuration, operation, region);
    let profile = project_profile(device, package, configuration, operation, region);
    if offset < 0x3f0 {
        assert(profile[offset] == profile_start(device)[offset]);
    } else if offset < 0x505 {
        assert(profile[offset] == profile_device(device, package)[offset - 0x3f0]);
    } else {
        assert(preparatory_steps(u32_at(device.raw, 0x48)).len() <= 4);
        assert(scheduled_codes(operation).len() == 16);
        assert(profile[offset] == profile_schedule(device, configuration, operation, region)[offset
            - 0x505]);
    }
}

/// Inputs are laid out if and only if each byte of the time holds two decimal digits,
/// the range lies in the project data, and its start and its length fit 32 bits. The
/// data that the image describes are those of the range.
pub proof fn law_described_data(inputs: DeviceParameterInputs<'_>)
    ensures
        inputs.refusal() is None <==> {
            let range = inputs.data_range;
            &&& forall|i: int|
                0 <= i < inputs.local_time_bcd@.len() ==> (#[trigger] inputs.local_time_bcd@[i])
                    / 16 <= 9 && inputs.local_time_bcd@[i] % 16 <= 9
            &&& range.start <= range.end <= inputs.project_data@.len()
            &&& range.start <= 0xffff_ffff && range.end - range.start <= 0xffff_ffff
        },
        inputs.refusal() is None ==> {
            let data = inputs.selected_data();
            &&& data.len() == inputs.data_range.end - inputs.data_range.start
            &&& forall|i: int|
                0 <= i < data.len() ==> #[trigger] data[i] == inputs.project_data@[
                inputs.data_range.start + i]
        },
{
    let time = inputs.local_time_bcd@;
    if all_bcd(time) {
        assert forall|i: int| 0 <= i < time.len() implies (#[trigger] time[i]) / 16 <= 9 && time[i]
            % 16 <= 9 by {
            assert(is_bcd(time[i]));
        }
    }
}

} // verus!
