//! From what a user asks for to what is sent to a programmer: choosing assets,
//! checking lengths and confirmations, and judging a readback.

use vstd::prelude::*;
use vstd::slice::slice_subrange;
use vstd::string::*;

use crate::assets::algorithm::{
    algorithm_file, covered_bytes, law_parsed_algorithms_are_valid, payload_bytes, Algorithm,
    AlgorithmError, AlgorithmView,
};
use crate::assets::configuration::{
    self, lemma_default_blocks, parsed_configuration, Configuration, ConfigurationError,
    ConfigurationView,
};
use crate::assets::device_db::{
    candidate_text, is_selected_by, law_data_regions, region_of, DeviceDatabase, DeviceDatabaseView,
    DeviceRecord, DeviceRecordView, DeviceSelection, DeviceSelectionError, DEVICE_RECORD_BYTES,
};
use crate::assets::embedded_algorithms::{self, embedded_algorithm, EmbeddedAlgorithm};
use crate::assets::embedded_configurations::{
    self, embedded_configuration, EmbeddedConfiguration,
};
use crate::assets::package_map::{
    law_routes_stand_under_their_keys, parsed_map, PackageMap, PackageRecord, PackageRecordView,
};
use crate::assets::registry::{found_asset, law_found_assets_have_the_stem, AssetView};
use crate::auto_identify::key_lists;
use crate::bytes::{all_bcd, half, is_bcd, same_bytes, to_array, u32_at, word};
use crate::checksum::crc32;
use crate::layout::{
    copies, has_bit, has_masks, law_images_schedule_their_operation, law_new_project_layout,
};
use crate::parameters::{
    build_automatic_device_parameters, law_aligned_range_covers_the_project,
    law_project_images_are_well_formed, law_project_images_describe_their_range,
    prepare_project_data, prepared_project, sealed,
    AutomaticInputsView, AutomaticParameterInputs, DeviceParameterBuildError, ParameterOperation,
    PreparedProjectData, PreparedProjectView,
};
use crate::protocol::{
    metadata_error, sprj_error, DeviceParameterImage, ProtocolError, CONFIGURATION_READ_BYTES,
    DEVICE_PARAMETER_BYTES, DEVICE_PARAMETER_COVERED_BYTES,
};
use crate::report::{describe_package, format_keys, key_list, package_text};
use crate::text::{
    decimal, lemma_case_is_an_equivalence, push_decimal, same_ignoring_case,
};

verus! {

/// Shortest readback that tells Flash data from a parameter image.
pub const MINIMUM_DISTINCTIVE_PREFIX_BYTES: usize = 0x20;

/// Reasons not to start a command.
#[allow(inconsistent_fields)]
#[derive(Debug, Clone, Copy, PartialEq, Eq, Structural)]
pub enum RequestError {
    /// The command was not confirmed.
    ConfirmationRequired,
    /// The protocol was not accepted.
    OptInRequired,
    ZeroLength,
    LengthOverflow { length: usize },
    RegionUnavailable { region: u32 },
    LengthExceedsRegion { length: usize, region: u32, capacity: usize },
    YearOutOfRange { year: i32 },
    /// The chunks of a blank check have no such size.
    BlankChunk { chunk: usize },
    /// A progress stream of no records was asked for.
    NoRecords,
    /// The project holds nothing but the erased value.
    NoEffectiveRange,
}

/// Lets a command go on only if its protocol was accepted explicitly.
///
/// # Errors
///
/// Returns [`RequestError::OptInRequired`] otherwise.
pub fn require_static_opt_in(accepted: bool) -> (result: Result<(), RequestError>)
    ensures
        result matches Err(error) ==> error == RequestError::OptInRequired,
        result is Ok <==> accepted,
{
    if accepted {
        Ok(())
    } else {
        Err(RequestError::OptInRequired)
    }
}

/// Lets a command that can modify the target go on only if it was confirmed.
///
/// # Errors
///
/// Returns [`RequestError::ConfirmationRequired`] otherwise.
pub fn require_destructive_confirmation(confirmed: bool) -> (result: Result<(), RequestError>)
    ensures
        result matches Err(error) ==> error == RequestError::ConfirmationRequired,
        result is Ok <==> confirmed,
{
    if confirmed {
        Ok(())
    } else {
        Err(RequestError::ConfirmationRequired)
    }
}

/// Why no operation can have a length.
pub open spec fn length_error(length: usize) -> Option<RequestError> {
    if length == 0 {
        Some(RequestError::ZeroLength)
    } else if length > u32::MAX {
        Some(RequestError::LengthOverflow { length })
    } else {
        None
    }
}

/// Checks the length of an operation.
///
/// # Errors
///
/// Rejects zero and what does not fit a 32-bit protocol field.
pub fn validate_operation_length(length: usize) -> (result: Result<(), RequestError>)
    ensures
        match result {
            Ok(_) => length_error(length) is None,
            Err(error) => length_error(length) == Some(error),
        },
{
    if length == 0 {
        return Err(RequestError::ZeroLength);
    }
    if length > 0xffff_ffff {
        return Err(RequestError::LengthOverflow { length });
    }
    Ok(())
}

/// Checks the chunk size of a blank check.
///
/// # Errors
///
/// Rejects sizes outside `0x800..=0x10000`.
pub fn validate_blank_chunk(chunk: usize) -> (result: Result<(), RequestError>)
    ensures
        result matches Err(error) ==> error == (RequestError::BlankChunk { chunk }),
        result is Ok <==> 0x800 <= chunk <= 0x1_0000,
{
    if 0x800 <= chunk && chunk <= 0x1_0000 {
        Ok(())
    } else {
        Err(RequestError::BlankChunk { chunk })
    }
}

/// Checks the most records that a progress stream may have.
///
/// # Errors
///
/// Rejects zero.
pub fn validate_record_limit(max_records: usize) -> (result: Result<(), RequestError>)
    ensures
        result matches Err(error) ==> error == RequestError::NoRecords,
        result is Ok <==> max_records > 0,
{
    if max_records > 0 {
        Ok(())
    } else {
        Err(RequestError::NoRecords)
    }
}

/// The length of a data region, if the device has it.
pub open spec fn region_length(lengths: Seq<Option<usize>>, region: u32) -> Option<usize> {
    if region < lengths.len() {
        lengths[region as int]
    } else {
        None
    }
}

/// Why a region cannot hold an operation of a length.
pub open spec fn region_error(
    lengths: Seq<Option<usize>>,
    region: u32,
    length: usize,
) -> Option<RequestError> {
    match region_length(lengths, region) {
        None => Some(RequestError::RegionUnavailable { region }),
        Some(capacity) => if length > capacity {
            Some(RequestError::LengthExceedsRegion { length, region, capacity })
        } else {
            None
        },
    }
}

/// The length of a data region.
///
/// # Errors
///
/// Returns [`RequestError::RegionUnavailable`] if the device does not have it.
pub fn selected_region_length(lengths: &[Option<usize>; 2], region: u32) -> (result: Result<
    usize,
    RequestError,
>)
    ensures
        match (result, region_length(lengths@, region)) {
            (Ok(length), Some(expected)) => length == expected,
            (Err(error), None) => error == (RequestError::RegionUnavailable { region }),
            _ => false,
        },
{
    if region >= 2 {
        return Err(RequestError::RegionUnavailable { region });
    }
    match lengths[region as usize] {
        Some(length) => Ok(length),
        None => Err(RequestError::RegionUnavailable { region }),
    }
}

/// Checks that a region can hold an operation of a length.
///
/// # Errors
///
/// Rejects a region that the device does not have and a length beyond it.
pub fn validate_region_length(lengths: &[Option<usize>; 2], region: u32, length: usize) -> (result:
    Result<(), RequestError>)
    ensures
        match result {
            Ok(_) => region_error(lengths@, region, length) is None,
            Err(error) => region_error(lengths@, region, length) == Some(error),
        },
{
    let capacity: usize = selected_region_length(lengths, region)?;
    if length > capacity {
        return Err(RequestError::LengthExceedsRegion { length, region, capacity });
    }
    Ok(())
}

/// The length of an operation: the requested one, or that of the region.
pub open spec fn inferred_length(
    requested: Option<usize>,
    lengths: Seq<Option<usize>>,
    region: u32,
) -> Result<usize, RequestError> {
    let chosen = match requested {
        Some(length) => Some(length),
        None => region_length(lengths, region),
    };
    match chosen {
        None => Err(RequestError::RegionUnavailable { region }),
        Some(length) => match length_error(length) {
            Some(error) => Err(error),
            None => match region_error(lengths, region, length) {
                Some(error) => Err(error),
                None => Ok(length),
            },
        },
    }
}

/// An operation covers the requested number of bytes, or the whole region if none was
/// requested. It is accepted if and only if the device has the region and the number
/// is neither zero, nor larger than the region, nor larger than 32 bits.
pub proof fn law_inferred_lengths(
    requested: Option<usize>,
    lengths: Seq<Option<usize>>,
    region: u32,
)
    requires
        lengths.len() == 2,
    ensures
        ({
            let there = (region == 0 || region == 1) && lengths[region as int] is Some;
            let capacity = lengths[region as int].unwrap();
            match inferred_length(requested, lengths, region) {
                Ok(length) => {
                    &&& there && 0 < length <= capacity && length <= 0xffff_ffff
                    &&& requested matches Some(wanted) ==> length == wanted
                    &&& requested is None ==> length == capacity
                },
                Err(_) => {
                    &&& requested matches Some(wanted) ==> !there || wanted == 0 || wanted
                        > capacity || wanted > 0xffff_ffff
                    &&& requested is None ==> !there || capacity == 0 || capacity > 0xffff_ffff
                },
            }
        }),
{
}

/// The length of an operation: the requested one, or all of the region.
///
/// # Errors
///
/// Rejects lengths as [`validate_operation_length`] and
/// [`validate_region_length`] do, in this order, and a region that the device
/// does not have.
pub fn inferred_operation_length(
    requested: Option<usize>,
    lengths: &[Option<usize>; 2],
    region: u32,
) -> (result: Result<usize, RequestError>)
    ensures
        result == inferred_length(requested, lengths@, region),
{
    let length: usize = match requested {
        Some(length) => length,
        None => selected_region_length(lengths, region)?,
    };
    validate_operation_length(length)?;
    validate_region_length(lengths, region, length)?;
    Ok(length)
}

/// Why a readback is not accepted as Flash data.
#[derive(Debug, Clone, Copy, PartialEq, Eq, Structural)]
pub enum ReadbackError {
    /// The readback is too short to be told from the parameter image.
    TooShort { length: usize },
    /// The programmer returned the parameter image.
    ParameterBuffer,
}

impl ReadbackError {
    /// What the error means.
    #[must_use]
    pub fn message(&self) -> (text: String)
        ensures
            text@ == match *self {
                ReadbackError::TooShort { length } => "readback is only "@ + decimal(length as nat)
                    + " bytes; at least 32 bytes are required to distinguish Flash data from the SPRJ parameter buffer; refusing to write an unverified backup"@,
                ReadbackError::ParameterBuffer => "device returned the SPRJ parameter buffer instead of Flash data; refusing to write an invalid backup"@,
            },
    {
        match *self {
            ReadbackError::TooShort { length } => {
                let mut text: String = "readback is only ".to_owned();
                push_decimal(&mut text, length as u64);
                text.append(
                    " bytes; at least 32 bytes are required to distinguish Flash data from the SPRJ parameter buffer; refusing to write an unverified backup",
                );
                text
            },
            ReadbackError::ParameterBuffer => {
                "device returned the SPRJ parameter buffer instead of Flash data; refusing to write an invalid backup".to_owned()
            },
        }
    }
}

/// The number of bytes in which a readback and an image can be compared.
pub open spec fn compared_length(data: Seq<u8>) -> int {
    if data.len() < DEVICE_PARAMETER_BYTES {
        data.len() as int
    } else {
        DEVICE_PARAMETER_BYTES as int
    }
}

/// Why a readback is not accepted next to a parameter image.
pub open spec fn readback_error(data: Seq<u8>, image: Seq<u8>) -> Option<ReadbackError> {
    let compared = compared_length(data);
    if compared < MINIMUM_DISTINCTIVE_PREFIX_BYTES {
        Some(ReadbackError::TooShort { length: data.len() as usize })
    } else if data.take(compared) == image.take(compared) {
        Some(ReadbackError::ParameterBuffer)
    } else {
        None
    }
}

/// Checks that a readback is Flash data and not the parameter image.
///
/// # Errors
///
/// Returns [`ReadbackError`] for a readback below 32 bytes and for one that
/// begins as the image does.
pub fn ensure_flash_readback(data: &[u8], parameters: &DeviceParameterImage) -> (result: Result<
    (),
    ReadbackError,
>)
    ensures
        match result {
            Ok(_) => readback_error(data@, parameters@) is None,
            Err(error) => readback_error(data@, parameters@) == Some(error),
        },
{
    let compared: usize = if data.len() < DEVICE_PARAMETER_BYTES {
        data.len()
    } else {
        DEVICE_PARAMETER_BYTES
    };
    if compared < MINIMUM_DISTINCTIVE_PREFIX_BYTES {
        return Err(ReadbackError::TooShort { length: data.len() });
    }
    let image: &[u8] = parameters.as_bytes();
    assert(data@.subrange(0, compared as int) =~= data@.take(compared as int));
    assert(image@.subrange(0, compared as int) =~= image@.take(compared as int));
    if same_bytes(slice_subrange(data, 0, compared), slice_subrange(image, 0, compared)) {
        return Err(ReadbackError::ParameterBuffer);
    }
    Ok(())
}

/// Why a configuration transfer has no data or no mask.
#[allow(inconsistent_fields)]
#[derive(Debug, Clone, Copy, PartialEq, Eq, Structural)]
pub enum ConfigurationPayloadError {
    DataLength { actual: usize },
    DataMissing,
    MaskLength { actual: usize },
    MaskMissing,
}

/// The 64 bytes that are supplied, or else the default ones.
pub open spec fn chosen_block(
    supplied: Option<Seq<u8>>,
    default: Option<Seq<u8>>,
) -> Option<Seq<u8>> {
    match supplied {
        Some(bytes) => if bytes.len() == CONFIGURATION_READ_BYTES {
            Some(bytes)
        } else {
            None
        },
        None => default,
    }
}

/// What data and mask of a configuration transfer are, or why there are none.
pub open spec fn payload_choice(
    supplied_data: Option<Seq<u8>>,
    supplied_mask: Option<Seq<u8>>,
    configuration: Option<ConfigurationView>,
    result: Result<
        ([u8; CONFIGURATION_READ_BYTES], [u8; CONFIGURATION_READ_BYTES]),
        ConfigurationPayloadError,
    >,
) -> bool {
    let block_0 = match configuration {
        Some(values) => Some(values.default_block_0),
        None => None,
    };
    let block_1 = match configuration {
        Some(values) => Some(values.default_block_1),
        None => None,
    };
    let chosen_data = chosen_block(supplied_data, block_0);
    let chosen_mask = chosen_block(supplied_mask, block_1);
    match result {
        Ok((first, second)) => Some(first@) == chosen_data && Some(second@) == chosen_mask,
        Err(ConfigurationPayloadError::DataLength { actual }) => chosen_data is None
            && supplied_data is Some && actual == supplied_data.unwrap().len(),
        Err(ConfigurationPayloadError::DataMissing) => chosen_data is None && supplied_data is None,
        Err(ConfigurationPayloadError::MaskLength { actual }) => chosen_data is Some && chosen_mask
            is None && supplied_mask is Some && actual == supplied_mask.unwrap().len(),
        Err(ConfigurationPayloadError::MaskMissing) => chosen_data is Some && chosen_mask is None
            && supplied_mask is None,
    }
}

/// Chooses data and mask of a configuration transfer: what is supplied, or else
/// the default blocks of the configuration.
///
/// # Errors
///
/// Rejects supplied blocks that are not 64 bytes long, and blocks that are
/// neither supplied nor in a configuration; the data first, then the mask.
pub fn configuration_payload(
    data: Option<&[u8]>,
    mask: Option<&[u8]>,
    configuration: Option<&Configuration>,
) -> (result: Result<
    ([u8; CONFIGURATION_READ_BYTES], [u8; CONFIGURATION_READ_BYTES]),
    ConfigurationPayloadError,
>)
    ensures
        payload_choice(
            match data {
                Some(bytes) => Some(bytes@),
                None => None,
            },
            match mask {
                Some(bytes) => Some(bytes@),
                None => None,
            },
            match configuration {
                Some(values) => Some(values@),
                None => None,
            },
            result,
        ),
{
    let first: [u8; CONFIGURATION_READ_BYTES] = match data {
        Some(bytes) => {
            if bytes.len() != CONFIGURATION_READ_BYTES {
                return Err(ConfigurationPayloadError::DataLength { actual: bytes.len() });
            }
            to_array(bytes)
        },
        None => match configuration {
            Some(values) => *values.default_block_0(),
            None => { return Err(ConfigurationPayloadError::DataMissing) },
        },
    };
    let second: [u8; CONFIGURATION_READ_BYTES] = match mask {
        Some(bytes) => {
            if bytes.len() != CONFIGURATION_READ_BYTES {
                return Err(ConfigurationPayloadError::MaskLength { actual: bytes.len() });
            }
            to_array(bytes)
        },
        None => match configuration {
            Some(values) => *values.default_block_1(),
            None => { return Err(ConfigurationPayloadError::MaskMissing) },
        },
    };
    Ok((first, second))
}

/// Two decimal digits of a number in one byte.
pub open spec fn bcd_of(value: int) -> u8 {
    (value / 10 * 16 + value % 10) as u8
}

/// The seven bytes of a date and time.
pub open spec fn local_time_bytes(
    year: int,
    month: int,
    day: int,
    hour: int,
    minute: int,
    second: int,
) -> Seq<u8> {
    seq![
        bcd_of(year / 100),
        bcd_of(year % 100),
        bcd_of(month),
        bcd_of(day),
        bcd_of(hour),
        bcd_of(minute),
        bcd_of(second),
    ]
}

fn to_bcd(value: u32) -> (byte: u8)
    requires
        value < 160,
    ensures
        byte == bcd_of(value as int),
{
    ((value / 10) * 16 + value % 10) as u8
}

/// A date and time in seven binary-coded decimal bytes, the year in two of them.
///
/// # Errors
///
/// Returns [`RequestError::YearOutOfRange`] for a year that does not have at
/// most four digits.
pub fn encode_local_time_bcd(
    year: i32,
    month: u32,
    day: u32,
    hour: u32,
    minute: u32,
    second: u32,
) -> (result: Result<[u8; 7], RequestError>)
    requires
        month < 160,
        day < 160,
        hour < 160,
        minute < 160,
        second < 160,
    ensures
        match result {
            Ok(bytes) => 0 <= year <= 9_999 && bytes@ == local_time_bytes(
                year as int,
                month as int,
                day as int,
                hour as int,
                minute as int,
                second as int,
            ),
            Err(error) => !(0 <= year <= 9_999) && error == (RequestError::YearOutOfRange { year }),
        },
{
    if year < 0 || year > 9_999 {
        return Err(RequestError::YearOutOfRange { year });
    }
    let full: u32 = year as u32;
    let bytes: [u8; 7] = [
        to_bcd(full / 100),
        to_bcd(full % 100),
        to_bcd(month),
        to_bcd(day),
        to_bcd(hour),
        to_bcd(minute),
        to_bcd(second),
    ];
    assert(bytes@ =~= seq![
        bcd_of(year as int / 100),
        bcd_of(year as int % 100),
        bcd_of(month as int),
        bcd_of(day as int),
        bcd_of(hour as int),
        bcd_of(minute as int),
        bcd_of(second as int),
    ]);
    Ok(bytes)
}

/// A number of two digits is decimal in its byte, and the byte gives the number
/// back.
pub proof fn law_two_digits_read_back(value: int)
    requires
        0 <= value < 100,
    ensures
        is_bcd(bcd_of(value)),
        crate::report::bcd_value(bcd_of(value)) == value,
{
    let byte = bcd_of(value);
    assert(byte as int == value / 10 * 16 + value % 10);
    assert(byte as int / 16 == value / 10);
    assert(byte as int % 16 == value % 10);
}

/// A date and time whose parts have at most two digits is accepted as the local
/// time of an image.
pub proof fn law_local_times_are_accepted(
    year: int,
    month: int,
    day: int,
    hour: int,
    minute: int,
    second: int,
)
    requires
        0 <= year <= 9_999,
        0 <= month < 100,
        0 <= day < 100,
        0 <= hour < 100,
        0 <= minute < 100,
        0 <= second < 100,
    ensures
        all_bcd(
            seq![
                bcd_of(year / 100),
                bcd_of(year % 100),
                bcd_of(month),
                bcd_of(day),
                bcd_of(hour),
                bcd_of(minute),
                bcd_of(second),
            ],
        ),
{
    law_two_digits_read_back(year / 100);
    law_two_digits_read_back(year % 100);
    law_two_digits_read_back(month);
    law_two_digits_read_back(day);
    law_two_digits_read_back(hour);
    law_two_digits_read_back(minute);
    law_two_digits_read_back(second);
}

/// Why no package route was chosen.
#[allow(inconsistent_fields)]
#[derive(Debug, Clone, PartialEq, Eq)]
pub enum PackageChoiceError<S = String> {
    /// A package key is needed; `allowed` lists those of the device.
    KeyRequired { device: S, allowed: S },
    KeyInvalid { key: u8, device: S, allowed: S },
    KeyUnmapped { key: u8 },
}

impl View for PackageChoiceError<String> {
    type V = PackageChoiceError<Seq<char>>;

    open spec fn view(&self) -> PackageChoiceError<Seq<char>> {
        match *self {
            PackageChoiceError::KeyRequired { device, allowed } => {
                PackageChoiceError::KeyRequired { device: device@, allowed: allowed@ }
            },
            PackageChoiceError::KeyInvalid { key, device, allowed } => {
                PackageChoiceError::KeyInvalid { key, device: device@, allowed: allowed@ }
            },
            PackageChoiceError::KeyUnmapped { key } => PackageChoiceError::KeyUnmapped { key },
        }
    }
}

/// The package route that is chosen, if one is needed.
pub open spec fn chosen_package(
    parameters_supplied: bool,
    device_name: Seq<char>,
    keys: Seq<u8>,
    requested: Option<u8>,
    routes: Map<u8, PackageRecordView>,
) -> Result<Option<PackageRecordView>, PackageChoiceError<Seq<char>>> {
    if parameters_supplied {
        Ok(None)
    } else {
        match requested {
            None => Err(
                PackageChoiceError::KeyRequired { device: device_name, allowed: key_list(keys) },
            ),
            Some(key) => if !keys.contains(key) {
                Err(
                    PackageChoiceError::KeyInvalid {
                        key,
                        device: device_name,
                        allowed: key_list(keys),
                    },
                )
            } else if !routes.contains_key(key) {
                Err(PackageChoiceError::KeyUnmapped { key })
            } else {
                Ok(Some(routes[key]))
            },
        }
    }
}

fn lists_key(keys: &[u8], key: u8) -> (listed: bool)
    ensures
        listed == keys@.contains(key),
{
    let mut i: usize = 0;
    while i < keys.len()
        invariant
            i <= keys@.len(),
            forall|j: int| 0 <= j < i ==> keys@[j] != key,
        decreases keys@.len() - i,
    {
        if keys[i] == key {
            assert(keys@[i as int] == key);
            return true;
        }
        i += 1;
    }
    false
}

/// Chooses the package route of a device. No route is needed where a parameter
/// image is supplied.
///
/// # Errors
///
/// Returns [`PackageChoiceError`] when no key is given, or one that the device
/// or the map does not have.
pub fn resolve_package<'a>(
    parameters_supplied: bool,
    device: &DeviceRecord,
    keys: &[u8],
    requested: Option<u8>,
    packages: &'a PackageMap,
) -> (result: Result<Option<&'a PackageRecord>, PackageChoiceError>)
    ensures
        match (result, chosen_package(
            parameters_supplied,
            device@.name,
            keys@,
            requested,
            packages@,
        )) {
            (Ok(Some(package)), Ok(Some(expected))) => package@ == expected,
            (Ok(None), Ok(None)) => true,
            (Err(error), Err(reason)) => error@ == reason,
            _ => false,
        },
{
    if parameters_supplied {
        return Ok(None);
    }
    match requested {
        None => Err(
            PackageChoiceError::KeyRequired {
                device: device.name().to_owned(),
                allowed: format_keys(keys),
            },
        ),
        Some(key) => {
            if !lists_key(keys, key) {
                return Err(
                    PackageChoiceError::KeyInvalid {
                        key,
                        device: device.name().to_owned(),
                        allowed: format_keys(keys),
                    },
                );
            }
            match packages.get(key) {
                Some(package) => Ok(Some(package)),
                None => Err(PackageChoiceError::KeyUnmapped { key }),
            }
        },
    }
}

/// Why no configuration was loaded.
#[derive(Debug, Clone, PartialEq, Eq)]
pub enum ConfigurationLoadError<S = String> {
    NotFound { stem: S },
    Invalid(ConfigurationError<S>),
}

impl View for ConfigurationLoadError<String> {
    type V = ConfigurationLoadError<Seq<char>>;

    open spec fn view(&self) -> ConfigurationLoadError<Seq<char>> {
        match *self {
            ConfigurationLoadError::NotFound { stem } => ConfigurationLoadError::NotFound {
                stem: stem@,
            },
            ConfigurationLoadError::Invalid(error) => ConfigurationLoadError::Invalid(error@),
        }
    }
}

/// The configuration that belongs to a device: the supplied file, or else the
/// asset that the device refers to, or none. Where the device refers to a
/// configuration, a supplied file must carry its name.
pub open spec fn loaded_configuration(
    supplied: Option<Seq<u8>>,
    stem: Option<Seq<char>>,
    assets: Seq<AssetView>,
) -> Result<Option<ConfigurationView>, ConfigurationLoadError<Seq<char>>> {
    match supplied {
        Some(bytes) => match parsed_configuration(bytes, stem) {
            Ok(configuration) => Ok(Some(configuration)),
            Err(error) => Err(ConfigurationLoadError::Invalid(error)),
        },
        None => match stem {
            None => Ok(None),
            Some(name) => match found_asset(assets, name) {
                None => Err(ConfigurationLoadError::NotFound { stem: name }),
                Some(asset) => match parsed_configuration(asset.bytes, Some(asset.stem)) {
                    Ok(configuration) => Ok(Some(configuration)),
                    Err(error) => Err(ConfigurationLoadError::Invalid(error)),
                },
            },
        },
    }
}

/// Loads the configuration that belongs to a device.
///
/// # Errors
///
/// Returns [`ConfigurationLoadError`] for an asset that is missing, and for a
/// supplied file or an asset that is invalid or has another name.
pub fn load_configuration(
    supplied: Option<&[u8]>,
    device: &DeviceRecord,
    assets: &[EmbeddedConfiguration<'_>],
) -> (result: Result<Option<Configuration>, ConfigurationLoadError>)
    ensures
        match (result, loaded_configuration(
            match supplied {
                Some(bytes) => Some(bytes@),
                None => None,
            },
            device@.configuration_stem,
            embedded_configurations::asset_views(assets@),
        )) {
            (Ok(Some(configuration)), Ok(Some(expected))) => configuration@ == expected,
            (Ok(None), Ok(None)) => true,
            (Err(error), Err(reason)) => error@ == reason,
            _ => false,
        },
{
    if let Some(bytes) = supplied {
        let parsed = match device.configuration_stem() {
            Some(stem) => Configuration::parse_for_stem(bytes, stem),
            None => Configuration::parse(bytes),
        };
        return match parsed {
            Ok(configuration) => Ok(Some(configuration)),
            Err(error) => Err(ConfigurationLoadError::Invalid(error)),
        };
    }
    match device.configuration_stem() {
        None => Ok(None),
        Some(stem) => match embedded_configuration(assets, stem) {
            None => Err(ConfigurationLoadError::NotFound { stem: stem.to_owned() }),
            Some(asset) => match asset.parse() {
                Ok(configuration) => Ok(Some(configuration)),
                Err(error) => Err(ConfigurationLoadError::Invalid(error)),
            },
        },
    }
}

/// Why no algorithm was loaded.
#[derive(Debug, Clone, PartialEq, Eq)]
pub enum AlgorithmLoadError<S = String> {
    NotFound { stem: S },
    Invalid(AlgorithmError<S>),
}

impl View for AlgorithmLoadError<String> {
    type V = AlgorithmLoadError<Seq<char>>;

    open spec fn view(&self) -> AlgorithmLoadError<Seq<char>> {
        match *self {
            AlgorithmLoadError::NotFound { stem } => AlgorithmLoadError::NotFound { stem: stem@ },
            AlgorithmLoadError::Invalid(error) => AlgorithmLoadError::Invalid(error@),
        }
    }
}

/// The algorithm with a stem.
pub open spec fn loaded_algorithm(assets: Seq<AssetView>, stem: Seq<char>) -> Result<
    AlgorithmView,
    AlgorithmLoadError<Seq<char>>,
> {
    match found_asset(assets, stem) {
        None => Err(AlgorithmLoadError::NotFound { stem }),
        Some(asset) => match algorithm_file(asset.bytes, Some(asset.stem)) {
            Ok(algorithm) => Ok(algorithm),
            Err(error) => Err(AlgorithmLoadError::Invalid(error)),
        },
    }
}

/// Loads the algorithm with a stem.
///
/// # Errors
///
/// Returns [`AlgorithmLoadError`] for an asset that is missing or invalid.
pub fn load_algorithm(assets: &[EmbeddedAlgorithm<'_>], stem: &str) -> (result: Result<
    Algorithm,
    AlgorithmLoadError,
>)
    ensures
        match (result, loaded_algorithm(embedded_algorithms::asset_views(assets@), stem@)) {
            (Ok(algorithm), Ok(expected)) => algorithm@ == expected,
            (Err(error), Err(reason)) => error@ == reason,
            _ => false,
        },
{
    match embedded_algorithm(assets, stem) {
        None => Err(AlgorithmLoadError::NotFound { stem: stem.to_owned() }),
        Some(asset) => match asset.parse() {
            Ok(algorithm) => Ok(algorithm),
            Err(error) => Err(AlgorithmLoadError::Invalid(error)),
        },
    }
}

/// What a user asks for.
pub struct TargetRequest<'a> {
    pub accept_static_protocol: bool,
    pub chip: &'a str,
    pub vendor: Option<&'a str>,
    pub package_key: Option<u8>,
    /// An algorithm stem that takes the place of the device's own.
    pub algorithm: Option<&'a str>,
    /// A configuration file that takes the place of the device's own.
    pub configuration: Option<&'a [u8]>,
    /// A parameter image that takes the place of a derived one.
    pub parameters: Option<&'a [u8]>,
    pub operation: ParameterOperation,
    pub region: u32,
    pub project_data: &'a [u8],
    pub local_time_bcd: [u8; 7],
}

/// What targets are resolved from.
pub struct TargetAssets<'a> {
    pub database: &'a DeviceDatabase,
    /// The package keys of each device, in catalog order.
    pub package_keys: &'a [Vec<u8>],
    pub algorithms: &'a [EmbeddedAlgorithm<'a>],
    pub configurations: &'a [EmbeddedConfiguration<'a>],
    pub packages: &'a PackageMap,
}

/// Everything that an operation on a target needs.
pub struct ResolvedTarget {
    pub algorithm: Algorithm,
    pub parameters: DeviceParameterImage,
    pub configuration: Option<Configuration>,
    pub device_name: String,
    pub vendor_name: String,
    pub region_lengths: [Option<usize>; 2],
    pub prepared_project: PreparedProjectData,
    pub package_description: Option<String>,
}

/// Why a target was not resolved.
#[derive(Debug)]
pub enum TargetError {
    OptInRequired,
    Selection(DeviceSelectionError),
    Algorithm(AlgorithmLoadError),
    Configuration(ConfigurationLoadError),
    Project(DeviceParameterBuildError),
    Package(PackageChoiceError),
    SuppliedParameters(ProtocolError),
    DerivedParameters(DeviceParameterBuildError),
    ParameterMismatch(ProtocolError),
}

/// The devices that a request means.
pub open spec fn requested_devices(
    database: DeviceDatabaseView,
    chip: Seq<char>,
    vendor: Option<&str>,
) -> Seq<DeviceRecordView> {
    let requested = match vendor {
        Some(name) => Some(name@),
        None => None,
    };
    database.devices.filter(
        |device: DeviceRecordView| is_selected_by(database, device, chip, requested),
    )
}

/// The package keys of a device.
pub open spec fn keys_of(package_keys: Seq<Seq<u8>>, index: nat) -> Seq<u8> {
    if index < package_keys.len() {
        package_keys[index as int]
    } else {
        Seq::empty()
    }
}

/// A selection error says that none or several devices are meant.
pub open spec fn explains_selection(
    database: DeviceDatabaseView,
    meant: Seq<DeviceRecordView>,
    chip: Seq<char>,
    vendor: Option<&str>,
    error: DeviceSelectionError,
) -> bool {
    match error {
        DeviceSelectionError::NotFound { device, vendor: missing } => {
            &&& meant.len() == 0
            &&& device@ == chip
            &&& match (missing, vendor) {
                (Some(name), Some(expected)) => name@ == expected@,
                (None, None) => true,
                _ => false,
            }
        },
        DeviceSelectionError::Ambiguous { device, candidates } => {
            &&& meant.len() > 1
            &&& device@ == chip
            &&& candidates@.len() == meant.len()
            &&& forall|i: int|
                0 <= i < meant.len() ==> (#[trigger] candidates@[i])@ == candidate_text(
                    database,
                    meant[i],
                )
        },
    }
}

/// The lengths of the data regions of a device.
pub open spec fn has_region_lengths(lengths: Seq<Option<usize>>, raw: Seq<u8>) -> bool {
    &&& lengths.len() == 2
    &&& forall|i: int|
        0 <= i < 2 ==> #[trigger] lengths[i] == match region_of(raw, i) {
            Some((_, length)) => Some(length as usize),
            None => None,
        }
}

/// What a request for a new project amounts to.
pub open spec fn project_inputs(
    request: TargetRequest<'_>,
    device: DeviceRecordView,
    vendor_name: Seq<char>,
    keys: Seq<u8>,
    algorithm: AlgorithmView,
    configuration: Option<ConfigurationView>,
    package: PackageRecordView,
) -> AutomaticInputsView {
    AutomaticInputsView {
        device,
        package_keys: keys,
        vendor_name,
        algorithm,
        configuration,
        package,
        operation: request.operation,
        region: request.region,
        project_data: request.project_data@,
        local_time_bcd: request.local_time_bcd,
    }
}

/// The parameter image of a request, or an error that explains why there is
/// none.
#[verifier::opaque]
pub open spec fn image_outcome(
    supplied: Option<&[u8]>,
    inputs: Option<AutomaticInputsView>,
    image: Result<Seq<u8>, TargetError>,
) -> bool {
    match supplied {
        Some(bytes) => match (image, sprj_error(
            bytes@,
            crc32(bytes@.take(DEVICE_PARAMETER_COVERED_BYTES as int)),
        )) {
            (Ok(contents), None) => contents == bytes@,
            (Err(TargetError::SuppliedParameters(error)), Some(reason)) => error@ == reason,
            _ => false,
        },
        None => {
            let project = inputs.unwrap();
            match image {
                Ok(contents) => {
                    &&& project.outcome(project.encoded_texts()) matches Ok(prepared)
                    &&& contents == sealed(
                        project.project_body(
                            prepared,
                            project.encoded_texts().profile_strings(),
                            crc32(prepared.selected()),
                        ),
                    )
                },
                Err(TargetError::DerivedParameters(error)) => {
                    &&& project.outcome(project.encoded_texts()) matches Err(reason)
                    &&& error@ == reason
                },
                Err(_) => false,
            }
        },
    }
}

/// There is a parameter image, and it does not match the algorithm.
pub open spec fn image_mismatch(
    supplied: Option<&[u8]>,
    inputs: Option<AutomaticInputsView>,
    algorithm: AlgorithmView,
    reason: ProtocolError<Seq<char>>,
) -> bool {
    exists|image: Seq<u8>|
        #[trigger] image_outcome(supplied, inputs, Ok(image)) && metadata_error(image, algorithm)
            == Some(reason)
}

/// What resolving a target returns. Each step is taken only if the ones before
/// it succeeded.
pub open spec fn resolution(
    request: TargetRequest<'_>,
    assets: TargetAssets<'_>,
    result: Result<ResolvedTarget, TargetError>,
) -> bool {
    let database = assets.database@;
    let meant = requested_devices(database, request.chip@, request.vendor);
    let device = meant[0];
    let vendor = database.vendors[device.vendor_index as int];
    let keys = keys_of(key_lists(assets.package_keys@), device.source_index);
    let stem = match request.algorithm {
        Some(stem) => stem@,
        None => device.algorithm_stem,
    };
    let supplied_configuration = match request.configuration {
        Some(bytes) => Some(bytes@),
        None => None,
    };
    if !request.accept_static_protocol {
        result matches Err(TargetError::OptInRequired)
    } else if meant.len() != 1 {
        &&& result matches Err(TargetError::Selection(error))
        &&& explains_selection(database, meant, request.chip@, request.vendor, error)
    } else {
        match loaded_algorithm(embedded_algorithms::asset_views(assets.algorithms@), stem) {
            Err(reason) => {
                &&& result matches Err(TargetError::Algorithm(error))
                &&& error@ == reason
            },
            Ok(algorithm) => match loaded_configuration(
                supplied_configuration,
                device.configuration_stem,
                embedded_configurations::asset_views(assets.configurations@),
            ) {
                Err(reason) => {
                    &&& result matches Err(TargetError::Configuration(error))
                    &&& error@ == reason
                },
                Ok(configuration) => match prepared_project(
                    device.raw,
                    request.region,
                    request.project_data@,
                ) {
                    Err(reason) => {
                        &&& result matches Err(TargetError::Project(error))
                        &&& error@ == reason
                    },
                    Ok(project) => match chosen_package(
                        request.parameters is Some,
                        device.name,
                        keys,
                        request.package_key,
                        assets.packages@,
                    ) {
                        Err(reason) => {
                            &&& result matches Err(TargetError::Package(error))
                            &&& error@ == reason
                        },
                        Ok(package) => {
                            let inputs = match package {
                                Some(route) => Some(
                                    project_inputs(
                                        request,
                                        device,
                                        vendor.name,
                                        keys,
                                        algorithm,
                                        configuration,
                                        route,
                                    ),
                                ),
                                None => None,
                            };
                            match result {
                                Ok(target) => {
                                    &&& image_outcome(
                                        request.parameters,
                                        inputs,
                                        Ok(target.parameters@),
                                    )
                                    &&& metadata_error(target.parameters@, algorithm) is None
                                    &&& target.algorithm@ == algorithm
                                    &&& match (target.configuration, configuration) {
                                        (Some(loaded), Some(expected)) => loaded@ == expected,
                                        (None, None) => true,
                                        _ => false,
                                    }
                                    &&& target.device_name@ == device.name
                                    &&& target.vendor_name@ == vendor.name
                                    &&& has_region_lengths(target.region_lengths@, device.raw)
                                    &&& target.prepared_project@ == project
                                    &&& match (target.package_description, package) {
                                        (Some(text), Some(route)) => text@ == package_text(route),
                                        (None, None) => true,
                                        _ => false,
                                    }
                                },
                                Err(TargetError::ParameterMismatch(error)) => image_mismatch(
                                    request.parameters,
                                    inputs,
                                    algorithm,
                                    error@,
                                ),
                                Err(error) => image_outcome(request.parameters, inputs, Err(error)),
                            }
                        },
                    },
                },
            },
        }
    }
}

/// Takes the supplied parameter image, or derives one.
fn obtain_image(
    request: &TargetRequest<'_>,
    device: &DeviceRecord,
    vendor_name: &str,
    keys: &[u8],
    algorithm: &Algorithm,
    configuration: Option<&Configuration>,
    package: Option<&PackageRecord>,
) -> (result: Result<DeviceParameterImage, TargetError>)
    requires
        request.parameters is Some || package is Some,
    ensures
        image_outcome(
            request.parameters,
            match package {
                Some(route) => Some(
                    project_inputs(
                        *request,
                        device@,
                        vendor_name@,
                        keys@,
                        algorithm@,
                        match configuration {
                            Some(values) => Some(values@),
                            None => None,
                        },
                        route@,
                    ),
                ),
                None => None,
            },
            match result {
                Ok(image) => Ok(image@),
                Err(error) => Err(error),
            },
        ),
        !(result matches Err(TargetError::ParameterMismatch(_))),
{
    proof {
        reveal(image_outcome);
    }
    match request.parameters {
        Some(bytes) => match DeviceParameterImage::try_from_sprj(bytes) {
            Ok(image) => Ok(image),
            Err(error) => Err(TargetError::SuppliedParameters(error)),
        },
        None => {
            let route: &PackageRecord = package.unwrap();
            let inputs = AutomaticParameterInputs {
                device,
                package_keys: keys,
                vendor_name,
                algorithm,
                configuration,
                package: route,
                operation: request.operation,
                region: request.region,
                project_data: request.project_data,
                local_time_bcd: request.local_time_bcd,
            };
            match build_automatic_device_parameters(&inputs) {
                Ok(image) => Ok(image),
                Err(error) => Err(TargetError::DerivedParameters(error)),
            }
        },
    }
}

/// The length of one data region of a device.
fn length_of_region(device: &DeviceRecord, index: usize) -> (length: Option<usize>)
    ensures
        length == match region_of(device@.raw, index as int) {
            Some((_, length)) => Some(length as usize),
            None => None,
        },
{
    match device.data_region(index) {
        Some(region) => Some(region.length() as usize),
        None => None,
    }
}

/// Resolves a request: selects the device, loads its assets, prepares the
/// project, and supplies or derives the parameter image.
///
/// # Errors
///
/// Returns [`TargetError`] for the first step that fails.
#[verifier::rlimit(50)]
pub fn resolve_target(request: &TargetRequest<'_>, assets: &TargetAssets<'_>) -> (result: Result<
    ResolvedTarget,
    TargetError,
>)
    ensures
        resolution(*request, *assets, result),
{
    if !request.accept_static_protocol {
        return Err(TargetError::OptInRequired);
    }
    let ghost database = assets.database@;
    let ghost meant = requested_devices(database, request.chip@, request.vendor);
    let selected: DeviceSelection<'_> = match assets.database.select_device(
        request.chip,
        request.vendor,
    ) {
        Ok(selected) => selected,
        Err(error) => { return Err(TargetError::Selection(error)) },
    };
    let device: &DeviceRecord = selected.device();
    assert(device@ == meant[0]);
    let stem: &str = match request.algorithm {
        Some(stem) => stem,
        None => device.algorithm_stem(),
    };
    let algorithm: Algorithm = match load_algorithm(assets.algorithms, stem) {
        Ok(algorithm) => algorithm,
        Err(error) => { return Err(TargetError::Algorithm(error)) },
    };
    let configuration: Option<Configuration> = match load_configuration(
        request.configuration,
        device,
        assets.configurations,
    ) {
        Ok(configuration) => configuration,
        Err(error) => { return Err(TargetError::Configuration(error)) },
    };
    let prepared_project: PreparedProjectData = match prepare_project_data(
        device,
        request.region,
        request.project_data,
    ) {
        Ok(prepared) => prepared,
        Err(error) => { return Err(TargetError::Project(error)) },
    };
    let none: Vec<u8> = Vec::new();
    let index: usize = device.source_index();
    let keys: &[u8] = if index < assets.package_keys.len() {
        assets.package_keys[index].as_slice()
    } else {
        none.as_slice()
    };
    assert(keys@ =~= keys_of(key_lists(assets.package_keys@), device@.source_index));
    let package: Option<&PackageRecord> = match resolve_package(
        request.parameters.is_some(),
        device,
        keys,
        request.package_key,
        assets.packages,
    ) {
        Ok(package) => package,
        Err(error) => { return Err(TargetError::Package(error)) },
    };
    let parameters: DeviceParameterImage = obtain_image(
        request,
        device,
        selected.vendor().name(),
        keys,
        &algorithm,
        configuration.as_ref(),
        package,
    )?;
    match parameters.validate_for_algorithm(&algorithm) {
        Ok(()) => {},
        Err(error) => {
            proof {
                let inputs = match package {
                    Some(route) => Some(
                        project_inputs(
                            *request,
                            device@,
                            selected.owner().name,
                            keys@,
                            algorithm@,
                            match configuration {
                                Some(values) => Some(values@),
                                None => None,
                            },
                            route@,
                        ),
                    ),
                    None => None,
                };
                assert(image_outcome(request.parameters, inputs, Ok(parameters@)));
            }
            return Err(TargetError::ParameterMismatch(error));
        },
    }
    let package_description: Option<String> = match package {
        Some(route) => Some(describe_package(route)),
        None => None,
    };
    Ok(
        ResolvedTarget {
            algorithm,
            parameters,
            configuration,
            device_name: device.name().to_owned(),
            vendor_name: selected.vendor().name().to_owned(),
            region_lengths: [length_of_region(device, 0), length_of_region(device, 1)],
            prepared_project,
            package_description,
        },
    )
}

proof fn lemma_loaded_algorithm(assets: Seq<AssetView>, stem: Seq<char>)
    requires
        loaded_algorithm(assets, stem) is Ok,
    ensures
        loaded_algorithm(assets, stem)->Ok_0.valid(),
{
    let asset = found_asset(assets, stem).unwrap();
    law_parsed_algorithms_are_valid(
        asset.bytes,
        Some(asset.stem),
        crc32(covered_bytes(asset.bytes)),
        crc32(payload_bytes(asset.bytes)),
    );
}

proof fn lemma_loaded_configuration(
    supplied: Option<Seq<u8>>,
    stem: Option<Seq<char>>,
    assets: Seq<AssetView>,
)
    requires
        loaded_configuration(supplied, stem, assets) is Ok,
    ensures
        loaded_configuration(supplied, stem, assets)->Ok_0 matches Some(values) ==> {
            &&& values.default_block_0.len() == 0x40
            &&& values.default_block_1.len() == 0x40
        },
{
    if supplied is Some {
        lemma_default_blocks(supplied.unwrap(), stem);
    } else if stem is Some {
        let found = found_asset(assets, stem.unwrap()).unwrap();
        lemma_default_blocks(found.bytes, Some(found.stem));
    }
}

proof fn lemma_meant_device(database: DeviceDatabaseView, chip: Seq<char>, vendor: Option<&str>)
    requires
        database.valid(),
        requested_devices(database, chip, vendor).len() > 0,
    ensures
        requested_devices(database, chip, vendor)[0].raw.len() == DEVICE_RECORD_BYTES,
{
    let requested = match vendor {
        Some(name) => Some(name@),
        None => None,
    };
    let keeps = |d: DeviceRecordView| is_selected_by(database, d, chip, requested);
    let device = requested_devices(database, chip, vendor)[0];
    assert(database.devices.filter(keeps).contains(device));
    database.devices.lemma_filter_contains_rev(keeps, device);
}

/// What the parameter image of a target was derived from.
#[verifier::rlimit(50)]
proof fn lemma_derived_image(
    request: TargetRequest<'_>,
    assets: TargetAssets<'_>,
    target: ResolvedTarget,
) -> (inputs: AutomaticInputsView)
    requires
        assets.database@.valid(),
        resolution(request, assets, Ok(target)),
        request.parameters is None,
    ensures
        inputs.device.raw.len() == DEVICE_RECORD_BYTES,
        inputs.algorithm.valid(),
        inputs.configuration matches Some(values) ==> values.default_block_0.len() == 0x40
            && values.default_block_1.len() == 0x40,
        prepared_project(inputs.device.raw, request.region, request.project_data@) == Ok::<
            PreparedProjectView,
            DeviceParameterBuildError<Seq<char>>,
        >(target.prepared_project@),
        image_outcome(None, Some(inputs), Ok(target.parameters@)),
        inputs.region == request.region,
        inputs.project_data == request.project_data@,
        has_region_lengths(target.region_lengths@, inputs.device.raw),
        inputs.operation == request.operation,
        inputs.local_time_bcd == request.local_time_bcd,
        inputs.device == requested_devices(assets.database@, request.chip@, request.vendor)[0],
        request.package_key is Some,
        inputs.package == assets.packages@[request.package_key.unwrap()],
{
    let database = assets.database@;
    let device = requested_devices(database, request.chip@, request.vendor)[0];
    let vendor = database.vendors[device.vendor_index as int];
    let keys = keys_of(key_lists(assets.package_keys@), device.source_index);
    let stem = match request.algorithm {
        Some(stem) => stem@,
        None => device.algorithm_stem,
    };
    let supplied = match request.configuration {
        Some(bytes) => Some(bytes@),
        None => None,
    };
    let algorithms = embedded_algorithms::asset_views(assets.algorithms@);
    let configurations = embedded_configurations::asset_views(assets.configurations@);
    lemma_meant_device(database, request.chip@, request.vendor);
    lemma_loaded_algorithm(algorithms, stem);
    lemma_loaded_configuration(supplied, device.configuration_stem, configurations);
    let configuration = loaded_configuration(
        supplied,
        device.configuration_stem,
        configurations,
    )->Ok_0;
    let route = chosen_package(
        false,
        device.name,
        keys,
        request.package_key,
        assets.packages@,
    )->Ok_0.unwrap();
    project_inputs(request, device, vendor.name, keys, target.algorithm@, configuration, route)
}

/// A derived image is that of the prepared project.
proof fn lemma_image_of_project(
    inputs: AutomaticInputsView,
    project: PreparedProjectView,
    image: Seq<u8>,
)
    requires
        image_outcome(None, Some(inputs), Ok(image)),
        prepared_project(inputs.device.raw, inputs.region, inputs.project_data) == Ok::<
            PreparedProjectView,
            DeviceParameterBuildError<Seq<char>>,
        >(project),
    ensures
        image == sealed(
            inputs.project_body(
                project,
                inputs.encoded_texts().profile_strings(),
                crc32(project.selected()),
            ),
        ),
{
    reveal(image_outcome);
}

/// Whatever a target was resolved from, its parameter image is well-formed and
/// identifies the algorithm that will be sent with it: files that take the place
/// of derived values pass the same checks.
pub proof fn law_resolved_images_are_valid(
    request: TargetRequest<'_>,
    assets: TargetAssets<'_>,
    target: ResolvedTarget,
)
    requires
        assets.database@.valid(),
        resolution(request, assets, Ok(target)),
    ensures
        sprj_error(
            target.parameters@,
            crc32(target.parameters@.take(DEVICE_PARAMETER_COVERED_BYTES as int)),
        ) is None,
        metadata_error(target.parameters@, target.algorithm@) is None,
{
    if request.parameters is None {
        let inputs = lemma_derived_image(request, assets, target);
        lemma_image_of_project(inputs, target.prepared_project@, target.parameters@);
        law_project_images_are_well_formed(
            inputs,
            target.prepared_project@,
            inputs.encoded_texts().profile_strings(),
            crc32(target.prepared_project@.selected()),
        );
    } else {
        reveal(image_outcome);
    }
}

/// Whatever a target was resolved from, its algorithm carries the name that was
/// asked for, and where the device refers to a configuration, the target has one
/// with that name: a supplied file does not escape the name check.
pub proof fn law_resolved_assets_carry_their_names(
    request: TargetRequest<'_>,
    assets: TargetAssets<'_>,
    target: ResolvedTarget,
)
    requires
        resolution(request, assets, Ok(target)),
    ensures
        ({
            let device = requested_devices(assets.database@, request.chip@, request.vendor)[0];
            let stem = match request.algorithm {
                Some(stem) => stem@,
                None => device.algorithm_stem,
            };
            &&& same_ignoring_case(target.algorithm@.name, stem)
            &&& device.configuration_stem matches Some(name) ==> {
                &&& target.configuration matches Some(configuration)
                &&& same_ignoring_case(configuration@.name, name)
            }
        }),
{
    let device = requested_devices(assets.database@, request.chip@, request.vendor)[0];
    let stem = match request.algorithm {
        Some(stem) => stem@,
        None => device.algorithm_stem,
    };
    let supplied = match request.configuration {
        Some(bytes) => Some(bytes@),
        None => None,
    };
    lemma_loaded_algorithm_name(embedded_algorithms::asset_views(assets.algorithms@), stem);
    if device.configuration_stem is Some {
        lemma_loaded_configuration_name(
            supplied,
            device.configuration_stem.unwrap(),
            embedded_configurations::asset_views(assets.configurations@),
        );
    }
}

proof fn lemma_loaded_algorithm_name(assets: Seq<AssetView>, stem: Seq<char>)
    ensures
        loaded_algorithm(assets, stem) matches Ok(algorithm) ==> same_ignoring_case(
            algorithm.name,
            stem,
        ),
{
    if loaded_algorithm(assets, stem) is Ok {
        let asset = found_asset(assets, stem).unwrap();
        law_found_assets_have_the_stem(assets, stem);
        lemma_case_is_an_equivalence(
            loaded_algorithm(assets, stem)->Ok_0.name,
            asset.stem,
            stem,
        );
    }
}

proof fn lemma_loaded_configuration_name(
    supplied: Option<Seq<u8>>,
    stem: Seq<char>,
    assets: Seq<AssetView>,
)
    ensures
        loaded_configuration(supplied, Some(stem), assets) matches Ok(configuration) ==> {
            &&& configuration matches Some(values)
            &&& same_ignoring_case(values.name, stem)
        },
{
    if loaded_configuration(supplied, Some(stem), assets) is Ok {
        let values = loaded_configuration(supplied, Some(stem), assets)->Ok_0.unwrap();
        if supplied is Some {
            configuration::law_stem_only_restricts(supplied.unwrap(), stem);
        } else {
            let asset = found_asset(assets, stem).unwrap();
            configuration::law_stem_only_restricts(asset.bytes, asset.stem);
            law_found_assets_have_the_stem(assets, stem);
            lemma_case_is_an_equivalence(values.name, asset.stem, stem);
        }
    }
}

/// A derived parameter image states the aligned range of the project that will
/// be transferred, the CRC32 of what lies in it, and the capacity of the region.
pub proof fn law_resolved_images_describe_the_project(
    request: TargetRequest<'_>,
    assets: TargetAssets<'_>,
    target: ResolvedTarget,
)
    requires
        assets.database@.valid(),
        resolution(request, assets, Ok(target)),
        request.parameters is None,
    ensures
        ({
            let project = target.prepared_project@;
            &&& 0 <= project.start <= project.end == project.bytes.len()
            &&& u32_at(target.parameters@, 0x56c) == project.start
            &&& u32_at(target.parameters@, 0x570) == project.selected().len()
            &&& u32_at(target.parameters@, 0x574) == crc32(project.selected())
            &&& u32_at(target.parameters@, 0x578) == project.start
            &&& u32_at(target.parameters@, 0x57c) == project.selected().len()
            &&& region_length(target.region_lengths@, request.region) == Some(
                u32_at(target.parameters@, 0x584) as usize,
            )
            &&& u32_at(target.parameters@, 0x58c) == u32_at(target.parameters@, 0x584)
        }),
{
    let inputs = lemma_derived_image(request, assets, target);
    lemma_described_project(
        inputs,
        target.prepared_project@,
        target.parameters@,
        target.region_lengths@,
    );
}

proof fn lemma_described_project(
    inputs: AutomaticInputsView,
    project: PreparedProjectView,
    image: Seq<u8>,
    lengths: Seq<Option<usize>>,
)
    requires
        inputs.device.raw.len() == DEVICE_RECORD_BYTES,
        inputs.algorithm.valid(),
        inputs.configuration matches Some(values) ==> values.default_block_0.len() == 0x40
            && values.default_block_1.len() == 0x40,
        prepared_project(inputs.device.raw, inputs.region, inputs.project_data) == Ok::<
            PreparedProjectView,
            DeviceParameterBuildError<Seq<char>>,
        >(project),
        image_outcome(None, Some(inputs), Ok(image)),
        has_region_lengths(lengths, inputs.device.raw),
    ensures
        0 <= project.start <= project.end == project.bytes.len(),
        u32_at(image, 0x56c) == project.start,
        u32_at(image, 0x570) == project.selected().len(),
        u32_at(image, 0x574) == crc32(project.selected()),
        u32_at(image, 0x578) == project.start,
        u32_at(image, 0x57c) == project.selected().len(),
        region_length(lengths, inputs.region) == Some(u32_at(image, 0x584) as usize),
        u32_at(image, 0x58c) == u32_at(image, 0x584),
{
    lemma_image_of_project(inputs, project, image);
    law_aligned_range_covers_the_project(inputs.project_data);
    law_project_images_describe_their_range(
        inputs,
        project,
        inputs.encoded_texts().profile_strings(),
        crc32(project.selected()),
    );
    assert(lengths[inputs.region as int] == region_length(lengths, inputs.region));
}

/// A local time holds the two halves of the year, then month, day, hour, minute and
/// second, each as a tens digit in the high and a units digit in the low half of its
/// byte.
pub proof fn law_local_times_read_back(
    year: int,
    month: int,
    day: int,
    hour: int,
    minute: int,
    second: int,
)
    requires
        0 <= year <= 9_999,
        0 <= month < 160,
        0 <= day < 160,
        0 <= hour < 160,
        0 <= minute < 160,
        0 <= second < 160,
    ensures
        ({
            let bytes = local_time_bytes(year, month, day, hour, minute, second);
            let digits = |i: int| bytes[i] as int / 16 * 10 + bytes[i] as int % 16;
            &&& bytes.len() == 7
            &&& 100 * digits(0) + digits(1) == year
            &&& digits(2) == month
            &&& digits(3) == day
            &&& digits(4) == hour
            &&& digits(5) == minute
            &&& digits(6) == second
            &&& forall|i: int| 0 <= i < 7 ==> (#[trigger] bytes[i]) as int % 16 <= 9
        }),
{
    lemma_bcd_digits(year / 100);
    lemma_bcd_digits(year % 100);
    lemma_bcd_digits(month);
    lemma_bcd_digits(day);
    lemma_bcd_digits(hour);
    lemma_bcd_digits(minute);
    lemma_bcd_digits(second);
}

proof fn lemma_bcd_digits(value: int)
    requires
        0 <= value < 160,
    ensures
        bcd_of(value) as int / 16 * 10 + bcd_of(value) as int % 16 == value,
        bcd_of(value) as int % 16 <= 9,
{
    let tens = value / 10;
    let units = value % 10;
    assert(value == 10 * tens + units);
    assert(bcd_of(value) as int == 16 * tens + units);
    assert((16 * tens + units) / 16 == tens);
    assert((16 * tens + units) % 16 == units);
}

/// The data and the mask of a configuration transfer are the supplied 64 bytes where
/// they are supplied, and else the bytes from offsets 32 and 96 on of the file that
/// the configuration was read from.
pub proof fn law_configuration_defaults(
    supplied_data: Option<Seq<u8>>,
    supplied_mask: Option<Seq<u8>>,
    file: Seq<u8>,
    stem: Option<Seq<char>>,
    first: [u8; 64],
    second: [u8; 64],
)
    requires
        parsed_configuration(file, stem) is Ok,
        payload_choice(
            supplied_data,
            supplied_mask,
            Some(parsed_configuration(file, stem)->Ok_0),
            Ok((first, second)),
        ),
    ensures
        match supplied_data {
            Some(bytes) => first@ == bytes,
            None => first@ == file.subrange(0x20, 0x60),
        },
        match supplied_mask {
            Some(bytes) => second@ == bytes,
            None => second@ == file.subrange(0x60, 0xa0),
        },
{
    configuration::law_file_layout(file, stem);
    let values = parsed_configuration(file, stem)->Ok_0;
    assert(values.default_block_0 =~= file.subrange(0x20, 0x60));
    assert(values.default_block_1 =~= file.subrange(0x60, 0xa0));
}

/// A readback is refused if and only if it is shorter than 32 bytes, or begins as the
/// parameter image does: over all of its bytes, or over all those of the image if
/// there are more.
pub proof fn law_refused_readbacks(data: Seq<u8>, image: Seq<u8>)
    requires
        image.len() == 2048,
    ensures
        data.len() < 32 <==> (readback_error(data, image) matches Some(error) && error is TooShort),
        readback_error(data, image) is Some <==> data.len() < 32 || data.is_prefix_of(image)
            || image.is_prefix_of(data),
{
    let compared = compared_length(data);
    if data.is_prefix_of(image) || image.is_prefix_of(data) {
        assert(data.take(compared) =~= image.take(compared));
    }
    if data.take(compared) == image.take(compared) {
        if data.len() < 2048 {
            assert(data.take(compared) =~= data);
            assert(data =~= image.subrange(0, data.len() as int));
        } else {
            assert(image.take(compared) =~= image);
            assert(image =~= data.subrange(0, image.len() as int));
        }
    }
}

/// An operation has a length if and only if it is between 1 and the largest 32-bit
/// number and the device has the region with at least so many bytes. What is not
/// asked for is the whole region.
pub proof fn law_usable_lengths(lengths: Seq<Option<usize>>, region: u32, length: usize)
    requires
        lengths.len() == 2,
    ensures
        length_error(length) is None && region_error(lengths, region, length) is None <==> 1
            <= length <= 0xffff_ffff && region < 2 && (lengths[region as int] matches Some(capacity)
            && length <= capacity),
{
}

/// A package that is chosen is the route of the requested key, and that key is one of
/// the device. No other key and no missing route is accepted.
pub proof fn law_chosen_packages(
    device_name: Seq<char>,
    keys: Seq<u8>,
    requested: Option<u8>,
    text: Seq<char>,
)
    requires
        parsed_map(text) is Ok,
    ensures
        ({
            let routes = parsed_map(text)->Ok_0;
            match chosen_package(false, device_name, keys, requested, routes) {
                Ok(Some(package)) => requested == Some(package.key) && keys.contains(package.key)
                    && routes.contains_key(package.key) && routes[package.key] == package,
                Ok(None) => false,
                Err(_) => match requested {
                    Some(key) => !keys.contains(key) || !routes.contains_key(key),
                    None => true,
                },
            }
        }),
{
    if let Some(key) = requested {
        if parsed_map(text)->Ok_0.contains_key(key) {
            law_routes_stand_under_their_keys(text, key);
        }
    }
}

/// A derived parameter image schedules the operation that was asked for and no other,
/// for the selected device and the package with the requested key: verify, read and
/// blank check never schedule programming.
#[verifier::rlimit(60)]
pub proof fn law_resolved_images_schedule_the_request(
    request: TargetRequest<'_>,
    assets: TargetAssets<'_>,
    target: ResolvedTarget,
)
    requires
        assets.database@.valid(),
        resolution(request, assets, Ok(target)),
        request.parameters is None,
    ensures
        ({
            let image = target.parameters@;
            let device = requested_devices(assets.database@, request.chip@, request.vendor)[0];
            let package = assets.packages@[request.package_key.unwrap()];
            &&& match request.operation {
                ParameterOperation::Prepare => image[0x4e8] == 1 && image[0x4e9] == 3,
                ParameterOperation::Program => image[0x4e8] == 1 && image[0x4e9] == 0,
                ParameterOperation::Read => image[0x4e8] == 2,
                ParameterOperation::Verify => image[0x4e8] == 3,
                ParameterOperation::BlankCheck => image[0x4e8] == 4,
                ParameterOperation::ConfigurationWrite => image[0x4e8] == 5,
                ParameterOperation::ConfigurationRead => image[0x4e8] == 6,
                ParameterOperation::ChipErase => image[0x4e8] == 7,
                ParameterOperation::Progress => image[0x4e8] == 8,
                ParameterOperation::AutomaticErase => image[0x4e8] == 9,
                ParameterOperation::ConfigurationVerify => image[0x4e8] == 10,
            }
            &&& has_bit(word(image, 0x4e4), 1) <==> request.operation is Program
                || request.operation is Prepare
            &&& has_masks(request.operation, request.region as int, image[0x320], image[0x321])
            &&& word(image, 0x80) == device.source_index
            &&& image[0x86] == package.key
            &&& half(image, 0x84) == package.package_type
            &&& copies(image, 0x90, device.raw, 0, 0x90)
            &&& copies(image, 0x10, request.local_time_bcd@, 0, 7)
            &&& target.region_lengths@[0] == if word(device.raw, 48) == 0 {
                None
            } else {
                Some(word(device.raw, 48) as usize)
            }
            &&& target.region_lengths@[1] == if word(device.raw, 56) == 0 {
                None
            } else {
                Some(word(device.raw, 56) as usize)
            }
        }),
{
    let inputs = lemma_derived_image(request, assets, target);
    lemma_scheduled_request(inputs, target.prepared_project@, target.parameters@);
    law_data_regions(inputs.device.raw, 0);
    law_data_regions(inputs.device.raw, 1);
}

proof fn lemma_scheduled_request(
    inputs: AutomaticInputsView,
    project: PreparedProjectView,
    image: Seq<u8>,
)
    requires
        inputs.device.raw.len() == DEVICE_RECORD_BYTES,
        inputs.algorithm.valid(),
        inputs.configuration matches Some(values) ==> values.default_block_0.len() == 0x40
            && values.default_block_1.len() == 0x40,
        prepared_project(inputs.device.raw, inputs.region, inputs.project_data) == Ok::<
            PreparedProjectView,
            DeviceParameterBuildError<Seq<char>>,
        >(project),
        image_outcome(None, Some(inputs), Ok(image)),
    ensures
        match inputs.operation {
            ParameterOperation::Prepare => image[0x4e8] == 1 && image[0x4e9] == 3,
            ParameterOperation::Program => image[0x4e8] == 1 && image[0x4e9] == 0,
            ParameterOperation::Read => image[0x4e8] == 2,
            ParameterOperation::Verify => image[0x4e8] == 3,
            ParameterOperation::BlankCheck => image[0x4e8] == 4,
            ParameterOperation::ConfigurationWrite => image[0x4e8] == 5,
            ParameterOperation::ConfigurationRead => image[0x4e8] == 6,
            ParameterOperation::ChipErase => image[0x4e8] == 7,
            ParameterOperation::Progress => image[0x4e8] == 8,
            ParameterOperation::AutomaticErase => image[0x4e8] == 9,
            ParameterOperation::ConfigurationVerify => image[0x4e8] == 10,
        },
        has_bit(word(image, 0x4e4), 1) <==> inputs.operation is Program
            || inputs.operation is Prepare,
        has_masks(inputs.operation, inputs.region as int, image[0x320], image[0x321]),
        word(image, 0x80) == inputs.device.source_index,
        image[0x86] == inputs.package.key,
        half(image, 0x84) == inputs.package.package_type,
        copies(image, 0x90, inputs.device.raw, 0, 0x90),
        copies(image, 0x10, inputs.local_time_bcd@, 0, 7),
{
    lemma_image_of_project(inputs, project, image);
    law_aligned_range_covers_the_project(inputs.project_data);
    assert(inputs.device.source_index <= u32::MAX) by {
        reveal(image_outcome);
    }
    let strings = inputs.encoded_texts().profile_strings();
    law_images_schedule_their_operation(inputs, project, strings, crc32(project.selected()));
    law_new_project_layout(inputs, project, strings, crc32(project.selected()));
}

} // verus!
