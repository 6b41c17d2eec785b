use crc32fast::hash;
use flypro::arguments::{
    parse_integer, parse_u16, parse_u32, parse_u8, parse_usize, IntegerError,
};
use flypro::assets::configuration::{Configuration, ConfigurationError};
use flypro::assets::defaults::default_device_database;
use flypro::assets::device_db::{
    sfly_crc16, DeviceDatabaseError, DeviceSelectionError, DEVICE_RECORD_BYTES, TRAILER_SUM,
    VENDOR_RECORD_BYTES,
};
use flypro::assets::embedded_algorithms::{embedded_algorithm, EmbeddedAlgorithm};
use flypro::assets::embedded_configurations::{embedded_configuration, EmbeddedConfiguration};
use flypro::assets::package_map::PackageMap;
use flypro::parameters::{DeviceParameterBuildError, ParameterOperation};
use flypro::protocol::{DeviceParameterImage, ProtocolError};
use flypro::target::{
    configuration_payload, encode_local_time_bcd, ensure_flash_readback,
    inferred_operation_length, require_destructive_confirmation, require_static_opt_in,
    resolve_target, validate_operation_length, validate_region_length, AlgorithmLoadError,
    ConfigurationLoadError, ConfigurationPayloadError, PackageChoiceError, ReadbackError,
    RequestError, ResolvedTarget, TargetAssets, TargetError, TargetRequest,
};

const STEM_XOR_KEY: [u8; 16] = [
    0xc5, 0xfc, 0x82, 0xde, 0xb1, 0xf3, 0xaf, 0xe3, 0xbc, 0xc4, 0xa2, 0x99, 0xb1, 0xe1, 0x96, 0x9c,
];

fn algorithm_file(name: &str) -> Vec<u8> {
    let mut bytes = vec![0_u8; 0x200 + 0x4000 + 0x0c + 4];
    bytes[..4].copy_from_slice(b"ALG\0");
    bytes[0x08..0x0a].copy_from_slice(&0x4000_u16.to_le_bytes());
    bytes[0x10..0x10 + name.len()].copy_from_slice(name.as_bytes());
    bytes[0x20..0x28].copy_from_slice(&[0x20, 0x24, 0x05, 0x18, 0x13, 0x04, 0x30, 0]);
    bytes[0x30..0x35].copy_from_slice(b"FLASH");
    let crc_offset = bytes.len() - 4;
    let crc = hash(&bytes[..crc_offset]);
    bytes[crc_offset..].copy_from_slice(&crc.to_le_bytes());
    bytes
}

fn configuration_file(name: &str) -> Vec<u8> {
    let mut bytes = vec![0_u8; 0x132];
    bytes[0..4].copy_from_slice(b"CFG\0");
    bytes[0x04..0x06].copy_from_slice(&9_u16.to_le_bytes());
    bytes[0x10..0x10 + name.len()].copy_from_slice(name.as_bytes());
    bytes[0x20..0x60].fill(0x31);
    bytes[0x60..0xa0].fill(0x7c);
    let crc = sfly_crc16(&bytes);
    bytes[0x130..].copy_from_slice(&crc.to_be_bytes());
    bytes
}

fn encode_stem(target: &mut [u8], stem: &str) {
    for (index, byte) in stem.bytes().enumerate() {
        target[index] = byte ^ STEM_XOR_KEY[index];
    }
}

fn device_record(name: &[u8], algorithm: &str, configuration: &str, length: u32) -> Vec<u8> {
    let mut raw = vec![0_u8; DEVICE_RECORD_BYTES];
    raw[..name.len()].copy_from_slice(name);
    raw[0x30..0x34].copy_from_slice(&length.to_le_bytes());
    encode_stem(&mut raw[0x50..0x60], algorithm);
    encode_stem(&mut raw[0x60..0x70], configuration);
    raw
}

fn catalog_file(file_name: &[u8]) -> Vec<u8> {
    let records = [
        device_record(b"W25Q128BV", "W25Q128", "W25Q128S", 0x0100_0000),
        device_record(b"W25Q16JVxxxQ", "W25Q128", "W25Q128S", 0x20_0000),
        device_record(b"LOST", "MISSING", "", 0x1000),
        device_record(b"STRAY", "W25Q128", "NOWHERE", 0x1000),
        device_record(b"TWIN", "W25Q128", "", 0x1000),
        device_record(b"twin", "W25Q128", "", 0x1000),
        device_record(b"PLAIN", "W25Q128", "", 0x1000),
    ];
    let mut bytes = vec![0_u8; 0x100];
    bytes[0..4].copy_from_slice(b"DEV\0");
    bytes[0x04..0x06].copy_from_slice(&2_u16.to_le_bytes());
    bytes[0x08..0x0c].copy_from_slice(&1_u32.to_le_bytes());
    bytes[0x0c..0x10].copy_from_slice(&u32::try_from(records.len()).expect("fits").to_le_bytes());
    bytes[0x10..0x10 + file_name.len()].copy_from_slice(file_name);
    bytes[0x20..0x28].copy_from_slice(&[0x20, 0x26, 0x07, 0x14, 0x21, 0x00, 0x25, 0]);
    bytes[0xff] = bytes.iter().fold(0, |left, right| left ^ right);
    let mut owner = vec![0_u8; VENDOR_RECORD_BYTES];
    owner[..2].copy_from_slice(b"WB");
    owner[0x08..0x0c].copy_from_slice(&u32::try_from(records.len()).expect("fits").to_le_bytes());
    owner[0x10..0x17].copy_from_slice(b"Winbond");
    bytes.extend_from_slice(&owner);
    for record in &records {
        bytes.extend_from_slice(record);
    }
    let crc = sfly_crc16(&bytes);
    bytes.extend_from_slice(&crc.to_le_bytes());
    let sum = bytes
        .iter()
        .fold(0_u16, |sum, byte| sum.wrapping_add(u16::from(*byte)));
    bytes.extend_from_slice(&TRAILER_SUM.wrapping_sub(sum).to_le_bytes());
    bytes
}

fn request(chip: &'static str, operation: ParameterOperation) -> TargetRequest<'static> {
    TargetRequest {
        accept_static_protocol: true,
        chip,
        vendor: None,
        package_key: Some(150),
        algorithm: None,
        configuration: None,
        parameters: None,
        operation,
        region: 0,
        project_data: &[],
        local_time_bcd: [0x20, 0x26, 0x07, 0x20, 0x18, 0x30, 0x45],
    }
}

fn resolve(request: &TargetRequest<'_>) -> Result<ResolvedTarget, TargetError> {
    let database = default_device_database(&catalog_file(b"SP20.dev")).expect("valid catalog");
    let algorithm = algorithm_file("W25Q128");
    let configuration = configuration_file("W25Q128S");
    let packages = PackageMap::parse(
        "32=1008,SOIC8-150,SF-SOP8-150A\n150=1108,WSON8(8x6),SF-WSON8\n8=0100,,ISP-M25\n7=0001,DIRECT\n",
    )
    .expect("valid map");
    let keys = [vec![150, 9, 7], vec![32], vec![150], vec![150], vec![], vec![], vec![]];
    resolve_target(
        request,
        &TargetAssets {
            database: &database,
            package_keys: &keys,
            algorithms: &[EmbeddedAlgorithm::new("w25q128", "w25q128.alg", &algorithm)],
            configurations: &[EmbeddedConfiguration::new(
                "W25Q128S",
                "W25Q128S.cfg",
                &configuration,
            )],
            packages: &packages,
        },
    )
}

#[test]
fn resolves_the_default_target_without_usb_access() {
    let mut wanted = request("W25Q128BV", ParameterOperation::Program);
    wanted.project_data = &[0xa5; 16];

    let resolved = resolve(&wanted).expect("default target resolves");
    assert_eq!(resolved.vendor_name, "Winbond");
    assert_eq!(resolved.device_name, "W25Q128BV");
    assert_eq!(resolved.algorithm.name(), "W25Q128");
    assert_eq!(resolved.region_lengths[0], Some(0x0100_0000));
    assert_eq!(
        resolved
            .configuration
            .as_ref()
            .expect("inferred configuration")
            .name(),
        "W25Q128S"
    );
    assert_eq!(&resolved.parameters.as_bytes()[..4], b"SPRJ");
    assert_eq!(resolved.region_lengths[1], None);
    assert_eq!(resolved.prepared_project.range(), 0..0x800);
    assert_eq!(
        resolved.package_description.as_deref(),
        Some("WSON8(8x6) (key 150, type 0x1108, adapter SF-WSON8)")
    );
}

#[test]
fn resolves_w25q16jv_with_the_selected_soic_route() {
    let mut wanted = request("W25Q16JVxxxQ", ParameterOperation::Read);
    wanted.package_key = Some(32);

    let resolved = resolve(&wanted).expect("W25Q16JV target resolves");
    let parameters = resolved.parameters.as_bytes();

    assert_eq!(resolved.region_lengths[0], Some(0x20_0000));
    assert_eq!(resolved.algorithm.name(), "W25Q128");
    assert_eq!(parameters[0x086], 32);
    assert_eq!(
        u16::from_le_bytes(parameters[0x084..0x086].try_into().unwrap()),
        0x1008
    );
    assert_eq!(&parameters[0x060..0x069], b"SOIC8-150");
    assert_eq!(
        u32::from_le_bytes(parameters[0x324..0x328].try_into().unwrap()),
        0x111
    );
}

#[test]
fn resolution_names_the_first_step_that_fails() {
    let mut refused = request("W25Q128BV", ParameterOperation::Read);
    refused.accept_static_protocol = false;
    assert!(matches!(resolve(&refused), Err(TargetError::OptInRequired)));

    assert!(matches!(
        resolve(&request("NOTHING", ParameterOperation::Read)),
        Err(TargetError::Selection(DeviceSelectionError::NotFound { device, vendor: None }))
            if device == "NOTHING"
    ));
    assert!(matches!(
        resolve(&request("TWIN", ParameterOperation::Read)),
        Err(TargetError::Selection(DeviceSelectionError::Ambiguous { candidates, .. }))
            if candidates == ["Winbond TWIN (record 4)", "Winbond twin (record 5)"]
    ));
    assert!(matches!(
        resolve(&request("LOST", ParameterOperation::Read)),
        Err(TargetError::Algorithm(AlgorithmLoadError::NotFound { stem })) if stem == "MISSING"
    ));
    assert!(matches!(
        resolve(&request("STRAY", ParameterOperation::Read)),
        Err(TargetError::Configuration(ConfigurationLoadError::NotFound { stem }))
            if stem == "NOWHERE"
    ));
    let mut broken = request("STRAY", ParameterOperation::Read);
    broken.configuration = Some(&[0; 3]);
    assert!(matches!(
        resolve(&broken),
        Err(TargetError::Configuration(ConfigurationLoadError::Invalid(_)))
    ));
    let mut region = request("W25Q128BV", ParameterOperation::Read);
    region.region = 1;
    assert!(matches!(
        resolve(&region),
        Err(TargetError::Project(DeviceParameterBuildError::RegionUnavailable { region: 1 }))
    ));
    let mut keyless = request("W25Q128BV", ParameterOperation::Read);
    keyless.package_key = None;
    assert!(matches!(
        resolve(&keyless),
        Err(TargetError::Package(PackageChoiceError::KeyRequired { device, allowed }))
            if device == "W25Q128BV" && allowed == "150, 9, 7"
    ));
    keyless.package_key = Some(32);
    assert!(matches!(
        resolve(&keyless),
        Err(TargetError::Package(PackageChoiceError::KeyInvalid { key: 32, .. }))
    ));
    keyless.package_key = Some(9);
    assert!(matches!(
        resolve(&keyless),
        Err(TargetError::Package(PackageChoiceError::KeyUnmapped { key: 9 }))
    ));
    let mut late = request("W25Q128BV", ParameterOperation::Read);
    late.local_time_bcd[0] = 0xff;
    assert!(matches!(
        resolve(&late),
        Err(TargetError::DerivedParameters(
            DeviceParameterBuildError::InvalidBcdTime { .. }
        ))
    ));
}

#[test]
fn supplied_images_take_the_place_of_derived_ones() {
    let derived = resolve(&request("W25Q128BV", ParameterOperation::Read)).expect("resolves");
    let bytes = derived.parameters.as_bytes().to_vec();
    let mut supplied = request("W25Q128BV", ParameterOperation::Read);
    supplied.package_key = None;
    supplied.parameters = Some(&bytes);

    let resolved = resolve(&supplied).expect("resolves");
    assert_eq!(resolved.parameters, derived.parameters);
    assert_eq!(resolved.package_description, None);

    supplied.parameters = Some(&bytes[1..]);
    assert!(matches!(
        resolve(&supplied),
        Err(TargetError::SuppliedParameters(
            ProtocolError::DeviceParameterLength { actual: 0x7ff, .. }
        ))
    ));

    let mut foreign = bytes.clone();
    foreign[0x540] = b'X';
    let crc = hash(&foreign[..0x7fc]);
    foreign[0x7fc..].copy_from_slice(&crc.to_le_bytes());
    supplied.parameters = Some(&foreign);
    assert!(matches!(
        resolve(&supplied),
        Err(TargetError::ParameterMismatch(
            ProtocolError::DeviceParameterAlgorithmMetadata { field: "name", .. }
        ))
    ));
}

#[test]
fn supplied_configurations_must_carry_the_name_of_the_device_reference() {
    let derived = resolve(&request("W25Q128BV", ParameterOperation::Read)).expect("resolves");
    let image = derived.parameters.as_bytes().to_vec();
    let foreign = configuration_file("OTHER");
    let named = configuration_file("w25q128s");

    for parameters in [None, Some(image.as_slice())] {
        let mut wanted = request("W25Q128BV", ParameterOperation::Read);
        wanted.parameters = parameters;
        wanted.configuration = Some(&foreign);
        assert!(matches!(
            resolve(&wanted),
            Err(TargetError::Configuration(ConfigurationLoadError::Invalid(
                ConfigurationError::NameMismatch { expected, actual }
            ))) if expected == "W25Q128S" && actual == "OTHER"
        ));

        wanted.configuration = Some(&named);
        let resolved = resolve(&wanted).expect("resolves");
        assert_eq!(resolved.configuration.expect("supplied").name(), "w25q128s");
    }
}

#[test]
fn devices_without_a_reference_take_any_valid_configuration() {
    let derived = resolve(&request("W25Q128BV", ParameterOperation::Read)).expect("resolves");
    let image = derived.parameters.as_bytes().to_vec();
    let supplied = configuration_file("OTHER");
    let mut wanted = request("W25Q128BV", ParameterOperation::Read);
    wanted.chip = "PLAIN";
    wanted.parameters = Some(&image);
    wanted.configuration = Some(&supplied);
    let resolved = resolve(&wanted).expect("resolves");
    assert_eq!(resolved.configuration.expect("supplied").name(), "OTHER");

    wanted.configuration = Some(&supplied[1..]);
    assert!(matches!(
        resolve(&wanted),
        Err(TargetError::Configuration(ConfigurationLoadError::Invalid(_)))
    ));
}

#[test]
fn direct_routes_are_described_as_such() {
    let mut wanted = request("W25Q128BV", ParameterOperation::Read);
    wanted.package_key = Some(7);
    assert_eq!(
        resolve(&wanted).expect("resolves").package_description.as_deref(),
        Some("DIRECT (key 7, type 0x0001, adapter direct)")
    );
}

#[test]
fn the_default_catalog_has_a_fixed_name() {
    assert!(default_device_database(&catalog_file(b"sp20.DEV")).is_ok());
    assert_eq!(
        default_device_database(&catalog_file(b"other.dev")),
        Err(DeviceDatabaseError::FileNameMismatch {
            expected: "SP20.dev".to_owned(),
            actual: "other.dev".to_owned(),
        })
    );
}

#[test]
fn finds_algorithm_for_device_database_stem() {
    let bytes = algorithm_file("W25Q128");
    let other = algorithm_file("AT25PE");
    let assets = [
        EmbeddedAlgorithm::new("at25pe", "at25pe.alg", &other),
        EmbeddedAlgorithm::new("w25q128", "w25q128.alg", &bytes),
    ];
    let algorithm = embedded_algorithm(&assets, "W25Q128").expect("W25Q128 is bundled");

    assert_eq!(algorithm.stem(), "w25q128");
    assert_eq!(algorithm.file_name(), "w25q128.alg");
    assert!(algorithm.bytes().starts_with(b"ALG\0"));
    assert!(embedded_algorithm(&assets, "w25q128.alg").is_none());
    assert!(embedded_algorithm(&assets, "missing").is_none());
    assert_eq!(algorithm.parse().expect("valid").name(), "W25Q128");
    assert!(EmbeddedAlgorithm::new("at25pe", "at25pe.alg", &bytes)
        .parse()
        .is_err());
}

#[test]
fn finds_configuration_case_insensitively() {
    let bytes = configuration_file("W25Q128S");
    let assets = [EmbeddedConfiguration::new("W25Q128S", "W25Q128S.cfg", &bytes)];
    let configuration = embedded_configuration(&assets, "w25q128s").expect("W25Q128S is bundled");

    assert_eq!(configuration.stem(), "W25Q128S");
    assert_eq!(configuration.file_name(), "W25Q128S.cfg");
    assert!(configuration.bytes().starts_with(b"CFG\0"));
    assert!(embedded_configuration(&assets, "W25Q128S.cfg").is_none());
    assert_eq!(configuration.parse().expect("valid").name(), "W25Q128S");
}

#[test]
fn uses_configuration_blocks_when_payload_paths_are_omitted() {
    let configuration = Configuration::parse(&configuration_file("W25Q128S"))
        .expect("valid configuration");

    let (data, mask) = configuration_payload(None, None, Some(&configuration))
        .expect("inferred configuration payload");
    assert_eq!(&data, configuration.default_block_0());
    assert_eq!(&mask, configuration.default_block_1());
}

#[test]
fn configuration_payloads_need_both_blocks() {
    let block = [0x5a; 64];
    assert_eq!(
        configuration_payload(Some(&block), Some(&block), None),
        Ok((block, block))
    );
    assert_eq!(
        configuration_payload(None, Some(&block), None),
        Err(ConfigurationPayloadError::DataMissing)
    );
    assert_eq!(
        configuration_payload(Some(&block[1..]), None, None),
        Err(ConfigurationPayloadError::DataLength { actual: 63 })
    );
    assert_eq!(
        configuration_payload(Some(&block), None, None),
        Err(ConfigurationPayloadError::MaskMissing)
    );
    assert_eq!(
        configuration_payload(Some(&block), Some(&[]), None),
        Err(ConfigurationPayloadError::MaskLength { actual: 0 })
    );
}

#[test]
fn encodes_the_original_seven_byte_local_time_shape() {
    assert_eq!(
        encode_local_time_bcd(2026, 7, 20, 18, 30, 45).expect("valid time"),
        [0x20, 0x26, 0x07, 0x20, 0x18, 0x30, 0x45]
    );
}

#[test]
fn years_beyond_four_digits_are_rejected() {
    assert_eq!(
        encode_local_time_bcd(-1, 1, 1, 0, 0, 0),
        Err(RequestError::YearOutOfRange { year: -1 })
    );
    assert_eq!(
        encode_local_time_bcd(10_000, 1, 1, 0, 0, 0),
        Err(RequestError::YearOutOfRange { year: 10_000 })
    );
    assert_eq!(
        encode_local_time_bcd(9_999, 12, 31, 23, 59, 59),
        Ok([0x99, 0x99, 0x12, 0x31, 0x23, 0x59, 0x59])
    );
}

#[test]
fn destructive_commands_require_confirmation_before_usb() {
    assert!(require_destructive_confirmation(false).is_err());
    assert!(require_destructive_confirmation(true).is_ok());
}

#[test]
fn the_protocol_must_be_accepted() {
    assert_eq!(
        require_static_opt_in(false),
        Err(RequestError::OptInRequired)
    );
    assert_eq!(require_static_opt_in(true), Ok(()));
}

#[test]
fn operation_lengths_are_rejected_before_usb() {
    assert!(validate_operation_length(0).is_err());
    assert!(validate_operation_length(1).is_ok());
    if usize::BITS > 32 {
        assert!(validate_operation_length(usize::MAX).is_err());
    }
}

#[test]
fn lengths_are_inferred_from_regions_and_bounded_by_them() {
    let lengths = [Some(0x1000), None];
    assert_eq!(inferred_operation_length(None, &lengths, 0), Ok(0x1000));
    assert_eq!(inferred_operation_length(Some(16), &lengths, 0), Ok(16));
    assert_eq!(
        inferred_operation_length(Some(0), &lengths, 0),
        Err(RequestError::ZeroLength)
    );
    assert_eq!(
        inferred_operation_length(None, &lengths, 1),
        Err(RequestError::RegionUnavailable { region: 1 })
    );
    assert_eq!(
        inferred_operation_length(Some(1), &lengths, 7),
        Err(RequestError::RegionUnavailable { region: 7 })
    );
    assert_eq!(
        validate_region_length(&lengths, 0, 0x1001),
        Err(RequestError::LengthExceedsRegion {
            length: 0x1001,
            region: 0,
            capacity: 0x1000,
        })
    );
}

#[test]
fn rejects_parameter_buffer_returned_as_flash_data() {
    let mut bytes = [0_u8; 0x800];
    bytes[..4].copy_from_slice(b"SPRJ");
    bytes[0x10..0x17].copy_from_slice(&[0x20, 0x26, 0x07, 0x20, 0x18, 0x30, 0x45]);
    let parameters = DeviceParameterImage::from_bytes(bytes);

    assert!(ensure_flash_readback(&bytes[..256], &parameters).is_err());

    let mut flash_data = bytes[..256].to_vec();
    flash_data[0] ^= 0xff;
    assert!(ensure_flash_readback(&flash_data, &parameters).is_ok());
}

#[test]
fn reports_short_readback_as_inconclusive() {
    let mut bytes = [0_u8; 0x800];
    bytes[..4].copy_from_slice(b"SPRJ");
    let parameters = DeviceParameterImage::from_bytes(bytes);

    for readback in [&bytes[..1], &bytes[..4], &[0xff; 4]] {
        let error = ensure_flash_readback(readback, &parameters)
            .expect_err("short readback cannot be classified safely");
        assert!(error.message().contains("required to distinguish"));
        assert!(!error.message().contains("instead of Flash data"));
    }

    let mut distinctive = bytes[..0x20].to_vec();
    distinctive[0] ^= 0xff;
    assert!(ensure_flash_readback(&distinctive, &parameters).is_ok());
}

#[test]
fn readbacks_longer_than_the_image_are_compared_with_all_of_it() {
    let bytes = [0x21_u8; 0x800];
    let parameters = DeviceParameterImage::from_bytes(bytes);
    let mut long = bytes.to_vec();
    long.extend_from_slice(&[0; 16]);

    let error = ensure_flash_readback(&long, &parameters).expect_err("the image came back");
    assert_eq!(error, ReadbackError::ParameterBuffer);
    assert!(error.message().contains("instead of Flash data"));
    long[0x7ff] = 0;
    assert!(ensure_flash_readback(&long, &parameters).is_ok());
    assert_eq!(
        ensure_flash_readback(&[], &parameters),
        Err(ReadbackError::TooShort { length: 0 })
    );
}

#[test]
fn parses_decimal_and_hex_integers() {
    assert_eq!(parse_u32("32").expect("decimal"), 32);
    assert_eq!(parse_u32("0x20").expect("hex"), 32);
    assert!(parse_u16("0x10000").is_err());
}

#[test]
fn integers_are_bounded_by_their_size() {
    assert_eq!(parse_u8("255"), Ok(255));
    assert_eq!(parse_u8("256"), Err(IntegerError::TooLarge));
    assert_eq!(parse_u16("0XFfFf"), Ok(0xffff));
    assert_eq!(parse_u32("4294967296"), Err(IntegerError::TooLarge));
    assert_eq!(parse_usize("+7"), Ok(7));
    assert_eq!(parse_integer("18446744073709551615"), Ok(u64::MAX));
    assert_eq!(
        parse_integer("18446744073709551616"),
        Err(IntegerError::Invalid)
    );
    assert_eq!(parse_integer(""), Err(IntegerError::NotAnInteger));
    assert_eq!(parse_integer("0x"), Err(IntegerError::NotAnInteger));
    assert_eq!(parse_integer("-1"), Err(IntegerError::Invalid));
    assert_eq!(parse_integer("12a"), Err(IntegerError::Invalid));
}
