use crc32fast::hash;
use flypro::assets::algorithm::{Algorithm, CRC32_BYTES, HEADER_BYTES, RESERVED_BYTES};
use flypro::assets::configuration::Configuration;
use flypro::assets::device_db::{
    sfly_crc16, DeviceDatabase, DEVICE_RECORD_BYTES, TRAILER_SUM, VENDOR_RECORD_BYTES,
};
use flypro::assets::package_map::PackageMap;
use flypro::parameters::{
    automatic_parameter_body, build_automatic_device_parameters, build_device_parameters,
    device_parameter_body, fold_capabilities,
    prepare_project_data, AutomaticParameterInputs, DeviceParameterBuildError,
    DeviceParameterInputs, EncodedText, ParameterOperation, ProfileTextField, ProfileTextFields,
    ProjectTexts, DERIVED_RANGE_BYTES, RUNTIME_PROFILE_BYTES,
};
use flypro::protocol::DeviceParameterImage;

const LOCAL_TIME: [u8; 7] = [0x20, 0x26, 0x07, 0x20, 0x18, 0x30, 0x45];

const STEM_XOR_KEY: [u8; 16] = [
    0xc5, 0xfc, 0x82, 0xde, 0xb1, 0xf3, 0xaf, 0xe3, 0xbc, 0xc4, 0xa2, 0x99, 0xb1, 0xe1, 0x96, 0x9c,
];

fn read_image_u32(bytes: &[u8], offset: usize) -> u32 {
    u32::from_le_bytes(bytes[offset..offset + 4].try_into().expect("field"))
}

fn algorithm_with_payload(name: &str, payload: &[u8]) -> Algorithm {
    let payload_length = payload.len();
    let mut bytes = vec![0_u8; HEADER_BYTES + payload_length + RESERVED_BYTES + CRC32_BYTES];
    bytes[..4].copy_from_slice(b"ALG\0");
    bytes[0x08..0x0a].copy_from_slice(&u16::try_from(payload_length).expect("fits").to_le_bytes());
    bytes[0x10..0x10 + name.len()].copy_from_slice(name.as_bytes());
    bytes[0x20..0x28].copy_from_slice(&[0x20, 0x24, 0x05, 0x18, 0x13, 0x04, 0x30, 0]);
    bytes[0x30..0x35].copy_from_slice(b"FLASH");
    bytes[0x70..0x76].copy_from_slice(b"<NONE>");
    bytes[0xb0..0xbf].copy_from_slice(b"Status Register");
    bytes[HEADER_BYTES..HEADER_BYTES + payload_length].copy_from_slice(payload);
    let crc_offset = bytes.len() - CRC32_BYTES;
    let crc = hash(&bytes[..crc_offset]);
    bytes[crc_offset..].copy_from_slice(&crc.to_le_bytes());
    Algorithm::parse(&bytes).expect("valid fixture")
}

/// An algorithm with the name, timestamp, payload length and payload CRC32 of
/// the W25Q128 asset.
fn algorithm() -> Algorithm {
    let mut payload = vec![0_u8; 0x4000];
    payload[0x3ffc..].copy_from_slice(&0x2488_6dba_u32.to_le_bytes());
    let algorithm = algorithm_with_payload("W25Q128", &payload);
    assert_eq!(algorithm.payload_crc32(), 0x56cd_d299);
    algorithm
}

fn configuration(name: &str) -> Configuration {
    let mut bytes = vec![0_u8; 0x132];
    bytes[0..4].copy_from_slice(b"CFG\0");
    bytes[0x04..0x06].copy_from_slice(&9_u16.to_le_bytes());
    bytes[0x10..0x10 + name.len()].copy_from_slice(name.as_bytes());
    bytes[0x20..0x60].fill(0x31);
    bytes[0x60..0xa0].fill(0x7c);
    bytes[0xa4..0xa8].copy_from_slice(&0x0102_0304_u32.to_le_bytes());
    let crc = sfly_crc16(&bytes);
    bytes[0x130..].copy_from_slice(&crc.to_be_bytes());
    Configuration::parse(&bytes).expect("valid fixture")
}

fn encode_stem(target: &mut [u8], stem: &str) {
    for (index, byte) in stem.bytes().enumerate() {
        target[index] = byte ^ STEM_XOR_KEY[index];
    }
}

fn device_record(name: &[u8], algorithm: &str, configuration: &str, length: u32) -> Vec<u8> {
    let mut raw = vec![0_u8; DEVICE_RECORD_BYTES];
    raw[..name.len()].copy_from_slice(name);
    raw[0x30..0x34].copy_from_slice(&length.to_le_bytes());
    encode_stem(&mut raw[0x50..0x60], algorithm);
    encode_stem(&mut raw[0x60..0x70], configuration);
    raw
}

fn catalog(vendor: &[u8], records: &[Vec<u8>]) -> DeviceDatabase {
    let mut bytes = vec![0_u8; 0x100];
    bytes[0..4].copy_from_slice(b"DEV\0");
    bytes[0x04..0x06].copy_from_slice(&2_u16.to_le_bytes());
    bytes[0x08..0x0c].copy_from_slice(&1_u32.to_le_bytes());
    bytes[0x0c..0x10].copy_from_slice(&u32::try_from(records.len()).expect("fits").to_le_bytes());
    bytes[0x10..0x18].copy_from_slice(b"SP20.dev");
    bytes[0x20..0x28].copy_from_slice(&[0x20, 0x26, 0x07, 0x14, 0x21, 0x00, 0x25, 0]);
    bytes[0xff] = bytes.iter().fold(0, |left, right| left ^ right);
    let mut owner = vec![0_u8; VENDOR_RECORD_BYTES];
    owner[..2].copy_from_slice(b"WB");
    owner[0x08..0x0c].copy_from_slice(&u32::try_from(records.len()).expect("fits").to_le_bytes());
    owner[0x10..0x10 + vendor.len()].copy_from_slice(vendor);
    bytes.extend_from_slice(&owner);
    for record in records {
        bytes.extend_from_slice(record);
    }
    let crc = sfly_crc16(&bytes);
    bytes.extend_from_slice(&crc.to_le_bytes());
    let sum = bytes
        .iter()
        .fold(0_u16, |sum, byte| sum.wrapping_add(u16::from(*byte)));
    bytes.extend_from_slice(&TRAILER_SUM.wrapping_sub(sum).to_le_bytes());
    DeviceDatabase::parse(&bytes).expect("valid catalog")
}

/// A catalog in which W25Q128BV is record 4187.
fn database() -> DeviceDatabase {
    let mut records = vec![device_record(b"FILLER", "OTHER", "", 0); 4_187];
    records.push(device_record(b"W25Q128BV", "W25Q128", "W25Q128S", 0x0100_0000));
    catalog(b"Winbond", &records)
}

fn small_database(vendor: &[u8], name: &[u8]) -> DeviceDatabase {
    catalog(vendor, &[device_record(name, "W25Q128", "W25Q128S", 0x0100_0000)])
}

fn packages() -> PackageMap {
    PackageMap::parse("32=1008,SOIC8-150,SF-SOP8-150A\n150=1108,WSON8(8x6),SF-WSON8\n")
        .expect("valid map")
}

#[test]
fn builds_deterministic_sprj_image() {
    let algorithm = algorithm();
    let mut profile = [0_u8; RUNTIME_PROFILE_BYTES];
    profile[0x124..0x128].copy_from_slice(&0x0400_0001_u32.to_le_bytes());
    profile[0x516..0x51b].copy_from_slice(&[1, 2, 3, 7, 9]);
    profile[0x73e..0x77e].fill(0xa5);
    profile[0x77e..0x7be].fill(0x5a);
    let device_record = [0x3c_u8; DEVICE_RECORD_BYTES];
    let project_data: Vec<_> = (0_u16..4096).map(|value| value.to_le_bytes()[0]).collect();
    let mut text = ProfileTextFields::default();
    text.set(ProfileTextField::Source0050, b"W25Q128BV".to_vec());
    text.set(ProfileTextField::Source000e, b"Winbond".to_vec());
    let inputs = DeviceParameterInputs {
        runtime_profile: &profile,
        profile_text: &text,
        device_record: &device_record,
        algorithm: &algorithm,
        project_data: &project_data,
        data_range: 0x800..0x1000,
        local_time_bcd: [0x20, 0x26, 0x07, 0x20, 0x18, 0x30, 0x45],
        derived_ranges: [0x11; DERIVED_RANGE_BYTES],
    };

    let image = build_device_parameters(&inputs).expect("valid inputs");
    let bytes = image.as_bytes();
    assert_eq!(&bytes[..4], b"SPRJ");
    assert_eq!(read_image_u32(bytes, 0x004), 0x0161_0001);
    assert_eq!(&bytes[0x010..0x017], &inputs.local_time_bcd);
    assert_eq!(&bytes[0x020..0x029], b"W25Q128BV");
    assert_eq!(&bytes[0x090..0x120], &device_record);
    assert_eq!(&bytes[0x450..0x490], &[0xa5; 64]);
    assert_eq!(&bytes[0x490..0x4d0], &[0x5a; 64]);
    assert_eq!(read_image_u32(bytes, 0x4e4), 0x080f);
    assert_eq!(&bytes[0x540..0x547], b"W25Q128");
    assert_eq!(read_image_u32(bytes, 0x558), 0x4000);
    assert_eq!(read_image_u32(bytes, 0x56c), 0x800);
    assert_eq!(read_image_u32(bytes, 0x570), 0x800);
    assert_eq!(
        read_image_u32(bytes, 0x574),
        hash(&project_data[0x800..0x1000])
    );
    assert_eq!(read_image_u32(bytes, 0x7fc), hash(&bytes[..0x7fc]));
    assert_eq!(read_image_u32(bytes, 0x7fc), 0xef84_ed2d);
}

#[test]
fn derives_w25q128_parameters_from_default_assets() {
    let database = database();
    let selected = database
        .select_device("W25Q128BV", None)
        .expect("default device");
    let algorithm = algorithm();
    let configuration = configuration("W25Q128S");
    let project_data = [0xa5; 256];
    let packages = packages();
    let package = packages.get(150).expect("device package");

    let image = build_automatic_device_parameters(&AutomaticParameterInputs {
        device: selected.device(),
        package_keys: &[150],
        vendor_name: selected.vendor().name(),
        algorithm: &algorithm,
        configuration: Some(&configuration),
        package,
        operation: ParameterOperation::Program,
        region: 0,
        project_data: &project_data,
        local_time_bcd: [0x20, 0x26, 0x07, 0x20, 0x18, 0x30, 0x45],
    })
    .expect("automatic parameters");
    let bytes = image.as_bytes();

    assert_eq!(&bytes[0x020..0x027], b"Winbond");
    assert_eq!(&bytes[0x040..0x049], b"W25Q128BV");
    assert_eq!(&bytes[0x090..0x120], selected.device().raw());
    assert_eq!(read_image_u32(bytes, 0x080), 4_187);
    assert_eq!(
        u16::from_le_bytes(bytes[0x084..0x086].try_into().unwrap()),
        0x1108
    );
    assert_eq!(bytes[0x086], 150);
    assert_eq!(&bytes[0x060..0x06a], b"WSON8(8x6)");
    assert_eq!(&bytes[0x450..0x490], configuration.default_block_0());
    assert_eq!(&bytes[0x490..0x4d0], configuration.default_block_1());
    assert_eq!(
        read_image_u32(bytes, 0x4d0),
        configuration.default_protection_bits()
    );
    assert_eq!(read_image_u32(bytes, 0x4e4), 0x001);
    assert_eq!(bytes[0x4e8], 1);
    assert_eq!(bytes[0x320], 1);
    assert_eq!(read_image_u32(bytes, 0x330), 0x0104_0000);
    assert_eq!(read_image_u32(bytes, 0x334), 0x00ff_fff0);
    assert_eq!(read_image_u32(bytes, 0x56c), 0);
    assert_eq!(read_image_u32(bytes, 0x570), 0x800);
    assert_eq!(read_image_u32(bytes, 0x57c), 0x800);
    assert_eq!(read_image_u32(bytes, 0x584), 0x0100_0000);
    assert_eq!(read_image_u32(bytes, 0x58c), 0x0100_0000);
    image
        .validate_for_algorithm(&algorithm)
        .expect("derived image matches algorithm");
}

#[test]
fn derives_configuration_operation_and_rejects_unavailable_regions() {
    let database = small_database(b"Winbond", b"W25Q128BV");
    let selected = database
        .select_device("W25Q128BV", None)
        .expect("default device");
    let algorithm = algorithm();
    let configuration = configuration("W25Q128S");
    let packages = packages();
    let package = packages.get(150).expect("device package");
    let mut inputs = AutomaticParameterInputs {
        device: selected.device(),
        package_keys: &[150],
        vendor_name: selected.vendor().name(),
        algorithm: &algorithm,
        configuration: Some(&configuration),
        package,
        operation: ParameterOperation::ConfigurationVerify,
        region: 0,
        project_data: &[],
        local_time_bcd: [0x20, 0x26, 0x07, 0x20, 0x18, 0x30, 0x45],
    };

    let image = build_automatic_device_parameters(&inputs).expect("configuration profile");
    assert_eq!(image.as_bytes()[0x320], 0x10);
    assert_eq!(image.as_bytes()[0x4e8], 10);
    assert_eq!(read_image_u32(image.as_bytes(), 0x4e4), 0x40);

    inputs.region = 2;
    assert!(matches!(
        build_automatic_device_parameters(&inputs),
        Err(DeviceParameterBuildError::RegionUnavailable { region: 2 })
    ));
}

#[test]
fn folds_every_confirmed_operation_code() {
    assert_eq!(
        fold_capabilities([1, 2, 3, 4, 5, 6, 7, 8, 9, 10, 11, 0, 0, 0, 0, 0]),
        0x087f
    );
}

#[test]
fn aligns_the_effective_non_ff_project_range() {
    let database = small_database(b"Winbond", b"W25Q128BV");
    let device = database
        .select_device("W25Q128BV", None)
        .expect("default device")
        .device();
    let mut source = vec![0xff; 0x1001];
    source[0x821] = 0x12;
    source[0x900] = 0x34;

    let prepared = prepare_project_data(device, 0, &source).expect("prepared project");

    assert_eq!(prepared.range(), 0x800..0x1000);
    assert_eq!(prepared.bytes().len(), 0x1000);
    assert_eq!(prepared.operation_bytes()[0x21], 0x12);
    assert_eq!(prepared.operation_bytes()[0x100], 0x34);
}

#[test]
fn pads_an_aligned_range_with_erased_bytes() {
    let database = small_database(b"Winbond", b"W25Q128BV");
    let device = database.devices().first().expect("device");

    let prepared = prepare_project_data(device, 0, &[0x00, 0xff, 0x01]).expect("prepared");
    assert_eq!(prepared.range(), 0..0x800);
    assert_eq!(&prepared.bytes()[..3], &[0x00, 0xff, 0x01]);
    assert!(prepared.bytes()[3..].iter().all(|byte| *byte == 0xff));
    assert_eq!(prepared.clone(), prepared);

    let erased = prepare_project_data(device, 0, &[0xff; 0x900]).expect("prepared");
    assert_eq!(erased.range(), 0..0);
    assert!(erased.bytes().is_empty());
    assert!(erased.operation_bytes().is_empty());
}

#[test]
fn rejects_projects_that_do_not_fit_their_region() {
    let database = catalog(
        b"Winbond",
        &[device_record(b"TINY", "W25Q128", "", 0x900)],
    );
    let device = &database.devices()[0];

    assert_eq!(
        prepare_project_data(device, 1, &[]),
        Err(DeviceParameterBuildError::RegionUnavailable { region: 1 })
    );
    assert_eq!(
        prepare_project_data(device, 0, &[0; 0x901]),
        Err(DeviceParameterBuildError::ProjectTooLarge {
            data_length: 0x901,
            region: 0,
            capacity: 0x900,
        })
    );
    assert_eq!(
        prepare_project_data(device, 0, &[0; 0x801]),
        Err(DeviceParameterBuildError::ProjectTooLarge {
            data_length: 0x1000,
            region: 0,
            capacity: 0x900,
        })
    );
}

#[test]
fn layout_rejects_bad_times_and_ranges() {
    let algorithm = algorithm();
    let profile = [0_u8; RUNTIME_PROFILE_BYTES];
    let text = ProfileTextFields::default();
    let record = [0_u8; DEVICE_RECORD_BYTES];
    let mut inputs = DeviceParameterInputs {
        runtime_profile: &profile,
        profile_text: &text,
        device_record: &record,
        algorithm: &algorithm,
        project_data: &[1, 2, 3],
        data_range: 1..4,
        local_time_bcd: LOCAL_TIME,
        derived_ranges: [0; DERIVED_RANGE_BYTES],
    };

    assert_eq!(
        build_device_parameters(&inputs),
        Err(DeviceParameterBuildError::DataRange {
            start: 1,
            end: 4,
            data_length: 3,
        })
    );
    inputs.data_range = 1..3;
    assert!(build_device_parameters(&inputs).is_ok());
    inputs.local_time_bcd[6] = 0x5a;
    assert_eq!(
        build_device_parameters(&inputs),
        Err(DeviceParameterBuildError::InvalidBcdTime {
            value: [0x20, 0x26, 0x07, 0x20, 0x18, 0x30, 0x5a],
        })
    );
}

#[test]
fn layout_keeps_file_names_of_long_paths() {
    let algorithm = algorithm();
    let profile = [0_u8; RUNTIME_PROFILE_BYTES];
    let record = [0_u8; DEVICE_RECORD_BYTES];
    let field = |path: Vec<u8>| {
        let mut text = ProfileTextFields::default();
        text.set(ProfileTextField::Source0526, path);
        let body = device_parameter_body(
            &DeviceParameterInputs {
                runtime_profile: &profile,
                profile_text: &text,
                device_record: &record,
                algorithm: &algorithm,
                project_data: &[],
                data_range: 0..0,
                local_time_bcd: LOCAL_TIME,
                derived_ranges: [0; DERIVED_RANGE_BYTES],
            },
            0x1234_5678,
        )
        .expect("valid inputs");
        assert_eq!(body.len(), 0x7fc);
        assert_eq!(read_image_u32(&body, 0x574), 0x1234_5678);
        body[0x190..0x294].to_vec()
    };

    assert_eq!(&field(b"C:\\a\\b.bin".to_vec())[..11], b"C:\\a\\b.bin\0");
    let mut long = vec![b'x'; 0x103];
    long.extend_from_slice(b"\\name.bin");
    assert_eq!(&field(long)[..9], b"name.bin\0");
    let mut plain = vec![b'a'; 4];
    plain.extend_from_slice(&[b'b'; 0x103]);
    let kept = field(plain);
    assert_eq!(&kept[..0x103], &[b'b'; 0x103]);
    assert_eq!(kept[0x103], 0);
}

#[test]
fn built_images_pass_the_checks_of_supplied_ones() {
    let algorithm = algorithm();
    let profile = [0x77_u8; RUNTIME_PROFILE_BYTES];
    let image = build_device_parameters(&DeviceParameterInputs {
        runtime_profile: &profile,
        profile_text: &ProfileTextFields::default(),
        device_record: &[0x3c; DEVICE_RECORD_BYTES],
        algorithm: &algorithm,
        project_data: &[],
        data_range: 0..0,
        local_time_bcd: LOCAL_TIME,
        derived_ranges: [0; DERIVED_RANGE_BYTES],
    })
    .expect("valid inputs");

    let supplied = DeviceParameterImage::try_from_sprj(image.as_bytes()).expect("accepted");
    assert_eq!(supplied, image);
    assert!(supplied.validate_for_algorithm(&algorithm).is_ok());
}

#[test]
fn sixteen_character_names_are_cut_in_images() {
    let algorithm = algorithm_with_payload("ABCDEFGHIJKLMNOP", &[1]);
    let image = build_device_parameters(&DeviceParameterInputs {
        runtime_profile: &[0; RUNTIME_PROFILE_BYTES],
        profile_text: &ProfileTextFields::default(),
        device_record: &[0; DEVICE_RECORD_BYTES],
        algorithm: &algorithm,
        project_data: &[],
        data_range: 0..0,
        local_time_bcd: LOCAL_TIME,
        derived_ranges: [0; DERIVED_RANGE_BYTES],
    })
    .expect("valid inputs");

    assert_eq!(&image.as_bytes()[0x540..0x550], b"ABCDEFGHIJKLMNO\0");
    assert!(image.validate_for_algorithm(&algorithm).is_err());
}

#[test]
fn assets_must_belong_together() {
    let database = small_database(b"Winbond", b"W25Q128BV");
    let device = &database.devices()[0];
    let algorithm = algorithm();
    let configuration_asset = configuration("W25Q128S");
    let wrong_configuration = configuration("OTHER");
    let wrong_algorithm = algorithm_with_payload("OTHER", &[1]);
    let packages = packages();
    let inputs = |keys: &'static [u8]| AutomaticParameterInputs {
        device,
        package_keys: keys,
        vendor_name: "Winbond",
        algorithm: &algorithm,
        configuration: Some(&configuration_asset),
        package: packages.get(32).expect("route"),
        operation: ParameterOperation::Program,
        region: 0,
        project_data: &[],
        local_time_bcd: LOCAL_TIME,
    };

    assert!(build_automatic_device_parameters(&inputs(&[150, 32])).is_ok());
    assert_eq!(
        build_automatic_device_parameters(&inputs(&[150])),
        Err(DeviceParameterBuildError::PackageUnavailable {
            key: 32,
            device: "W25Q128BV".to_owned(),
        })
    );
    let mut mismatched = inputs(&[32]);
    mismatched.algorithm = &wrong_algorithm;
    assert_eq!(
        build_automatic_device_parameters(&mismatched),
        Err(DeviceParameterBuildError::AlgorithmMismatch {
            expected: "W25Q128".to_owned(),
            actual: "OTHER".to_owned(),
        })
    );
    let mut mismatched = inputs(&[32]);
    mismatched.configuration = Some(&wrong_configuration);
    assert_eq!(
        build_automatic_device_parameters(&mismatched),
        Err(DeviceParameterBuildError::ConfigurationMismatch {
            expected: "W25Q128S".to_owned(),
            actual: "OTHER".to_owned(),
        })
    );
    let mut missing = inputs(&[32]);
    missing.configuration = None;
    assert!(build_automatic_device_parameters(&missing).is_ok());
    missing.operation = ParameterOperation::ConfigurationRead;
    assert_eq!(
        build_automatic_device_parameters(&missing),
        Err(DeviceParameterBuildError::ConfigurationRequired {
            stem: Some("W25Q128S".to_owned()),
        })
    );
}

#[test]
fn images_store_texts_in_the_legacy_code_page() {
    let database = small_database(b"Winbond", b"W25Q128BV");
    let algorithm = algorithm();
    let packages = packages();
    let mut inputs = AutomaticParameterInputs {
        device: &database.devices()[0],
        package_keys: &[32],
        vendor_name: "\u{6d4b}\u{8bd5}",
        algorithm: &algorithm,
        configuration: None,
        package: packages.get(32).expect("route"),
        operation: ParameterOperation::Prepare,
        region: 0,
        project_data: &[],
        local_time_bcd: LOCAL_TIME,
    };

    let image = build_automatic_device_parameters(&inputs).expect("automatic parameters");
    assert_eq!(&image.as_bytes()[0x20..0x25], &[0xb2, 0xe2, 0xca, 0xd4, 0]);
    assert_eq!(&image.as_bytes()[0x4e8..0x4eb], &[1, 3, 0]);
    assert_eq!(&image.as_bytes()[0x320..0x322], &[1, 1]);

    for name in [
        "Winbond \u{534e}\u{90a6} \u{20ac}",
        "\u{7f}\u{80}A\u{4e00}\u{9fa5}B",
        "\u{3000}\u{ff01}abc\u{e4}",
    ] {
        let (whole, _, unmappable) = encoding_rs::GBK.encode(name);
        inputs.vendor_name = name;
        match build_automatic_device_parameters(&inputs) {
            Ok(image) => {
                assert!(!unmappable);
                assert_eq!(&image.as_bytes()[0x20..0x20 + whole.len()], whole.as_ref());
                assert_eq!(image.as_bytes()[0x20 + whole.len()], 0);
            }
            Err(error) => {
                assert!(unmappable);
                assert_eq!(
                    error,
                    DeviceParameterBuildError::InvalidProfileText {
                        field: "vendor name",
                    }
                );
            }
        }
    }

    inputs.vendor_name = "A\u{1f600}B";
    assert_eq!(
        build_automatic_device_parameters(&inputs),
        Err(DeviceParameterBuildError::InvalidProfileText {
            field: "vendor name",
        })
    );
}

#[test]
fn lays_out_encoded_texts_without_a_code_page() {
    let mut raw = device_record(b"W25Q128BV", "W25Q128", "W25Q128S", 0x0100_0000);
    raw[0x22] = 0x05;
    raw[0x23] = 0x10;
    raw[0x48..0x4c].copy_from_slice(&0x0000_080d_u32.to_le_bytes());
    let database = catalog(b"Winbond", &[raw]);
    let algorithm = algorithm();
    let packages = packages();
    let inputs = AutomaticParameterInputs {
        device: &database.devices()[0],
        package_keys: &[],
        vendor_name: "ignored",
        algorithm: &algorithm,
        configuration: None,
        package: packages.get(150).expect("route"),
        operation: ParameterOperation::Read,
        region: 0,
        project_data: &[],
        local_time_bcd: LOCAL_TIME,
    };
    let prepared = prepare_project_data(inputs.device, 0, &[]).expect("prepared");
    let text = |bytes: &[u8]| EncodedText {
        bytes: bytes.to_vec(),
        unmappable: false,
    };
    let texts = || ProjectTexts {
        vendor: text(b"V"),
        device: text(b"D"),
        package: text(b"P"),
        region_0: text(b"R0"),
        region_1: text(b"R1"),
        region_2: text(b"R2"),
    };

    let body = automatic_parameter_body(&inputs, &prepared, texts(), 0x0a0b_0c0d)
        .expect("layout succeeds");
    assert_eq!(body.len(), 0x7fc);
    assert_eq!(&body[0x20..0x22], b"V\0");
    assert_eq!(&body[0x40..0x42], b"D\0");
    assert_eq!(&body[0x60..0x62], b"P\0");
    assert_eq!(&body[0x2a0..0x2a3], b"R0\0");
    assert_eq!(&body[0x2c0..0x2c3], b"R1\0");
    assert_eq!(&body[0x2e0..0x2e3], b"R2\0");
    assert_eq!(&body[0x320..0x322], &[0, 1]);
    assert_eq!(body[0x4e0], 1);
    assert_eq!(&body[0x4e8..0x4ea], &[2, 0]);
    assert_eq!(&body[0x4f8..0x4fd], &[0x87, 0x84, 0x81, 0x83, 0]);
    assert_eq!(read_image_u32(&body, 0x574), 0x0a0b_0c0d);

    let mut unmappable = texts();
    unmappable.region_1.unmappable = true;
    assert_eq!(
        automatic_parameter_body(&inputs, &prepared, unmappable, 0),
        Err(DeviceParameterBuildError::InvalidProfileText {
            field: "algorithm region 1",
        })
    );
}

#[test]
fn profile_texts_are_set_one_by_one() {
    let mut text = ProfileTextFields::default();
    text.set(ProfileTextField::Source0802, vec![1, 2]);
    text.set(ProfileTextField::Source0370, vec![3]);

    assert_eq!(text.get(ProfileTextField::Source0802), &[1, 2]);
    assert_eq!(text.get(ProfileTextField::Source0370), &[3]);
    assert!(text.get(ProfileTextField::Source0050).is_empty());
}
