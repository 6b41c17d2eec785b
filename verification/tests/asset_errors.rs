use crc32fast::hash;
use flypro::assets::algorithm::{Algorithm, AlgorithmError};
use flypro::assets::configuration::{Configuration, ConfigurationError};
use flypro::assets::device_db::{
    sfly_crc16, DeviceDatabase, DeviceDatabaseError, DeviceSelectionError, TRAILER_SUM,
};
use flypro::codepage::{choose_text, decode_catalog_text};
use flypro::report::{catalog_statistics, CatalogStatistics};

const STEM_XOR_KEY: [u8; 16] = [
    0xc5, 0xfc, 0x82, 0xde, 0xb1, 0xf3, 0xaf, 0xe3, 0xbc, 0xc4, 0xa2, 0x99, 0xb1, 0xe1, 0x96, 0x9c,
];

fn algorithm_file() -> Vec<u8> {
    let mut bytes = vec![0_u8; 0x200 + 32 + 0x0c + 4];
    bytes[..4].copy_from_slice(b"ALG\0");
    bytes[0x04..0x08].copy_from_slice(&0x2000_0000_u32.to_le_bytes());
    bytes[0x08..0x0a].copy_from_slice(&32_u16.to_le_bytes());
    bytes[0x0a..0x0c].copy_from_slice(&0x0100_u16.to_le_bytes());
    bytes[0x10..0x17].copy_from_slice(b"W25Q128");
    bytes[0x20..0x28].copy_from_slice(&[0x20, 0x24, 0x05, 0x18, 0x13, 0x04, 0x30, 0]);
    bytes[0x180..0x184].copy_from_slice(b"(c)x");
    bytes[0x200..0x220].fill(0xa5);
    seal(&mut bytes);
    bytes
}

fn seal(bytes: &mut [u8]) {
    let offset = bytes.len() - 4;
    let crc = hash(&bytes[..offset]);
    bytes[offset..].copy_from_slice(&crc.to_le_bytes());
}

fn changed(change: fn(&mut Vec<u8>)) -> Result<Algorithm, AlgorithmError> {
    let mut bytes = algorithm_file();
    change(&mut bytes);
    seal(&mut bytes);
    Algorithm::parse(&bytes)
}

#[test]
fn algorithms_expose_every_header_field() {
    let bytes = algorithm_file();
    let algorithm = Algorithm::parse(&bytes).expect("valid fixture");

    assert_eq!(algorithm.unknown_header_u32(), 0x2000_0000);
    assert_eq!(algorithm.format_version(), 0x0100);
    assert_eq!(
        algorithm.timestamp(),
        [0x20, 0x24, 0x05, 0x18, 0x13, 0x04, 0x30, 0]
    );
    assert_eq!(algorithm.copyright(), "(c)x");
    assert_eq!(algorithm.payload(), &[0xa5; 32]);
    assert_eq!(algorithm.payload_crc32(), hash(&[0xa5; 32]));
    assert_eq!(algorithm.file_crc32(), hash(&bytes[..bytes.len() - 4]));
    assert_eq!(algorithm.clone(), algorithm);
    assert_eq!(
        Algorithm::parse_for_stem(&bytes, "w25Q128").expect("the stem matches"),
        algorithm
    );
}

#[test]
fn algorithm_errors_name_the_broken_rule() {
    assert_eq!(
        Algorithm::parse(&[0; 0x20f]),
        Err(AlgorithmError::TooShort {
            actual: 0x20f,
            minimum: 0x210,
        })
    );
    assert_eq!(
        changed(|bytes| bytes[3] = 1),
        Err(AlgorithmError::InvalidMagic {
            actual: *b"ALG\x01",
        })
    );
    assert_eq!(
        changed(|bytes| bytes[0x08] = 0),
        Err(AlgorithmError::InvalidPayloadLength {
            declared: 0,
            maximum: 0x4000,
        })
    );
    assert_eq!(
        changed(|bytes| bytes[0x09] = 0x41),
        Err(AlgorithmError::InvalidPayloadLength {
            declared: 0x4120,
            maximum: 0x4000,
        })
    );
    assert_eq!(
        changed(|bytes| bytes.push(0)),
        Err(AlgorithmError::UnexpectedLength {
            actual: 0x231,
            expected: 0x230,
        })
    );
    assert_eq!(
        changed(|bytes| bytes[0x10] = 0),
        Err(AlgorithmError::InvalidText { field: "name" })
    );
    assert_eq!(
        changed(|bytes| bytes[0x12] = 0xc3),
        Err(AlgorithmError::InvalidText { field: "name" })
    );
    assert_eq!(
        changed(|bytes| bytes[0x26] = 0x6a),
        Err(AlgorithmError::InvalidBcdTimestamp {
            actual: [0x20, 0x24, 0x05, 0x18, 0x13, 0x04, 0x6a, 0],
        })
    );
    assert_eq!(
        changed(|bytes| bytes[0xb0] = 0xff),
        Err(AlgorithmError::InvalidText { field: "region 2" })
    );
    assert_eq!(
        changed(|bytes| bytes[0x180] = 0xff),
        Err(AlgorithmError::InvalidText { field: "copyright" })
    );
}

#[test]
fn algorithms_parse_with_known_checksums() {
    let bytes = algorithm_file();
    let stored = hash(&bytes[..bytes.len() - 4]);

    let parsed = Algorithm::parse_with_checksums(&bytes, Some("W25Q128"), stored, 7)
        .expect("checksums match");
    assert_eq!(parsed.payload_crc32(), 7);
    assert_eq!(
        Algorithm::parse_with_checksums(&bytes, None, stored ^ 1, 7),
        Err(AlgorithmError::CrcMismatch {
            stored,
            computed: stored ^ 1,
        })
    );
}

fn configuration_file(records: &[&[u8]], tail: &[u8]) -> Vec<u8> {
    let mut bytes = vec![0_u8; 0x130];
    bytes[..4].copy_from_slice(b"CFG\0");
    bytes[0x04..0x06].copy_from_slice(&9_u16.to_le_bytes());
    bytes[0x10..0x14].copy_from_slice(b"NAME");
    bytes[0xa1] = u8::try_from(records.len()).expect("fits");
    for record in records {
        bytes.extend_from_slice(&[0x5a, 0x5a, 0xa5, 0xa5]);
        bytes.extend_from_slice(&u32::try_from(record.len() + 8).expect("fits").to_le_bytes());
        bytes.extend_from_slice(record);
    }
    bytes.extend_from_slice(tail);
    close(bytes)
}

/// Completes bytes to a CRC16 residue of zero.
fn close(mut bytes: Vec<u8>) -> Vec<u8> {
    bytes.extend_from_slice(&[0, 0]);
    let crc = sfly_crc16(&bytes);
    let offset = bytes.len() - 2;
    bytes[offset..].copy_from_slice(&crc.to_be_bytes());
    assert_eq!(sfly_crc16(&bytes), 0);
    bytes
}

#[test]
fn configurations_keep_every_byte() {
    let first = [0x11_u8; 0x14];
    let second = [0x22_u8; 0x20];
    let bytes = configuration_file(&[&first, &second], b"tail");
    let configuration = Configuration::parse(&bytes).expect("valid fixture");

    let mut rebuilt = bytes[..0x130].to_vec();
    for record in configuration.records() {
        assert_eq!(record.source_offset(), rebuilt.len());
        rebuilt.extend_from_slice(record.raw());
    }
    rebuilt.extend_from_slice(configuration.opaque_tail());
    assert_eq!(rebuilt, bytes);
    assert_eq!(configuration.records()[1].source_index(), 1);
    assert_eq!(configuration.records()[1].choice_count(), 0x22);
    assert_eq!(configuration.records()[1].unknown_18(), 0x22);
    assert_eq!(configuration.records()[0].text_length_1(), 0x1111);
    assert_eq!(configuration.records()[0].text_length_2(), 0x1111);
    assert_eq!(configuration.records()[0].bit_width_or_count(), 0x1111);
    assert_eq!(configuration.records()[0].value_or_default(), 0x1111_1111);
    assert_eq!(configuration.records()[0].unknown_09(), 0x11);
    assert_eq!(configuration.version(), 9);
}

#[test]
fn configuration_errors_name_the_broken_rule() {
    assert_eq!(
        Configuration::parse(&[0; 0x12f]),
        Err(ConfigurationError::TooShort {
            actual: 0x12f,
            minimum: 0x130,
        })
    );
    let mut bytes = configuration_file(&[], &[]);
    bytes[0] = b'X';
    assert_eq!(
        Configuration::parse(&bytes),
        Err(ConfigurationError::InvalidMagic {
            actual: *b"XFG\0",
        })
    );
    let mut bytes = configuration_file(&[], &[]);
    bytes[4] = 8;
    assert_eq!(
        Configuration::parse(&bytes),
        Err(ConfigurationError::UnsupportedVersion { actual: 8 })
    );
    let mut bytes = configuration_file(&[], &[]);
    bytes.truncate(0x130);
    bytes[0x10] = 0;
    assert_eq!(
        Configuration::parse(&close(bytes)),
        Err(ConfigurationError::InvalidName)
    );
    assert_eq!(
        Configuration::parse_for_stem(&configuration_file(&[], &[]), "other"),
        Err(ConfigurationError::NameMismatch {
            expected: "other".to_owned(),
            actual: "NAME".to_owned(),
        })
    );
    let mut bytes = configuration_file(&[], &[]);
    bytes.truncate(0x130);
    bytes[0xa1] = 1;
    assert_eq!(
        Configuration::parse(&close(bytes.clone())),
        Err(ConfigurationError::TruncatedRecord {
            index: 0,
            offset: 0x130,
        })
    );
    bytes.extend_from_slice(&[0x5a, 0x5a, 0xa5, 0xa4]);
    bytes.extend_from_slice(&[0; 0x18]);
    assert_eq!(
        Configuration::parse(&close(bytes.clone())),
        Err(ConfigurationError::InvalidRecordMagic {
            index: 0,
            offset: 0x130,
            actual: [0x5a, 0x5a, 0xa5, 0xa4],
        })
    );
    bytes[0x133] = 0xa5;
    bytes[0x134] = 0x1b;
    assert_eq!(
        Configuration::parse(&close(bytes)),
        Err(ConfigurationError::InvalidRecordLength {
            index: 0,
            actual: 0x1b,
            minimum: 0x1c,
        })
    );
}

#[derive(Clone)]
struct Catalog {
    header: Vec<u8>,
    vendors: Vec<Vec<u8>>,
    devices: Vec<Vec<u8>>,
}

impl Catalog {
    fn new() -> Self {
        let mut header = vec![0_u8; 0x100];
        header[..4].copy_from_slice(b"DEV\0");
        header[0x04] = 2;
        header[0x10..0x18].copy_from_slice(b"SP20.dev");
        header[0x20..0x28].copy_from_slice(&[0x20, 0x26, 0x07, 0x14, 0x21, 0x00, 0x25, 0]);
        let mut vendor = vec![0_u8; 0x30];
        vendor[..2].copy_from_slice(b"WB");
        vendor[0x10..0x17].copy_from_slice(b"Winbond");
        let mut device = vec![0_u8; 0x90];
        device[..4].copy_from_slice(b"CHIP");
        stem(&mut device[0x50..0x60], "ALGO");
        Self {
            header,
            vendors: vec![vendor],
            devices: vec![device],
        }
    }

    fn bytes(&self) -> Vec<u8> {
        let mut header = self.header.clone();
        header[0x08] = u8::try_from(self.vendors.len()).expect("fits");
        header[0x0c] = u8::try_from(self.devices.len()).expect("fits");
        header[0xff] = header.iter().fold(0, |left, right| left ^ right);
        let mut bytes = header;
        for record in self.vendors.iter().chain(&self.devices) {
            bytes.extend_from_slice(record);
        }
        let crc = sfly_crc16(&bytes);
        bytes.extend_from_slice(&crc.to_le_bytes());
        let sum = bytes
            .iter()
            .fold(0_u16, |sum, byte| sum.wrapping_add(u16::from(*byte)));
        bytes.extend_from_slice(&TRAILER_SUM.wrapping_sub(sum).to_le_bytes());
        bytes
    }

    fn parse(&self) -> Result<DeviceDatabase, DeviceDatabaseError> {
        DeviceDatabase::parse(&self.bytes())
    }
}

fn stem(target: &mut [u8], text: &str) {
    for (index, byte) in text.bytes().enumerate() {
        target[index] = byte ^ STEM_XOR_KEY[index];
    }
}

#[test]
fn catalogs_keep_every_record() {
    let mut catalog = Catalog::new();
    let mut second = catalog.devices[0].clone();
    second[0] = b'X';
    second[0x8f] = 0x77;
    catalog.devices.push(second);
    let bytes = catalog.bytes();
    let database = DeviceDatabase::parse(&bytes).expect("valid catalog");

    let mut rebuilt = bytes[..0x100].to_vec();
    for vendor in database.vendors() {
        assert_eq!(vendor.source_offset(), rebuilt.len());
        rebuilt.extend_from_slice(vendor.raw());
    }
    for (index, device) in database.devices().iter().enumerate() {
        assert_eq!(device.source_index(), index);
        assert_eq!(device.source_offset(), rebuilt.len());
        rebuilt.extend_from_slice(device.raw());
    }
    rebuilt.extend_from_slice(&database.stored_crc16().to_le_bytes());
    rebuilt.extend_from_slice(&database.stored_sum_word().to_le_bytes());
    assert_eq!(rebuilt, bytes);
    assert_eq!(database.clone(), database);
    assert_eq!(database.internal_file_name(), "SP20.dev");
    assert_eq!(
        database.timestamp(),
        [0x20, 0x26, 0x07, 0x14, 0x21, 0x00, 0x25, 0]
    );
    assert_eq!(database.vendors()[0].first_device_index(), 0);
    assert_eq!(database.vendors()[0].device_count(), 0);
    assert_eq!(database.vendors()[0].source_index(), 0);
}

#[test]
fn catalog_errors_name_the_broken_rule() {
    assert_eq!(
        DeviceDatabase::parse(&[0; 0x103]),
        Err(DeviceDatabaseError::TooShort {
            actual: 0x103,
            minimum: 0x104,
        })
    );
    let mut catalog = Catalog::new();
    catalog.header[0] = b'X';
    assert_eq!(
        catalog.parse(),
        Err(DeviceDatabaseError::InvalidMagic {
            actual: *b"XEV\0",
        })
    );
    let mut catalog = Catalog::new();
    catalog.header[4] = 3;
    assert_eq!(
        catalog.parse(),
        Err(DeviceDatabaseError::UnsupportedVersion { actual: 3 })
    );
    let mut catalog = Catalog::new();
    catalog.header[0x27] = 1;
    assert!(matches!(
        catalog.parse(),
        Err(DeviceDatabaseError::InvalidBcdTimestamp { .. })
    ));
    let mut bytes = Catalog::new().bytes();
    bytes.push(0);
    assert_eq!(
        DeviceDatabase::parse(&bytes),
        Err(DeviceDatabaseError::UnexpectedLength {
            actual: 0x1c5,
            expected: 0x1c4,
        })
    );
    let mut catalog = Catalog::new();
    catalog.header[0x10] = 0xff;
    assert_eq!(
        catalog.parse(),
        Err(DeviceDatabaseError::InvalidText {
            field: "internal file name",
        })
    );
    assert_eq!(
        DeviceDatabase::parse_for_file_name(&Catalog::new().bytes(), "x.dev"),
        Err(DeviceDatabaseError::FileNameMismatch {
            expected: "x.dev".to_owned(),
            actual: "SP20.dev".to_owned(),
        })
    );
    let mut bytes = Catalog::new().bytes();
    let last = bytes.len() - 1;
    bytes[last] ^= 0x80;
    assert!(matches!(
        DeviceDatabase::parse(&bytes),
        Err(DeviceDatabaseError::SumMismatch {
            expected: TRAILER_SUM,
            ..
        })
    ));
    let mut catalog = Catalog::new();
    catalog.vendors[0][0x08] = 2;
    assert_eq!(
        catalog.parse(),
        Err(DeviceDatabaseError::VendorRangeOutOfBounds {
            vendor_index: 0,
            first_device_index: 0,
            device_count: 2,
            catalog_device_count: 1,
        })
    );
    let mut catalog = Catalog::new();
    catalog.vendors[0][0x00] = 0xff;
    assert_eq!(
        catalog.parse(),
        Err(DeviceDatabaseError::InvalidText {
            field: "vendor code",
        })
    );
    let mut catalog = Catalog::new();
    catalog.devices[0][0x20] = 1;
    assert_eq!(
        catalog.parse(),
        Err(DeviceDatabaseError::InvalidVendorReference {
            device_index: 0,
            vendor_index: 1,
            vendor_count: 1,
        })
    );
    let mut catalog = Catalog::new();
    catalog.devices[0][0x50] = 0;
    assert_eq!(
        catalog.parse(),
        Err(DeviceDatabaseError::EmptyAlgorithmStem { device_index: 0 })
    );
    let mut catalog = Catalog::new();
    catalog.devices[0][0x60] = 0x01;
    assert_eq!(
        catalog.parse(),
        Err(DeviceDatabaseError::InvalidText {
            field: "configuration stem",
        })
    );
}

#[test]
fn catalogs_fall_back_to_the_legacy_code_page() {
    let mut catalog = Catalog::new();
    catalog.devices[0][..5].copy_from_slice(&[0xb2, 0xe2, 0xca, 0xd4, 0]);
    let database = catalog.parse().expect("valid catalog");
    assert_eq!(database.devices()[0].name(), "\u{6d4b}\u{8bd5}");

    catalog.devices[0][..3].copy_from_slice(&[0xb2, 0xff, 0]);
    assert_eq!(
        catalog.parse(),
        Err(DeviceDatabaseError::InvalidText {
            field: "device name",
        })
    );
}

#[test]
fn utf8_takes_precedence_over_the_legacy_code_page() {
    assert_eq!(
        decode_catalog_text("\u{e9}".as_bytes()),
        Some("\u{e9}".to_owned())
    );
    assert_eq!(
        choose_text(b"ab", ("other".to_owned(), true)),
        Some("ab".to_owned())
    );
    assert_eq!(
        choose_text(&[0xff], ("other".to_owned(), false)),
        Some("other".to_owned())
    );
    assert_eq!(choose_text(&[0xff], ("other".to_owned(), true)), None);
}

#[test]
fn selection_lists_ambiguous_candidates() {
    let mut catalog = Catalog::new();
    let mut twin = catalog.devices[0].clone();
    twin[0x20] = 1;
    catalog.devices.push(twin);
    let mut vendor = vec![0_u8; 0x30];
    vendor[..2].copy_from_slice(b"GD");
    vendor[0x10..0x14].copy_from_slice(b"Giga");
    catalog.vendors.push(vendor);
    let database = catalog.parse().expect("valid catalog");

    assert_eq!(
        database.select_device("chip", None),
        Err(DeviceSelectionError::Ambiguous {
            device: "chip".to_owned(),
            candidates: vec![
                "Winbond CHIP (record 0)".to_owned(),
                "Giga CHIP (record 1)".to_owned(),
            ],
        })
    );
    assert_eq!(
        database
            .select_device("chip", Some("GIGA"))
            .expect("one vendor")
            .device()
            .source_index(),
        1
    );
    assert_eq!(
        database.select_device("none", Some("wb")),
        Err(DeviceSelectionError::NotFound {
            device: "none".to_owned(),
            vendor: Some("wb".to_owned()),
        })
    );
    assert_eq!(database.find_devices("").len(), 2);
    assert_eq!(database.find_devices("iga").len(), 1);
}

#[test]
fn catalog_statistics_count_stems() {
    let mut catalog = Catalog::new();
    let mut second = catalog.devices[0].clone();
    stem(&mut second[0x50..0x60], "algo");
    stem(&mut second[0x60..0x70], "CONF");
    let mut third = catalog.devices[0].clone();
    stem(&mut third[0x50..0x60], "OTHER");
    catalog.devices.push(second);
    catalog.devices.push(third);

    assert_eq!(
        catalog_statistics(&catalog.parse().expect("valid catalog")),
        CatalogStatistics {
            algorithm_stems: 2,
            configuration_stems: 1,
        }
    );
}

#[test]
fn crc16_has_a_residue_of_zero_behind_its_own_bytes() {
    assert_eq!(sfly_crc16(&[]), 0);
    assert_eq!(sfly_crc16(&[0x01]), 0x0001);
    assert_eq!(sfly_crc16(&[0x01, 0x00, 0x00]), 0x1021);
    assert_eq!(sfly_crc16(&[0x01, 0x10, 0x21]), 0);
}
