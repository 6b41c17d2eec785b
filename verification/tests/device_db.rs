use flypro::assets::device_db::{
    sfly_crc16, DeviceDatabase, DeviceDatabaseError, DeviceSelectionError, DEVICE_RECORD_BYTES,
    HEADER_BYTES, SUPPORTED_VERSION, TRAILER_BYTES, TRAILER_SUM, VENDOR_RECORD_BYTES,
};

const STEM_XOR_KEY: [u8; 16] = [
    0xc5, 0xfc, 0x82, 0xde, 0xb1, 0xf3, 0xaf, 0xe3, 0xbc, 0xc4, 0xa2, 0x99, 0xb1, 0xe1, 0x96, 0x9c,
];

fn encode_stem(target: &mut [u8], stem: &str) {
    for (index, byte) in stem.bytes().enumerate() {
        target[index] = byte ^ STEM_XOR_KEY[index];
    }
}

fn fixture() -> Vec<u8> {
    let mut bytes =
        vec![0_u8; HEADER_BYTES + VENDOR_RECORD_BYTES + DEVICE_RECORD_BYTES + TRAILER_BYTES];
    bytes[0..4].copy_from_slice(b"DEV\0");
    bytes[0x04..0x06].copy_from_slice(&SUPPORTED_VERSION.to_le_bytes());
    bytes[0x08..0x0c].copy_from_slice(&1_u32.to_le_bytes());
    bytes[0x0c..0x10].copy_from_slice(&1_u32.to_le_bytes());
    bytes[0x10..0x19].copy_from_slice(b"SP20.dev\0");
    bytes[0x20..0x28].copy_from_slice(&[0x20, 0x26, 0x07, 0x14, 0x21, 0x00, 0x25, 0]);

    let header_xor = bytes[..HEADER_BYTES]
        .iter()
        .copied()
        .fold(0_u8, std::ops::BitXor::bitxor);
    bytes[HEADER_BYTES - 1] = header_xor;

    let vendor_offset = HEADER_BYTES;
    bytes[vendor_offset..vendor_offset + 4].copy_from_slice(b"WB\0\0");
    bytes[vendor_offset + 8..vendor_offset + 12].copy_from_slice(&1_u32.to_le_bytes());
    bytes[vendor_offset + 0x10..vendor_offset + 0x18].copy_from_slice(b"Winbond\0");

    let device_offset = HEADER_BYTES + VENDOR_RECORD_BYTES;
    bytes[device_offset..device_offset + 10].copy_from_slice(b"W25Q128BV\0");
    bytes[device_offset + 0x20] = 0;
    bytes[device_offset + 0x30..device_offset + 0x34]
        .copy_from_slice(&0x0100_0000_u32.to_le_bytes());
    encode_stem(
        &mut bytes[device_offset + 0x50..device_offset + 0x60],
        "W25Q128",
    );
    encode_stem(
        &mut bytes[device_offset + 0x60..device_offset + 0x70],
        "W25Q128S",
    );

    let crc_offset = bytes.len() - TRAILER_BYTES;
    let crc = sfly_crc16(&bytes[..crc_offset]);
    bytes[crc_offset..crc_offset + 2].copy_from_slice(&crc.to_le_bytes());
    let sum = bytes[..bytes.len() - 2]
        .iter()
        .fold(0_u16, |sum, byte| sum.wrapping_add(u16::from(*byte)));
    let correction = TRAILER_SUM.wrapping_sub(sum);
    let sum_offset = bytes.len() - 2;
    bytes[sum_offset..].copy_from_slice(&correction.to_le_bytes());
    bytes
}

#[test]
fn parses_catalog_and_preserves_raw_records() {
    let database =
        DeviceDatabase::parse_for_file_name(&fixture(), "sp20.dev").expect("valid fixture");

    assert_eq!(database.version(), 2);
    assert_eq!(database.vendors()[0].name(), "Winbond");
    assert_eq!(database.devices()[0].name(), "W25Q128BV");
    assert_eq!(database.devices()[0].algorithm_stem(), "W25Q128");
    assert_eq!(database.devices()[0].configuration_stem(), Some("W25Q128S"));
    assert_eq!(database.devices()[0].raw().len(), DEVICE_RECORD_BYTES);
    assert_eq!(
        database.devices()[0]
            .data_region(0)
            .map(|region| (region.start(), region.length())),
        Some((0, 0x0100_0000))
    );
    assert_eq!(database.devices()[0].data_region(1), None);
}

#[test]
fn rejects_header_corruption_before_reading_tables() {
    let mut bytes = fixture();
    bytes[0x30] ^= 1;

    assert!(matches!(
        DeviceDatabase::parse(&bytes),
        Err(DeviceDatabaseError::HeaderXor { .. })
    ));
}

#[test]
fn rejects_trailer_corruption() {
    let mut bytes = fixture();
    bytes[HEADER_BYTES + VENDOR_RECORD_BYTES] ^= 1;

    assert!(matches!(
        DeviceDatabase::parse(&bytes),
        Err(DeviceDatabaseError::CrcMismatch { .. })
    ));
}

#[test]
fn finds_devices_by_vendor_or_part() {
    let database = DeviceDatabase::parse(&fixture()).expect("valid fixture");

    assert_eq!(database.find_devices("q128").len(), 1);
    assert_eq!(database.find_devices("winbond").len(), 1);
    assert_eq!(database.find_devices("missing").len(), 0);
}

#[test]
fn selects_an_exact_device_with_optional_vendor_filter() {
    let database = DeviceDatabase::parse(&fixture()).expect("valid fixture");

    let selected = database
        .select_device("w25q128bv", None)
        .expect("exact device");
    assert_eq!(selected.device().algorithm_stem(), "W25Q128");
    assert_eq!(selected.vendor().name(), "Winbond");
    assert_eq!(
        database
            .select_device("W25Q128BV", Some("wb"))
            .expect("vendor code")
            .vendor()
            .code(),
        "WB"
    );
    assert!(matches!(
        database.select_device("W25Q128BV", Some("GigaDevice")),
        Err(DeviceSelectionError::NotFound { .. })
    ));
}
