use crc32fast::hash;
use flypro::assets::algorithm::{
    Algorithm, AlgorithmError, CRC32_BYTES, HEADER_BYTES, RESERVED_BYTES,
};

fn fixture() -> Vec<u8> {
    let payload_length = 32_usize;
    let mut bytes = vec![0; HEADER_BYTES + payload_length + RESERVED_BYTES + CRC32_BYTES];
    bytes[0..4].copy_from_slice(b"ALG\0");
    bytes[0x04..0x08].copy_from_slice(&0x2000_0000_u32.to_le_bytes());
    bytes[0x08..0x0a].copy_from_slice(
        &u16::try_from(payload_length)
            .expect("fixture length fits")
            .to_le_bytes(),
    );
    bytes[0x0a..0x0c].copy_from_slice(&0x0100_u16.to_le_bytes());
    bytes[0x10..0x18].copy_from_slice(b"W25Q128\0");
    bytes[0x20..0x28].copy_from_slice(&[0x20, 0x24, 0x05, 0x18, 0x13, 0x04, 0x30, 0]);
    bytes[0x30..0x36].copy_from_slice(b"FLASH\0");
    bytes[0x70..0x77].copy_from_slice(b"<NONE>\0");
    bytes[0xb0..0xc0].copy_from_slice(b"Status Register\0");
    bytes[HEADER_BYTES..HEADER_BYTES + payload_length].fill(0xa5);
    let crc = hash(&bytes[..bytes.len() - CRC32_BYTES]);
    let crc_start = bytes.len() - CRC32_BYTES;
    bytes[crc_start..].copy_from_slice(&crc.to_le_bytes());
    bytes
}

#[test]
fn parses_valid_algorithm() {
    let algorithm = Algorithm::parse_for_stem(&fixture(), "w25q128").expect("valid fixture");

    assert_eq!(algorithm.name(), "W25Q128");
    assert_eq!(algorithm.format_version(), 0x0100);
    assert_eq!(algorithm.payload().len(), 32);
    assert_eq!(algorithm.region_names()[0], "FLASH");
}

#[test]
fn algorithm_rejects_crc_corruption() {
    let mut bytes = fixture();
    bytes[HEADER_BYTES] ^= 1;

    assert!(matches!(
        Algorithm::parse(&bytes),
        Err(AlgorithmError::CrcMismatch { .. })
    ));
}

#[test]
fn rejects_name_mismatch() {
    assert_eq!(
        Algorithm::parse_for_stem(&fixture(), "other"),
        Err(AlgorithmError::NameMismatch {
            expected: "other".to_owned(),
            actual: "W25Q128".to_owned(),
        })
    );
}

#[test]
fn rejects_non_zero_reserved_bytes() {
    let mut bytes = fixture();
    bytes[HEADER_BYTES + 32] = 1;
    let crc_start = bytes.len() - CRC32_BYTES;
    let crc = hash(&bytes[..crc_start]);
    bytes[crc_start..].copy_from_slice(&crc.to_le_bytes());

    assert_eq!(
        Algorithm::parse(&bytes),
        Err(AlgorithmError::NonZeroReserved)
    );
}
