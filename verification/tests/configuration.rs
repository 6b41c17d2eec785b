use flypro::assets::configuration::{
    Configuration, ConfigurationError, HEADER_BYTES, SUPPORTED_VERSION,
};
use flypro::assets::device_db::sfly_crc16;

fn fixture() -> Vec<u8> {
    let record_bytes = 72_usize;
    let mut bytes = vec![0_u8; HEADER_BYTES + record_bytes + 2];
    bytes[0..4].copy_from_slice(b"CFG\0");
    bytes[0x04..0x06].copy_from_slice(&SUPPORTED_VERSION.to_le_bytes());
    bytes[0x10..0x19].copy_from_slice(b"W25Q128S\0");
    bytes[0x20..0x60].fill(0x11);
    bytes[0x60..0xa0].fill(0x22);
    bytes[0xa1] = 1;
    bytes[0xa4..0xa8].copy_from_slice(&0x1234_5678_u32.to_le_bytes());

    let offset = HEADER_BYTES;
    bytes[offset..offset + 4].copy_from_slice(&[0x5a, 0x5a, 0xa5, 0xa5]);
    bytes[offset + 4..offset + 8].copy_from_slice(
        &u32::try_from(record_bytes)
            .expect("fixture record length fits")
            .to_le_bytes(),
    );
    bytes[offset + 0x08] = 0x80;
    bytes[offset + 0x10..offset + 0x12].copy_from_slice(&3_u16.to_le_bytes());
    bytes[offset + 0x12..offset + 0x14].copy_from_slice(&2_u16.to_le_bytes());
    bytes[offset + 0x14..offset + 0x18].copy_from_slice(&1_u32.to_le_bytes());
    bytes[offset + 0x19] = 2;

    let suffix = find_zero_residue_suffix(&bytes[..bytes.len() - 2]);
    let suffix_offset = bytes.len() - 2;
    bytes[suffix_offset..].copy_from_slice(&suffix);
    assert_eq!(sfly_crc16(&bytes), 0);
    bytes
}

fn find_zero_residue_suffix(prefix: &[u8]) -> [u8; 2] {
    for candidate in 0_u16..=u16::MAX {
        let suffix = candidate.to_le_bytes();
        let mut bytes = Vec::with_capacity(prefix.len() + 2);
        bytes.extend_from_slice(prefix);
        bytes.extend_from_slice(&suffix);
        if sfly_crc16(&bytes) == 0 {
            return suffix;
        }
    }
    panic!("a two-byte CRC suffix must exist");
}

#[test]
fn parses_confirmed_defaults_and_record_fields() {
    let configuration =
        Configuration::parse_for_stem(&fixture(), "w25q128s").expect("valid fixture");

    assert_eq!(configuration.name(), "W25Q128S");
    assert_eq!(configuration.default_block_0(), &[0x11; 64]);
    assert_eq!(configuration.default_block_1(), &[0x22; 64]);
    assert_eq!(configuration.default_protection_bits(), 0x1234_5678);
    assert_eq!(configuration.records().len(), 1);
    assert_eq!(configuration.records()[0].type_flags(), 0x80);
    assert_eq!(configuration.records()[0].bit_offset(), 3);
    assert_eq!(configuration.opaque_tail().len(), 2);
}

#[test]
fn configuration_rejects_crc_corruption() {
    let mut bytes = fixture();
    bytes[0x20] ^= 1;

    assert_eq!(
        Configuration::parse(&bytes),
        Err(ConfigurationError::CrcResidue)
    );
}

#[test]
fn rejects_record_length_beyond_file() {
    let mut bytes = fixture();
    bytes[HEADER_BYTES + 4..HEADER_BYTES + 8].copy_from_slice(&u32::MAX.to_le_bytes());
    let suffix = find_zero_residue_suffix(&bytes[..bytes.len() - 2]);
    let suffix_offset = bytes.len() - 2;
    bytes[suffix_offset..].copy_from_slice(&suffix);

    assert!(matches!(
        Configuration::parse(&bytes),
        Err(ConfigurationError::TruncatedRecord { .. })
    ));
}
