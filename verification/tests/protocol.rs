use crc32fast::hash;
use flypro::assets::algorithm::{Algorithm, CRC32_BYTES, HEADER_BYTES, RESERVED_BYTES};
use flypro::protocol::{
    completion_status_accepted, configuration_mismatch, AlgorithmChunk, AlgorithmVerification,
    CommandBlock, ConfigurationMismatch, ConfigurationWritePayload, DeviceParameterImage,
    DiagnosticKind, EraseMode, KnownCommand, OperationDiagnostic, ProtocolError, COMMAND_BYTES,
    CONFIGURATION_READ_BYTES, DEVICE_PARAMETER_BYTES, DIAGNOSTIC_BYTES, VERIFY_SENTINEL,
};

fn read_u32_at(bytes: &[u8], offset: usize) -> u32 {
    u32::from_le_bytes(bytes[offset..offset + 4].try_into().expect("four bytes"))
}

fn algorithm(payload_length: usize) -> Algorithm {
    let mut bytes = vec![0_u8; HEADER_BYTES + payload_length + RESERVED_BYTES + CRC32_BYTES];
    bytes[..4].copy_from_slice(b"ALG\0");
    bytes[0x08..0x0a].copy_from_slice(
        &u16::try_from(payload_length)
            .expect("fixture length fits")
            .to_le_bytes(),
    );
    bytes[0x0a..0x0c].copy_from_slice(&0x0100_u16.to_le_bytes());
    bytes[0x10..0x18].copy_from_slice(b"W25Q128\0");
    bytes[0x20..0x28].copy_from_slice(&[0x20, 0x24, 0x05, 0x18, 0x13, 0x04, 0x30, 0]);
    for (index, byte) in bytes[HEADER_BYTES..HEADER_BYTES + payload_length]
        .iter_mut()
        .enumerate()
    {
        *byte = u8::try_from(index % 251).expect("modulo fits u8");
    }
    let crc_start = bytes.len() - CRC32_BYTES;
    let crc = hash(&bytes[..crc_start]);
    bytes[crc_start..].copy_from_slice(&crc.to_le_bytes());
    Algorithm::parse(&bytes).expect("valid fixture")
}

#[test]
fn encodes_w25q128_first_chunk_golden_header() {
    let algorithm = algorithm(0x4000);
    let chunk = AlgorithmChunk::new(&algorithm, 0).expect("valid chunk");
    let mut expected = [0_u8; COMMAND_BYTES];
    expected[0..2].copy_from_slice(&0x0087_u16.to_le_bytes());
    expected[0x0c..0x10].copy_from_slice(&0x800_u32.to_le_bytes());
    expected[0x10..0x17].copy_from_slice(b"W25Q128");
    expected[0x20..0x28].copy_from_slice(&[0x20, 0x24, 0x05, 0x18, 0x13, 0x04, 0x30, 0]);

    assert_eq!(chunk.command().as_bytes(), &expected);
    assert_eq!(chunk.payload().len(), 0x800);
}

#[test]
fn caps_final_algorithm_chunk_at_remaining_payload() {
    let algorithm = algorithm(0x801);
    let chunk = AlgorithmChunk::new(&algorithm, 0x800).expect("valid final chunk");

    assert_eq!(chunk.payload().len(), 1);
    assert_eq!(
        &chunk.command().as_bytes()[0x08..0x0c],
        &0x800_u32.to_le_bytes()
    );
    assert_eq!(
        &chunk.command().as_bytes()[0x0c..0x10],
        &1_u32.to_le_bytes()
    );
}

#[test]
fn encodes_zero_filled_verify_and_parameter_commands() {
    let verify = CommandBlock::verify_device_algorithm();
    assert_eq!(&verify.as_bytes()[..2], &0x0008_u16.to_le_bytes());
    assert!(verify.as_bytes()[2..].iter().all(|byte| *byte == 0));

    let parameters = CommandBlock::download_device_parameters();
    assert_eq!(&parameters.as_bytes()[..2], &0x008a_u16.to_le_bytes());
    assert_eq!(&parameters.as_bytes()[0x0c..0x10], &0x800_u32.to_le_bytes());
}

#[test]
fn verification_requires_matching_name_and_observed_sentinel() {
    let mut response = [0_u8; COMMAND_BYTES];
    response[..7].copy_from_slice(b"w25q128");
    response[0x3c..].copy_from_slice(&VERIFY_SENTINEL.to_le_bytes());
    let verification = AlgorithmVerification::parse(&response).expect("valid response");

    assert!(verification.matches("W25Q128"));
    assert!(!verification.matches("OTHER"));
}

#[test]
fn encodes_confirmed_operation_command_fields() {
    let cases = [
        (
            CommandBlock::spi_flash_identification_probe(330),
            KnownCommand::TargetProbe,
            0,
            330,
            0,
        ),
        (
            CommandBlock::read_spi_flash_identification(),
            KnownCommand::ReadIdentificationResult,
            0,
            0,
            8,
        ),
        (
            CommandBlock::blank_check_initialize(2, 0x1234),
            KnownCommand::BlankCheckInitialize,
            2,
            0,
            0x1234,
        ),
        (
            CommandBlock::blank_check_chunk(2, 0x800, 0x400),
            KnownCommand::BlankCheckChunk,
            2,
            0x800,
            0x400,
        ),
        (
            CommandBlock::program_chunk(1, 0x1000, 0x800),
            KnownCommand::ProgramChunk,
            1,
            0x1000,
            0x800,
        ),
        (
            CommandBlock::read_data(0, 0, 0x20_0000),
            KnownCommand::ReadData,
            0,
            0,
            0x20_0000,
        ),
    ];

    for (block, command, field_04, field_08, field_0c) in cases {
        assert_eq!(block.command(), command);
        assert_eq!(read_u32_at(block.as_bytes(), 0x04), field_04);
        assert_eq!(read_u32_at(block.as_bytes(), 0x08), field_08);
        assert_eq!(read_u32_at(block.as_bytes(), 0x0c), field_0c);
        assert!(block.as_bytes()[0x10..].iter().all(|byte| *byte == 0));
    }

    let erase = CommandBlock::erase(0x20, EraseMode::Automatic);
    assert_eq!(erase.command(), KnownCommand::Erase);
    assert_eq!(read_u32_at(erase.as_bytes(), 0x04), 0x20);
    assert_eq!(erase.as_bytes()[0x10], 1);
}

#[test]
fn builds_and_compares_configuration_payloads() {
    let data = [0x5a; CONFIGURATION_READ_BYTES];
    let mut mask = [0xff; CONFIGURATION_READ_BYTES];
    mask[3] = 0;
    let payload = ConfigurationWritePayload::new(&data, &mask);

    assert_eq!(&payload.as_bytes()[..0x40], &data);
    assert!(payload.as_bytes()[0x40..0x80].iter().all(|byte| *byte == 0));
    assert_eq!(&payload.as_bytes()[0x80..0xc0], &mask);
    assert!(payload.as_bytes()[0xc0..].iter().all(|byte| *byte == 0));

    let mut actual = data;
    actual[3] ^= 1;
    assert_eq!(configuration_mismatch(&data, &actual, &mask), None);
    actual[4] ^= 1;
    assert_eq!(
        configuration_mismatch(&data, &actual, &mask),
        Some(ConfigurationMismatch {
            offset: 4,
            expected: 0x5a,
            actual: 0x5b,
            mask: 0xff,
        })
    );
}

#[test]
fn exhaustively_matches_static_completion_predicate() {
    for value in u8::MIN..=u8::MAX {
        assert_eq!(
            completion_status_accepted(value),
            (value & 0xa0 != 0) && (value & 0x40 == 0)
        );
    }
    assert!(!completion_status_accepted(0));
}

#[test]
fn parses_named_and_generic_diagnostics_losslessly() {
    let mut blank = [0_u8; DIAGNOSTIC_BYTES];
    blank[0] = 0x0e;
    blank[0x10..0x14].copy_from_slice(&0x1234_5678_u32.to_le_bytes());
    blank[0x14..0x18].copy_from_slice(&0xa5_u32.to_le_bytes());
    let diagnostic = OperationDiagnostic::parse(&blank).expect("valid diagnostic");
    assert_eq!(
        diagnostic.kind(),
        &DiagnosticKind::BlankCheckFailed {
            address: 0x1234_5678,
            chip_data: 0xa5,
        }
    );
    assert_eq!(diagnostic.raw(), &blank);

    let mut generic = [0_u8; DIAGNOSTIC_BYTES];
    generic[0] = 0x5c;
    assert_eq!(
        OperationDiagnostic::parse(&generic)
            .expect("valid generic diagnostic")
            .kind(),
        &DiagnosticKind::Generic { code: 0x5c }
    );
}

#[test]
fn validates_external_sprj_images_before_transfer() {
    let mut bytes = [0_u8; DEVICE_PARAMETER_BYTES];
    bytes[..4].copy_from_slice(b"SPRJ");
    bytes[0x04..0x08].copy_from_slice(&0x0161_0001_u32.to_le_bytes());
    bytes[0x08..0x0a].copy_from_slice(&0x0100_u16.to_le_bytes());
    let crc = hash(&bytes[..0x7fc]);
    bytes[0x7fc..].copy_from_slice(&crc.to_le_bytes());
    assert!(DeviceParameterImage::try_from_sprj(&bytes).is_ok());

    bytes[0x100] ^= 1;
    assert!(matches!(
        DeviceParameterImage::try_from_sprj(&bytes),
        Err(ProtocolError::DeviceParameterCrc { .. })
    ));
}

#[test]
fn binds_external_sprj_to_the_selected_algorithm() {
    let algorithm = algorithm(0x801);
    let mut bytes = [0_u8; DEVICE_PARAMETER_BYTES];
    bytes[..4].copy_from_slice(b"SPRJ");
    bytes[0x04..0x08].copy_from_slice(&0x0161_0001_u32.to_le_bytes());
    bytes[0x08..0x0a].copy_from_slice(&0x0100_u16.to_le_bytes());
    bytes[0x540..0x547].copy_from_slice(b"w25q128");
    bytes[0x550..0x558].copy_from_slice(&algorithm.timestamp());
    bytes[0x558..0x55c].copy_from_slice(&0x801_u32.to_le_bytes());
    bytes[0x55c..0x560].copy_from_slice(&algorithm.payload_crc32().to_le_bytes());
    let crc = hash(&bytes[..0x7fc]);
    bytes[0x7fc..].copy_from_slice(&crc.to_le_bytes());
    let parameters = DeviceParameterImage::try_from_sprj(&bytes).expect("valid image");

    assert!(parameters.validate_for_algorithm(&algorithm).is_ok());
    bytes[0x540] = b'x';
    let parameters = DeviceParameterImage::try_from_slice(&bytes).expect("exact image");
    assert!(matches!(
        parameters.validate_for_algorithm(&algorithm),
        Err(ProtocolError::DeviceParameterAlgorithmMetadata { field: "name", .. })
    ));
}
