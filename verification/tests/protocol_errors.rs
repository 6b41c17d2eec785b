use crc32fast::hash;
use flypro::assets::algorithm::Algorithm;
use flypro::protocol::{
    algorithm_chunks, classify_completion_status, AlgorithmChunk, AlgorithmVerification,
    CommandBlock, CompletionDisposition, DeviceParameterImage, DiagnosticKind, EraseMode,
    KnownCommand, OperationDiagnostic, ProtocolError,
};

fn algorithm(name: &str, payload: &[u8]) -> Algorithm {
    let mut bytes = vec![0_u8; 0x200 + payload.len() + 0x0c + 4];
    bytes[..4].copy_from_slice(b"ALG\0");
    bytes[0x08..0x0a].copy_from_slice(&u16::try_from(payload.len()).expect("fits").to_le_bytes());
    bytes[0x10..0x10 + name.len()].copy_from_slice(name.as_bytes());
    bytes[0x20..0x28].copy_from_slice(&[0x20, 0x24, 0x05, 0x18, 0x13, 0x04, 0x30, 0]);
    bytes[0x200..0x200 + payload.len()].copy_from_slice(payload);
    let offset = bytes.len() - 4;
    let crc = hash(&bytes[..offset]);
    bytes[offset..].copy_from_slice(&crc.to_le_bytes());
    Algorithm::parse(&bytes).expect("valid fixture")
}

#[test]
fn every_command_has_its_own_code() {
    let codes = [
        (KnownCommand::VerifyDeviceAlgorithm, 0x0008),
        (KnownCommand::AdapterCheck, 0x000c),
        (KnownCommand::TargetProbe, 0x000f),
        (KnownCommand::ReadIdentificationResult, 0x0012),
        (KnownCommand::Erase, 0x0013),
        (KnownCommand::BlankCheckChunk, 0x0014),
        (KnownCommand::BlankCheckInitialize, 0x0015),
        (KnownCommand::BlankCheckFinish, 0x0016),
        (KnownCommand::ProgramInitialize, 0x0019),
        (KnownCommand::ProgramFinish, 0x001a),
        (KnownCommand::ReadInitialize, 0x001b),
        (KnownCommand::ReadData, 0x001d),
        (KnownCommand::ReadFinish, 0x001e),
        (KnownCommand::ReadConfiguration, 0x0025),
        (KnownCommand::ProgressEvents, 0x003a),
        (KnownCommand::DownloadAlgorithmChunk, 0x0087),
        (KnownCommand::DownloadDeviceParameters, 0x008a),
        (KnownCommand::ProgramChunk, 0x0098),
        (KnownCommand::WriteConfiguration, 0x00a3),
    ];
    for (command, code) in codes {
        assert_eq!(u16::from(command), code);
    }
}

#[test]
fn blocks_with_different_fields_differ() {
    let blocks = [
        CommandBlock::read_data(0, 1, 2),
        CommandBlock::read_data(1, 1, 2),
        CommandBlock::read_data(0, 2, 2),
        CommandBlock::read_data(0, 1, 3),
        CommandBlock::read_initialize(0, 1, 2),
        CommandBlock::erase(0, EraseMode::Chip),
        CommandBlock::erase(0, EraseMode::Automatic),
    ];
    for (i, left) in blocks.iter().enumerate() {
        for (j, right) in blocks.iter().enumerate() {
            assert_eq!(i == j, left.as_bytes() == right.as_bytes());
        }
    }
    assert_eq!(
        CommandBlock::adapter_check().as_bytes()[..16],
        [0x0c, 0, 0, 0, 2, 0, 0, 0, 0, 0, 0, 0, 0x38, 0, 0, 0]
    );
}

#[test]
fn chunks_refuse_bad_offsets_and_names() {
    let sound = algorithm("NAME", &[1, 2, 3]);
    assert_eq!(
        AlgorithmChunk::new(&sound, 3),
        Err(ProtocolError::ChunkOffset {
            offset: 3,
            payload_length: 3,
        })
    );
    let long = algorithm("ABCDEFGHIJKLMNOP", &[1]);
    assert_eq!(
        AlgorithmChunk::new(&long, 0),
        Err(ProtocolError::AlgorithmName {
            name: "ABCDEFGHIJKLMNOP".to_owned(),
            maximum_bytes: 15,
        })
    );
    assert!(algorithm_chunks(&long).is_err());
}

#[test]
fn chunks_make_up_the_payload() {
    let payload: Vec<u8> = (0..0x1801_u32).map(|value| value.to_le_bytes()[0]).collect();
    let algorithm = algorithm("NAME", &payload);

    let chunks = algorithm_chunks(&algorithm).expect("valid chunks");
    assert_eq!(chunks.len(), 4);
    let mut joined = Vec::new();
    for chunk in &chunks {
        assert_eq!(chunk.offset(), joined.len());
        joined.extend_from_slice(chunk.payload());
    }
    assert_eq!(joined, payload);
}

#[test]
fn statuses_are_classified_by_three_bits() {
    assert_eq!(
        classify_completion_status(0x80),
        CompletionDisposition::Accepted
    );
    assert_eq!(
        classify_completion_status(0x20),
        CompletionDisposition::Accepted
    );
    assert_eq!(
        classify_completion_status(0xc0),
        CompletionDisposition::AuxiliaryResult
    );
    assert_eq!(
        classify_completion_status(0x1f),
        CompletionDisposition::AuxiliaryResult
    );
}

#[test]
fn diagnostics_name_every_known_code() {
    let kind = |code: u8| {
        let mut raw = [0_u8; 64];
        raw[0] = code;
        raw[0x10..0x20].copy_from_slice(&[1, 0, 0, 0, 2, 0, 0, 0, 3, 0, 0, 0, 4, 0, 0, 0]);
        let parsed = OperationDiagnostic::parse(&raw).expect("exact block");
        assert_eq!(parsed.code(), code);
        parsed.kind().clone()
    };
    assert_eq!(kind(0x01), DiagnosticKind::FirmwareSystemError);
    assert_eq!(kind(0x02), DiagnosticKind::CustomProgrammerProductRequired);
    assert_eq!(kind(0x04), DiagnosticKind::ProgrammerDisabled);
    assert_eq!(kind(0x0b), DiagnosticKind::ChipInitializationFailed);
    assert_eq!(
        kind(0x0d),
        DiagnosticKind::VerifyMismatch {
            details: [1, 2, 3, 4],
        }
    );
    assert_eq!(
        kind(0x0e),
        DiagnosticKind::BlankCheckFailed {
            address: 1,
            chip_data: 2,
        }
    );
    assert_eq!(kind(0x0f), DiagnosticKind::ProgramFailed);
    assert_eq!(kind(0x10), DiagnosticKind::ChipReadFailed);
    assert_eq!(kind(0x14), DiagnosticKind::CurrentLimitProtection);
    assert_eq!(kind(0x15), DiagnosticKind::TargetVoltageNotDetected);
    assert_eq!(kind(0x16), DiagnosticKind::IspSupplyConflict);
    assert_eq!(kind(0x1e), DiagnosticKind::AdapterNotDetected);
    assert_eq!(kind(0x20), DiagnosticKind::DriverAlgorithmNotMatched);
    assert_eq!(kind(0x22), DiagnosticKind::AdapterMismatch);
    assert_eq!(kind(0x24), DiagnosticKind::AdapterMaximumUseCount);
    assert_eq!(
        kind(0x34),
        DiagnosticKind::ChipEccFailure {
            packed_block_page: 1,
        }
    );
    assert_eq!(
        OperationDiagnostic::parse(&[0; 63]),
        Err(ProtocolError::DiagnosticLength {
            actual: 63,
            expected: 64,
        })
    );
}

#[test]
fn verification_responses_need_a_terminated_ascii_name() {
    assert_eq!(
        AlgorithmVerification::parse(&[0; 65]),
        Err(ProtocolError::VerificationResponseLength {
            actual: 65,
            expected: 64,
        })
    );
    let mut response = [0_u8; 64];
    assert_eq!(
        AlgorithmVerification::parse(&response),
        Err(ProtocolError::InvalidVerificationName)
    );
    response[..16].fill(b'A');
    assert_eq!(
        AlgorithmVerification::parse(&response),
        Err(ProtocolError::InvalidVerificationName)
    );
    response[15] = 0;
    let parsed = AlgorithmVerification::parse(&response).expect("valid name");
    assert_eq!(parsed.device_name(), "AAAAAAAAAAAAAAA");
    assert_eq!(parsed.sentinel(), 0);
    assert!(!parsed.matches("AAAAAAAAAAAAAAA"));
    assert_eq!(parsed.raw(), &response);
    response[0] = 0x80;
    assert_eq!(
        AlgorithmVerification::parse(&response),
        Err(ProtocolError::InvalidVerificationName)
    );
}

fn image() -> Vec<u8> {
    let mut bytes = vec![0_u8; 0x800];
    bytes[..4].copy_from_slice(b"SPRJ");
    bytes[0x04..0x08].copy_from_slice(&0x0161_0001_u32.to_le_bytes());
    bytes[0x08..0x0a].copy_from_slice(&0x0100_u16.to_le_bytes());
    bytes
}

#[test]
fn supplied_images_are_checked_in_order() {
    assert_eq!(
        DeviceParameterImage::try_from_slice(&[0; 5]),
        Err(ProtocolError::DeviceParameterLength {
            actual: 5,
            expected: 0x800,
        })
    );
    let mut bytes = image();
    bytes[0x7fc..].copy_from_slice(&9_u32.to_le_bytes());
    assert!(DeviceParameterImage::try_from_sprj_with_crc(&bytes, 9).is_ok());
    assert_eq!(
        DeviceParameterImage::try_from_sprj_with_crc(&bytes, 8),
        Err(ProtocolError::DeviceParameterCrc {
            stored: 9,
            computed: 8,
        })
    );
    bytes[0x08] = 1;
    assert_eq!(
        DeviceParameterImage::try_from_sprj(&bytes),
        Err(ProtocolError::DeviceParameterLayout { actual: 0x0101 })
    );
    bytes[0x04] = 2;
    assert_eq!(
        DeviceParameterImage::try_from_sprj(&bytes),
        Err(ProtocolError::DeviceParameterFormat {
            actual: 0x0161_0002,
        })
    );
    bytes[0] = b'X';
    assert_eq!(
        DeviceParameterImage::try_from_sprj(&bytes),
        Err(ProtocolError::DeviceParameterMagic)
    );
}

#[test]
fn images_must_identify_their_algorithm() {
    let algorithm = algorithm("NAME", &[1, 2, 3]);
    let mut bytes = image();
    bytes[0x540..0x544].copy_from_slice(b"name");
    bytes[0x550..0x558].copy_from_slice(&algorithm.timestamp());
    bytes[0x558..0x55c].copy_from_slice(&3_u32.to_le_bytes());
    bytes[0x55c..0x560].copy_from_slice(&algorithm.payload_crc32().to_le_bytes());
    let check = |bytes: &[u8]| {
        DeviceParameterImage::try_from_slice(bytes)
            .expect("exact image")
            .validate_for_algorithm(&algorithm)
    };
    let mismatch = |field: &'static str, expected: &str, actual: &str| {
        Err(ProtocolError::DeviceParameterAlgorithmMetadata {
            field,
            expected: expected.to_owned(),
            actual: actual.to_owned(),
        })
    };

    assert_eq!(check(&bytes), Ok(()));
    bytes[0x55c..0x560].copy_from_slice(&0xab_u32.to_le_bytes());
    assert_eq!(
        check(&bytes),
        mismatch(
            "payload CRC32",
            &format!("{:#010x}", algorithm.payload_crc32()),
            "0x000000ab"
        )
    );
    bytes[0x558] = 12;
    assert_eq!(check(&bytes), mismatch("payload length", "3", "12"));
    bytes[0x550] = 0x19;
    assert_eq!(
        check(&bytes),
        mismatch(
            "timestamp",
            "[20, 24, 05, 18, 13, 04, 30, 00]",
            "[19, 24, 05, 18, 13, 04, 30, 00]"
        )
    );
    bytes[0x540..0x544].copy_from_slice(&[b'n', 0xff, b'x', 0]);
    assert_eq!(check(&bytes), mismatch("name", "NAME", "n\u{fffd}x"));
}
