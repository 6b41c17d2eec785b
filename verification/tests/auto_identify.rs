use std::collections::VecDeque;
use std::convert::Infallible;

use crc32fast::hash;
use flypro::assets::algorithm::Algorithm;
use flypro::assets::device_db::{
    sfly_crc16, DeviceDatabase, DEVICE_RECORD_BYTES, TRAILER_SUM, VENDOR_RECORD_BYTES,
};
use flypro::assets::package_map::PackageMap;
use flypro::auto_identify::{
    match_identification_candidates, DetectionResult8, IdentificationError,
    IdentificationVoltage, SpiFlashIdentificationSession, IDENTIFICATION_DIAGNOSTIC_BYTES,
};
use flypro::protocol::{AlgorithmChunk, CommandBlock, COMMAND_BYTES, VERIFY_SENTINEL};
use flypro::session::{PrepareError, StaticCompletionPolicy};
use flypro::transport::{
    Delay, InPipe, NeverCancelled, OutPipe, TransferOptions, Transport, POST_DOWNLOAD_DELAY,
};

const STEM_XOR_KEY: [u8; 16] = [
    0xc5, 0xfc, 0x82, 0xde, 0xb1, 0xf3, 0xaf, 0xe3, 0xbc, 0xc4, 0xa2, 0x99, 0xb1, 0xe1, 0x96, 0x9c,
];

#[derive(Debug, Clone, PartialEq, Eq)]
enum Io {
    Write(OutPipe, Vec<u8>),
    Read(InPipe, Vec<u8>),
}

struct MockTransport {
    io: VecDeque<Io>,
}

impl MockTransport {
    fn new(io: impl Into<VecDeque<Io>>) -> Self {
        Self { io: io.into() }
    }

    fn assert_done(&self) {
        assert!(self.io.is_empty(), "unconsumed I/O: {:?}", self.io);
    }
}

impl Transport for MockTransport {
    type Error = Infallible;

    fn write_exact(
        &mut self,
        pipe: OutPipe,
        bytes: &[u8],
        _options: TransferOptions<'_>,
    ) -> Result<(), Self::Error> {
        assert_eq!(self.io.pop_front(), Some(Io::Write(pipe, bytes.to_vec())));
        Ok(())
    }

    fn read_exact(
        &mut self,
        pipe: InPipe,
        bytes: &mut [u8],
        _options: TransferOptions<'_>,
    ) -> Result<(), Self::Error> {
        let Some(Io::Read(expected_pipe, data)) = self.io.pop_front() else {
            panic!("expected scripted read")
        };
        assert_eq!(pipe, expected_pipe);
        assert_eq!(bytes.len(), data.len());
        bytes.copy_from_slice(&data);
        Ok(())
    }
}

#[derive(Default)]
struct RecordingDelay(Vec<u64>);

impl Delay for RecordingDelay {
    fn delay(&mut self, duration: u64) {
        self.0.push(duration);
    }
}

fn algorithm(name: &str) -> Algorithm {
    let mut bytes = vec![0_u8; 0x200 + 0x4000 + 0x0c + 4];
    bytes[..4].copy_from_slice(b"ALG\0");
    bytes[0x08..0x0a].copy_from_slice(&0x4000_u16.to_le_bytes());
    bytes[0x10..0x10 + name.len()].copy_from_slice(name.as_bytes());
    bytes[0x20..0x28].copy_from_slice(&[0x20, 0x24, 0x05, 0x18, 0x13, 0x04, 0x30, 0]);
    bytes[0x200..0x4200].fill(0x6b);
    let crc_offset = bytes.len() - 4;
    let crc = hash(&bytes[..crc_offset]);
    bytes[crc_offset..].copy_from_slice(&crc.to_le_bytes());
    Algorithm::parse(&bytes).expect("valid fixture")
}

fn m25id() -> Algorithm {
    algorithm("M25ID")
}

fn verification(name: &str) -> Vec<u8> {
    let mut response = vec![0; COMMAND_BYTES];
    response[..name.len()].copy_from_slice(name.as_bytes());
    response[0x3c..0x40].copy_from_slice(&VERIFY_SENTINEL.to_le_bytes());
    response
}

fn prepared_script(algorithm: &Algorithm) -> Vec<Io> {
    let mut io = Vec::new();
    for offset in (0..algorithm.payload().len()).step_by(0x800) {
        let chunk = AlgorithmChunk::new(algorithm, offset).expect("valid chunk");
        io.push(Io::Write(
            OutPipe::Command,
            chunk.command().as_bytes().to_vec(),
        ));
        io.push(Io::Write(OutPipe::Payload, chunk.payload().to_vec()));
        io.push(Io::Read(InPipe::Completion, vec![0x80]));
    }
    io.push(Io::Write(
        OutPipe::Command,
        CommandBlock::verify_device_algorithm().as_bytes().to_vec(),
    ));
    io.push(Io::Read(InPipe::Response, verification(algorithm.name())));
    io
}

#[test]
fn parses_lossless_detection_result() {
    let result = DetectionResult8::from_bytes([8, 0, 0xaa, 0xbb, 0xef, 0x40, 0x18, 0]);

    assert_eq!(result.detected_pin_class(), 8);
    assert_eq!(result.unknown_bytes(), [0xaa, 0xbb]);
    assert_eq!(result.chip_id_bytes(), [0xef, 0x40, 0x18, 0]);
    assert_eq!(result.raw(), [8, 0, 0xaa, 0xbb, 0xef, 0x40, 0x18, 0]);
}

#[test]
fn downloads_m25id_without_sprj_then_reads_detection() {
    let algorithm = m25id();
    let mut io = prepared_script(&algorithm);
    io.extend([
        Io::Write(
            OutPipe::Command,
            CommandBlock::spi_flash_identification_probe(330)
                .as_bytes()
                .to_vec(),
        ),
        Io::Read(InPipe::Completion, vec![0x80]),
        Io::Write(
            OutPipe::Command,
            CommandBlock::read_spi_flash_identification()
                .as_bytes()
                .to_vec(),
        ),
        Io::Read(InPipe::Completion, vec![0x80]),
        Io::Read(
            InPipe::Response,
            vec![8, 0, 0xaa, 0xbb, 0xef, 0x40, 0x15, 0],
        ),
    ]);
    let mut transport = MockTransport::new(io);
    let mut delay = RecordingDelay::default();

    let result = SpiFlashIdentificationSession::new(&mut transport, &NeverCancelled)
        .identify(
            &StaticCompletionPolicy,
            &mut delay,
            &algorithm,
            IdentificationVoltage::V3_3,
        )
        .expect("identification succeeds");

    assert_eq!(result.algorithm_completion_statuses(), &[0x80; 8]);
    assert_eq!(result.probe_completion_status(), 0x80);
    assert_eq!(result.result_completion_status(), 0x80);
    assert_eq!(result.detection().chip_id_bytes(), [0xef, 0x40, 0x15, 0]);
    assert_eq!(delay.0, [POST_DOWNLOAD_DELAY]);
    transport.assert_done();
}

#[test]
fn probe_rejection_reads_diagnostic_from_response_pipe() {
    let algorithm = m25id();
    let mut io = prepared_script(&algorithm);
    let mut diagnostic = vec![0; IDENTIFICATION_DIAGNOSTIC_BYTES];
    diagnostic[0] = 0x1e;
    io.extend([
        Io::Write(
            OutPipe::Command,
            CommandBlock::spi_flash_identification_probe(180)
                .as_bytes()
                .to_vec(),
        ),
        Io::Read(InPipe::Completion, vec![0xc0]),
        Io::Read(InPipe::Response, diagnostic),
    ]);
    let mut transport = MockTransport::new(io);

    let error = SpiFlashIdentificationSession::new(&mut transport, &NeverCancelled)
        .identify(
            &StaticCompletionPolicy,
            &mut RecordingDelay::default(),
            &algorithm,
            IdentificationVoltage::V1_8,
        )
        .expect_err("probe rejects");

    assert!(matches!(
        error,
        IdentificationError::ProbeRejected {
            raw_status: 0xc0,
            diagnostic
        } if diagnostic[0] == 0x1e
    ));
    transport.assert_done();
}

#[test]
fn identification_takes_only_its_own_algorithm() {
    let mut transport = MockTransport::new(Vec::new());

    let error = SpiFlashIdentificationSession::new(&mut transport, &NeverCancelled)
        .identify(
            &StaticCompletionPolicy,
            &mut RecordingDelay::default(),
            &algorithm("W25Q128"),
            IdentificationVoltage::V3_3,
        )
        .expect_err("another algorithm is refused");

    assert!(matches!(
        error,
        IdentificationError::UnexpectedAlgorithm { actual } if actual == "W25Q128"
    ));
    transport.assert_done();
}

#[test]
fn a_rejected_result_ends_the_identification() {
    let algorithm = algorithm("m25id");
    let mut io = prepared_script(&algorithm);
    io.extend([
        Io::Write(
            OutPipe::Command,
            CommandBlock::spi_flash_identification_probe(330)
                .as_bytes()
                .to_vec(),
        ),
        Io::Read(InPipe::Completion, vec![0x20]),
        Io::Write(
            OutPipe::Command,
            CommandBlock::read_spi_flash_identification()
                .as_bytes()
                .to_vec(),
        ),
        Io::Read(InPipe::Completion, vec![0x00]),
    ]);
    let mut transport = MockTransport::new(io);

    let error = SpiFlashIdentificationSession::new(&mut transport, &NeverCancelled)
        .identify(
            &StaticCompletionPolicy,
            &mut RecordingDelay::default(),
            &algorithm,
            IdentificationVoltage::V3_3,
        )
        .expect_err("result is rejected");

    assert!(matches!(
        error,
        IdentificationError::ResultRejected { raw_status: 0 }
    ));
    transport.assert_done();
}

#[test]
fn a_rejected_download_ends_the_identification() {
    let algorithm = m25id();
    let chunk = AlgorithmChunk::new(&algorithm, 0).expect("valid chunk");
    let mut transport = MockTransport::new(vec![
        Io::Write(OutPipe::Command, chunk.command().as_bytes().to_vec()),
        Io::Write(OutPipe::Payload, chunk.payload().to_vec()),
        Io::Read(InPipe::Completion, vec![0x40]),
    ]);
    let mut delay = RecordingDelay::default();

    let error = SpiFlashIdentificationSession::new(&mut transport, &NeverCancelled)
        .identify(
            &StaticCompletionPolicy,
            &mut delay,
            &algorithm,
            IdentificationVoltage::V3_3,
        )
        .expect_err("download is rejected");

    assert!(matches!(
        error,
        IdentificationError::AlgorithmPreparation(PrepareError::CompletionRejected {
            raw_status: 0x40,
            ..
        })
    ));
    assert!(delay.0.is_empty());
    transport.assert_done();
}

#[test]
fn voltages_have_values_and_labels() {
    assert_eq!(IdentificationVoltage::V3_3.centivolts(), 330);
    assert_eq!(IdentificationVoltage::V1_8.centivolts(), 180);
    assert_eq!(IdentificationVoltage::V3_3.label(), "3.3 V");
    assert_eq!(IdentificationVoltage::V1_8.label(), "1.8 V");
}

fn record(name: &[u8], family: u8, id: &[u8]) -> Vec<u8> {
    let mut raw = vec![0_u8; DEVICE_RECORD_BYTES];
    raw[..name.len()].copy_from_slice(name);
    raw[0x22] = family;
    raw[0x24..0x24 + id.len()].copy_from_slice(id);
    for (index, byte) in b"ALG".iter().enumerate() {
        raw[0x50 + index] = byte ^ STEM_XOR_KEY[index];
    }
    raw
}

fn catalog(records: &[Vec<u8>]) -> DeviceDatabase {
    let mut bytes = vec![0_u8; 0x100];
    bytes[0..4].copy_from_slice(b"DEV\0");
    bytes[0x04..0x06].copy_from_slice(&2_u16.to_le_bytes());
    bytes[0x08..0x0c].copy_from_slice(&1_u32.to_le_bytes());
    bytes[0x0c..0x10].copy_from_slice(&u32::try_from(records.len()).expect("fits").to_le_bytes());
    bytes[0x20..0x28].copy_from_slice(&[0x20, 0x26, 0x07, 0x14, 0x21, 0x00, 0x25, 0]);
    bytes[0xff] = bytes.iter().fold(0, |left, right| left ^ right);
    let mut owner = vec![0_u8; VENDOR_RECORD_BYTES];
    owner[0x10..0x17].copy_from_slice(b"Winbond");
    bytes.extend_from_slice(&owner);
    for record in records {
        bytes.extend_from_slice(record);
    }
    let crc = sfly_crc16(&bytes);
    bytes.extend_from_slice(&crc.to_le_bytes());
    let sum = bytes
        .iter()
        .fold(0_u16, |sum, byte| sum.wrapping_add(u16::from(*byte)));
    bytes.extend_from_slice(&TRAILER_SUM.wrapping_sub(sum).to_le_bytes());
    DeviceDatabase::parse(&bytes).expect("valid catalog")
}

#[test]
fn candidates_match_family_id_prefix_and_package_class() {
    let database = catalog(&[
        record(b"EXACT", 0, &[0xef, 0x40, 0x18]),
        record(b"OTHERFAMILY", 1, &[0xef, 0x40, 0x18]),
        record(b"OTHERID", 0, &[0xef, 0x40, 0x17]),
        record(b"SHORT", 0, &[0xef]),
        record(b"NOID", 0, &[]),
        record(b"FULL", 0, &[0xef, 0x40, 0x18, 0x01]),
        record(b"UNLISTED", 0, &[0xef]),
    ]);
    let packages =
        PackageMap::parse("1=1008,A,\n2=1108,B,\n3=1010,C,\n").expect("valid map");
    let keys = [
        vec![2, 3, 9, 1],
        vec![1],
        vec![1],
        vec![1],
        vec![1],
        vec![1],
    ];
    let classes = [None, Some(8), Some(8), Some(16)];

    let candidates = match_identification_candidates(
        &database,
        &packages,
        &keys,
        &classes,
        DetectionResult8::from_bytes([8, 0, 0, 0, 0xef, 0x40, 0x18, 0]),
    );

    let found: Vec<(&str, &str, u8)> = candidates
        .iter()
        .map(|candidate| {
            (
                candidate.vendor().name(),
                candidate.device().name(),
                candidate.package().key(),
            )
        })
        .collect();
    assert_eq!(
        found,
        vec![
            ("Winbond", "EXACT", 2),
            ("Winbond", "EXACT", 1),
            ("Winbond", "SHORT", 1),
        ]
    );
    assert_eq!(candidates[0].chip_id_prefix(), &[0xef, 0x40, 0x18]);
    assert_eq!(candidates[2].chip_id_prefix(), &[0xef]);
}
