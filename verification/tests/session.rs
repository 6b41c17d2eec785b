use std::collections::VecDeque;
use std::convert::Infallible;

use crc32fast::hash;
use flypro::assets::algorithm::{Algorithm, CRC32_BYTES, HEADER_BYTES, RESERVED_BYTES};
use flypro::protocol::{AlgorithmChunk, CommandBlock, DeviceParameterImage, VERIFY_SENTINEL};
use flypro::session::{AlgorithmSession, PrepareError, TransferStage};
use flypro::transport::{
    Delay, InPipe, NeverCancelled, OutPipe, TransferOptions, Transport, POST_DOWNLOAD_DELAY,
};

#[derive(Debug, Clone, PartialEq, Eq)]
enum ExpectedIo {
    Write(OutPipe, Vec<u8>),
    Read(InPipe, Vec<u8>),
}

#[derive(Default)]
struct MockTransport {
    expected: VecDeque<ExpectedIo>,
}

impl MockTransport {
    fn scripted(expected: Vec<ExpectedIo>) -> Self {
        Self {
            expected: expected.into(),
        }
    }

    fn done(&self) -> bool {
        self.expected.is_empty()
    }
}

impl Transport for MockTransport {
    type Error = Infallible;

    fn write_exact(
        &mut self,
        pipe: OutPipe,
        bytes: &[u8],
        _options: TransferOptions<'_>,
    ) -> Result<(), Self::Error> {
        assert_eq!(
            self.expected.pop_front(),
            Some(ExpectedIo::Write(pipe, bytes.to_vec()))
        );
        Ok(())
    }

    fn read_exact(
        &mut self,
        pipe: InPipe,
        bytes: &mut [u8],
        _options: TransferOptions<'_>,
    ) -> Result<(), Self::Error> {
        let Some(ExpectedIo::Read(expected_pipe, data)) = self.expected.pop_front() else {
            panic!("expected scripted read");
        };
        assert_eq!(pipe, expected_pipe);
        assert_eq!(bytes.len(), data.len());
        bytes.copy_from_slice(&data);
        Ok(())
    }
}

#[derive(Default)]
struct RecordingDelay(Vec<u64>);

impl Delay for RecordingDelay {
    fn delay(&mut self, duration: u64) {
        self.0.push(duration);
    }
}

fn algorithm() -> Algorithm {
    let payload_length = 0x1000_usize;
    let mut bytes = vec![0_u8; HEADER_BYTES + payload_length + RESERVED_BYTES + CRC32_BYTES];
    bytes[..4].copy_from_slice(b"ALG\0");
    bytes[0x08..0x0a].copy_from_slice(
        &u16::try_from(payload_length)
            .expect("fixture length fits")
            .to_le_bytes(),
    );
    bytes[0x10..0x18].copy_from_slice(b"W25Q128\0");
    bytes[0x20..0x28].copy_from_slice(&[0x20, 0x24, 0x05, 0x18, 0x13, 0x04, 0x30, 0]);
    bytes[HEADER_BYTES..HEADER_BYTES + payload_length].fill(0x5a);
    let crc_offset = bytes.len() - CRC32_BYTES;
    let crc = hash(&bytes[..crc_offset]);
    bytes[crc_offset..].copy_from_slice(&crc.to_le_bytes());
    Algorithm::parse(&bytes).expect("valid fixture")
}

fn verification(name: &str, sentinel: u32) -> Vec<u8> {
    let mut response = vec![0_u8; 64];
    response[..name.len()].copy_from_slice(name.as_bytes());
    response[0x3c..0x40].copy_from_slice(&sentinel.to_le_bytes());
    response
}

fn fresh_session_script(algorithm: &Algorithm, status: u8) -> Vec<ExpectedIo> {
    let mut script = Vec::new();
    for offset in [0, 0x800] {
        let chunk = AlgorithmChunk::new(algorithm, offset).expect("valid chunk");
        script.push(ExpectedIo::Write(
            OutPipe::Command,
            chunk.command().as_bytes().to_vec(),
        ));
        script.push(ExpectedIo::Write(
            OutPipe::Payload,
            chunk.payload().to_vec(),
        ));
        script.push(ExpectedIo::Read(InPipe::Completion, vec![status]));
    }
    script.push(ExpectedIo::Write(
        OutPipe::Command,
        CommandBlock::verify_device_algorithm().as_bytes().to_vec(),
    ));
    script.push(ExpectedIo::Read(
        InPipe::Response,
        verification(algorithm.name(), VERIFY_SENTINEL),
    ));
    script.push(ExpectedIo::Write(
        OutPipe::Command,
        CommandBlock::download_device_parameters()
            .as_bytes()
            .to_vec(),
    ));
    script.push(ExpectedIo::Write(OutPipe::Payload, vec![0_u8; 0x800]));
    script.push(ExpectedIo::Read(InPipe::Completion, vec![status]));
    script
}

#[test]
fn fresh_session_downloads_verifies_and_sends_parameters() {
    let algorithm = algorithm();
    let parameters = DeviceParameterImage::from_bytes([0; 0x800]);
    let mut transport = MockTransport::scripted(fresh_session_script(&algorithm, 0x42));
    let mut delay = RecordingDelay::default();
    let mut session = AlgorithmSession::new();

    let ready = session
        .prepare(
            &mut transport,
            &|_: TransferStage, status: u8| status == 0x42,
            &mut delay,
            &NeverCancelled,
            &algorithm,
            &parameters,
        )
        .expect("script succeeds");

    assert!(!ready.reused());
    assert_eq!(ready.completion_statuses(), &[0x42, 0x42, 0x42]);
    assert_eq!(delay.0, vec![POST_DOWNLOAD_DELAY]);
    assert!(transport.done());
    assert_eq!(session.ready_identity(), Some(ready.identity()));
}

#[test]
fn ready_session_verifies_before_reuse_and_still_sends_parameters() {
    let algorithm = algorithm();
    let parameters = DeviceParameterImage::from_bytes([0; 0x800]);
    let mut first_transport = MockTransport::scripted(fresh_session_script(&algorithm, 0x42));
    let mut delay = RecordingDelay::default();
    let mut session = AlgorithmSession::new();
    session
        .prepare(
            &mut first_transport,
            &|_: TransferStage, status: u8| status == 0x42,
            &mut delay,
            &NeverCancelled,
            &algorithm,
            &parameters,
        )
        .expect("first preparation succeeds");

    let script = vec![
        ExpectedIo::Write(
            OutPipe::Command,
            CommandBlock::verify_device_algorithm().as_bytes().to_vec(),
        ),
        ExpectedIo::Read(
            InPipe::Response,
            verification(algorithm.name(), VERIFY_SENTINEL),
        ),
        ExpectedIo::Write(
            OutPipe::Command,
            CommandBlock::download_device_parameters()
                .as_bytes()
                .to_vec(),
        ),
        ExpectedIo::Write(OutPipe::Payload, vec![0; 0x800]),
        ExpectedIo::Read(InPipe::Completion, vec![0x42]),
    ];
    let mut transport = MockTransport::scripted(script);
    let ready = session
        .prepare(
            &mut transport,
            &|_: TransferStage, status: u8| status == 0x42,
            &mut delay,
            &NeverCancelled,
            &algorithm,
            &parameters,
        )
        .expect("reuse succeeds");

    assert!(ready.reused());
    assert_eq!(ready.completion_statuses(), &[0x42]);
    assert!(transport.done());
}

#[test]
fn completion_status_requires_explicit_policy_acceptance() {
    let algorithm = algorithm();
    let chunk = AlgorithmChunk::new(&algorithm, 0).expect("valid chunk");
    let mut transport = MockTransport::scripted(vec![
        ExpectedIo::Write(OutPipe::Command, chunk.command().as_bytes().to_vec()),
        ExpectedIo::Write(OutPipe::Payload, chunk.payload().to_vec()),
        ExpectedIo::Read(InPipe::Completion, vec![0xff]),
    ]);
    let mut session = AlgorithmSession::new();

    let error = session
        .prepare(
            &mut transport,
            &|_: TransferStage, _: u8| false,
            &mut RecordingDelay::default(),
            &NeverCancelled,
            &algorithm,
            &DeviceParameterImage::from_bytes([0; 0x800]),
        )
        .expect_err("policy must reject status");

    assert!(matches!(
        error,
        PrepareError::CompletionRejected {
            raw_status: 0xff,
            ..
        }
    ));
    assert!(session.ready_identity().is_none());
}
