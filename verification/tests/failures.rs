use crc32fast::hash;
use flypro::assets::algorithm::Algorithm;
use flypro::operations::{
    transfer_chunk_size, EraseOutcome, EraseRequest, OperationError, OperationInputError,
    OperationSession, OperationStage, OperationTimings,
};
use flypro::protocol::{DeviceParameterImage, EraseMode, VERIFY_SENTINEL};
use flypro::session::{AlgorithmSession, PrepareError, StaticCompletionPolicy, TransferStage};
use flypro::transport::{Delay, InPipe, NeverCancelled, OutPipe, TransferOptions, Transport};

/// What a transport was asked to do.
#[derive(Debug, Clone, PartialEq, Eq)]
enum Done {
    Write(OutPipe, Vec<u8>, u64),
    Read(InPipe, usize, u64),
}

/// A transport that answers from a list and remembers every transfer. An answer
/// of `None` is a failure.
struct Scripted {
    answers: Vec<Option<Vec<u8>>>,
    done: Vec<Done>,
}

impl Scripted {
    fn new(answers: &[Option<Vec<u8>>]) -> Self {
        let mut answers = answers.to_vec();
        answers.reverse();
        Self {
            answers,
            done: Vec::new(),
        }
    }

    fn payload(&self) -> Vec<u8> {
        self.done
            .iter()
            .filter_map(|done| match done {
                Done::Write(OutPipe::Payload, bytes, _) => Some(bytes.clone()),
                _ => None,
            })
            .flatten()
            .collect()
    }
}

impl Transport for Scripted {
    type Error = &'static str;

    fn write_exact(
        &mut self,
        pipe: OutPipe,
        bytes: &[u8],
        options: TransferOptions<'_>,
    ) -> Result<(), Self::Error> {
        self.done
            .push(Done::Write(pipe, bytes.to_vec(), options.timeout));
        self.answers.pop().flatten().map(|_| ()).ok_or("unplugged")
    }

    fn read_exact(
        &mut self,
        pipe: InPipe,
        bytes: &mut [u8],
        options: TransferOptions<'_>,
    ) -> Result<(), Self::Error> {
        self.done
            .push(Done::Read(pipe, bytes.len(), options.timeout));
        let answer = self.answers.pop().flatten().ok_or("unplugged")?;
        bytes.copy_from_slice(&answer);
        Ok(())
    }
}

#[derive(Default)]
struct Waits(Vec<u64>);

impl Delay for Waits {
    fn delay(&mut self, duration: u64) {
        self.0.push(duration);
    }
}

fn sent() -> Option<Vec<u8>> {
    Some(Vec::new())
}

fn status(byte: u8) -> Option<Vec<u8>> {
    Some(vec![byte])
}

fn algorithm(name: &str, length: usize) -> Algorithm {
    let mut bytes = vec![0_u8; 0x200 + length + 0x0c + 4];
    bytes[..4].copy_from_slice(b"ALG\0");
    bytes[0x08..0x0a].copy_from_slice(&u16::try_from(length).expect("fits").to_le_bytes());
    bytes[0x10..0x10 + name.len()].copy_from_slice(name.as_bytes());
    bytes[0x20..0x28].copy_from_slice(&[0x20, 0x24, 0x05, 0x18, 0x13, 0x04, 0x30, 0]);
    bytes[0x200..0x200 + length].fill(0x42);
    let offset = bytes.len() - 4;
    let crc = hash(&bytes[..offset]);
    bytes[offset..].copy_from_slice(&crc.to_le_bytes());
    Algorithm::parse(&bytes).expect("valid fixture")
}

fn verification(name: &str, sentinel: u32) -> Option<Vec<u8>> {
    let mut response = vec![0_u8; 64];
    response[..name.len()].copy_from_slice(name.as_bytes());
    response[0x3c..].copy_from_slice(&sentinel.to_le_bytes());
    Some(response)
}

fn prepare(
    session: &mut AlgorithmSession,
    algorithm: &Algorithm,
    answers: &[Option<Vec<u8>>],
) -> (
    Result<bool, PrepareError<&'static str>>,
    Scripted,
    Vec<u64>,
) {
    let mut transport = Scripted::new(answers);
    let mut waits = Waits::default();
    let parameters = DeviceParameterImage::from_bytes([0x5c; 0x800]);
    let result = session
        .prepare(
            &mut transport,
            &StaticCompletionPolicy,
            &mut waits,
            &NeverCancelled,
            algorithm,
            &parameters,
        )
        .map(|ready| ready.reused());
    (result, transport, waits.0)
}

#[test]
fn programming_sends_every_byte_once() {
    let data: Vec<u8> = (0..300_u32).map(|value| value.to_le_bytes()[0]).collect();
    let mut answers = vec![sent(), status(0x80)];
    for _ in 0..5 {
        answers.extend([sent(), sent(), status(0x80)]);
    }
    answers.extend([sent(), status(0x80)]);
    let mut transport = Scripted::new(&answers);

    let receipt = OperationSession::new(&mut transport, &NeverCancelled)
        .program(0, &data, 0)
        .expect("programming succeeds");

    assert_eq!(receipt.statuses(), &[0x80; 7]);
    assert_eq!(transport.payload(), data);
    assert!(transport.answers.is_empty());
}

#[test]
fn reading_collects_every_piece() {
    let mut answers = vec![sent(), status(0x80), sent()];
    answers.extend([Some(vec![1; 64]), Some(vec![2; 36])]);
    answers.extend([sent(), status(0x20)]);
    let mut transport = Scripted::new(&answers);

    let read = OperationSession::new(&mut transport, &NeverCancelled)
        .read(0, 100, 0)
        .expect("reading succeeds");

    assert_eq!(&read.data[..64], &[1; 64]);
    assert_eq!(&read.data[64..], &[2; 36]);
    assert_eq!(read.receipt.statuses(), &[0x80, 0x20]);
    assert_eq!(
        transport.done[3],
        Done::Read(InPipe::Response, 64, 2_000)
    );
}

#[test]
fn verification_accepts_equal_data() {
    let answers = [
        sent(),
        status(0x80),
        sent(),
        Some(vec![7, 8]),
        sent(),
        status(0x80),
    ];
    let mut transport = Scripted::new(&answers);
    assert!(OperationSession::new(&mut transport, &NeverCancelled)
        .verify(0, &[7, 8], 0)
        .is_ok());
    assert_eq!(transport.done[3], Done::Read(InPipe::Response, 2, 3_000));
}

#[test]
fn a_failed_transfer_ends_an_operation() {
    let mut transport = Scripted::new(&[sent(), status(0x80), sent(), None]);
    let error = OperationSession::new(&mut transport, &NeverCancelled)
        .program(0, &[1, 2, 3], 0)
        .expect_err("the payload fails");

    assert!(matches!(
        error,
        OperationError::Transport {
            stage: OperationStage::ProgramChunk { offset: 0 },
            source: "unplugged",
        }
    ));
    assert_eq!(transport.done.len(), 4);

    let mut transport = Scripted::new(&[sent(), status(0x40), None]);
    let error = OperationSession::new(&mut transport, &NeverCancelled)
        .with_timings(OperationTimings {
            completion: 1,
            diagnostic: 77,
        })
        .blank_check(0, 0x800, 0x800)
        .expect_err("the diagnostic fails");
    assert!(matches!(
        error,
        OperationError::DiagnosticTransport {
            stage: OperationStage::BlankInitialize,
            raw_status: 0x40,
            source: "unplugged",
        }
    ));
    assert_eq!(
        transport.done[2],
        Done::Read(InPipe::AuxiliaryResult, 64, 77)
    );
}

#[test]
fn inputs_are_refused_before_any_transfer() {
    let mut transport = Scripted::new(&[]);
    let mut session = OperationSession::new(&mut transport, &NeverCancelled);

    assert!(matches!(
        session.read(0, 0, 0),
        Err(OperationError::Input(OperationInputError::ZeroLength))
    ));
    assert!(matches!(
        session.blank_check(0, 0x800, 0x7ff),
        Err(OperationError::InvalidBlankChunk { actual: 0x7ff })
    ));
    if usize::BITS > 32 {
        assert!(matches!(
            session.read(0, 0x1_0000_0000, 0),
            Err(OperationError::Input(OperationInputError::LengthOverflow {
                actual: 0x1_0000_0000,
            }))
        ));
        assert!(matches!(
            session.program_range(0, 0x1_0000_0000, &[1], 0),
            Err(OperationError::Input(OperationInputError::LengthOverflow {
                actual: 0x1_0000_0000,
            }))
        ));
    }
    assert!(matches!(
        session.verify_range(0, 0xffff_ffff, &[1], 0),
        Err(OperationError::Input(OperationInputError::AddressOverflow {
            start: 0xffff_ffff,
            length: 1,
        }))
    ));
    assert!(transport.done.is_empty());
    assert_eq!(
        transfer_chunk_size(0, 0, 0),
        Err(OperationInputError::ZeroLength)
    );
}

#[test]
fn transfer_sizes_follow_the_buckets() {
    assert_eq!(transfer_chunk_size(0, 0x0100_0000, 0), Ok(0x1_0000));
    assert_eq!(transfer_chunk_size(0, 0x20_0000, 0), Ok(0x1_0000));
    assert_eq!(transfer_chunk_size(0, 0x1f_ffff, 0), Ok(0x8000));
    assert_eq!(transfer_chunk_size(0, 0x1000, 0), Ok(0x80));
    assert_eq!(transfer_chunk_size(0, 0xfff, 0), Ok(0x40));
    assert_eq!(transfer_chunk_size(0, 0xfff, 0x41), Ok(0x41));
}

#[test]
fn a_rejected_target_probe_reads_its_response() {
    let mut response = vec![0_u8; 64];
    response[0] = 0x15;
    let mut transport = Scripted::new(&[sent(), status(0x00), Some(response)]);

    let error = OperationSession::new(&mut transport, &NeverCancelled)
        .target_probe()
        .expect_err("the probe is rejected");

    assert!(matches!(
        error,
        OperationError::TargetProbeRejected { raw_status: 0, response } if response[0] == 0x15
    ));
    assert_eq!(
        transport.done[1..],
        [
            Done::Read(InPipe::Completion, 1, 500),
            Done::Read(InPipe::Response, 64, 1_000),
        ]
    );
}

#[test]
fn erase_results_are_interpreted() {
    let outcome = |code: u8| {
        let mut response = vec![0_u8; 64];
        response[0] = code;
        let mut transport = Scripted::new(&[sent(), status(0x40), Some(response)]);
        let erased = OperationSession::new(&mut transport, &NeverCancelled)
            .erase(EraseRequest {
                path_selector: 0,
                mode: EraseMode::Chip,
            })
            .expect("the result is read");
        assert_eq!(
            transport.done[1..],
            [
                Done::Read(InPipe::Completion, 1, 1_000_000),
                Done::Read(InPipe::Response, 64, 1_000),
            ]
        );
        erased.outcome
    };
    assert_eq!(outcome(0x0a), EraseOutcome::ResultCode0A);
    assert_eq!(outcome(0x12), EraseOutcome::ResultCode12);
    assert_eq!(outcome(0x99), EraseOutcome::UnexpectedResult { code: 0x99 });

    let mut transport = Scripted::new(&[sent(), status(0x40), None]);
    let error = OperationSession::new(&mut transport, &NeverCancelled)
        .erase(EraseRequest {
            path_selector: 0,
            mode: EraseMode::Chip,
        })
        .expect_err("the result fails");
    assert!(matches!(
        error,
        OperationError::Transport {
            stage: OperationStage::EraseResult,
            ..
        }
    ));
}

#[test]
fn configuration_mismatches_are_reported() {
    let mut actual = [0x11_u8; 64];
    actual[9] = 0x10;
    let answers = [sent(), status(0x80), Some(actual.to_vec())];
    let mut mask = [0xff_u8; 64];

    let mut transport = Scripted::new(&answers);
    let error = OperationSession::new(&mut transport, &NeverCancelled)
        .verify_configuration(&[0x11; 64], &mask)
        .expect_err("a bit differs");
    assert!(matches!(
        error,
        OperationError::ConfigurationMismatch(mismatch)
            if mismatch.offset == 9 && mismatch.expected == 0x11 && mismatch.actual == 0x10
    ));

    mask[9] = 0xfe;
    let mut transport = Scripted::new(&answers);
    assert!(OperationSession::new(&mut transport, &NeverCancelled)
        .verify_configuration(&[0x11; 64], &mask)
        .is_ok());
}

#[test]
fn progress_streams_have_a_limit() {
    let mut transport = Scripted::new(&[sent(), Some(vec![0; 16]), Some(vec![0; 16])]);
    let error = OperationSession::new(&mut transport, &NeverCancelled)
        .progress_events(2)
        .expect_err("the stream goes on");
    assert!(matches!(
        error,
        OperationError::ProgressLimit { max_records: 2 }
    ));
    assert_eq!(transport.done.len(), 3);

    let mut transport = Scripted::new(&[sent()]);
    assert!(matches!(
        OperationSession::new(&mut transport, &NeverCancelled).progress_events(0),
        Err(OperationError::ProgressLimit { max_records: 0 })
    ));

    let mut transport = Scripted::new(&[sent(), None]);
    assert!(matches!(
        OperationSession::new(&mut transport, &NeverCancelled).progress_events(5),
        Err(OperationError::Transport {
            stage: OperationStage::ProgressEvent,
            ..
        })
    ));
}

#[test]
fn preparation_sends_algorithm_and_parameters() {
    let algorithm = algorithm("NAME", 0x801);
    let mut session = AlgorithmSession::new();
    let (result, transport, waits) = prepare(
        &mut session,
        &algorithm,
        &[
            sent(),
            sent(),
            status(0x80),
            sent(),
            sent(),
            status(0x80),
            sent(),
            verification("name", VERIFY_SENTINEL),
            sent(),
            sent(),
            status(0x80),
        ],
    );

    assert!(matches!(result, Ok(false)));
    let mut expected = vec![0x42; 0x801];
    expected.extend_from_slice(&[0x5c; 0x800]);
    assert_eq!(transport.payload(), expected);
    assert_eq!(waits, [100]);
    let identity = session.ready_identity().expect("ready");
    assert_eq!(identity.name(), "NAME");
    assert_eq!(identity.payload_length(), 0x801);
    assert_eq!(identity.payload_crc32(), algorithm.payload_crc32());
    assert_eq!(identity.timestamp(), algorithm.timestamp());

    let (result, transport, waits) = prepare(
        &mut session,
        &algorithm,
        &[
            sent(),
            verification("NAME", VERIFY_SENTINEL),
            sent(),
            sent(),
            status(0x80),
        ],
    );
    assert!(matches!(result, Ok(true)));
    assert_eq!(transport.payload(), vec![0x5c; 0x800]);
    assert!(waits.is_empty());

    let (result, transport, waits) = prepare(
        &mut session,
        &algorithm,
        &[
            sent(),
            verification("OTHER", VERIFY_SENTINEL),
            sent(),
            sent(),
            status(0x80),
            sent(),
            sent(),
            status(0x80),
            sent(),
            verification("NAME", VERIFY_SENTINEL),
            sent(),
            sent(),
            status(0x80),
        ],
    );
    assert!(matches!(result, Ok(false)));
    assert_eq!(transport.payload(), expected);
    assert_eq!(waits, [100]);

    session.reset();
    assert!(session.ready_identity().is_none());
}

#[test]
fn a_failed_preparation_forgets_the_algorithm() {
    let algorithm = algorithm("NAME", 1);
    let ready = [
        sent(),
        sent(),
        status(0x80),
        sent(),
        verification("NAME", VERIFY_SENTINEL),
        sent(),
        sent(),
        status(0x80),
    ];
    let mut session = AlgorithmSession::new();
    assert!(prepare(&mut session, &algorithm, &ready).0.is_ok());
    assert!(session.ready_identity().is_some());

    let (result, transport, _) = prepare(&mut session, &algorithm, &[None]);
    assert!(matches!(
        result,
        Err(PrepareError::Transport {
            stage: TransferStage::VerifyCommandOut,
            source: "unplugged",
        })
    ));
    assert_eq!(transport.done.len(), 1);
    assert!(session.ready_identity().is_none());

    let (result, _, waits) = prepare(
        &mut session,
        &algorithm,
        &[
            sent(),
            sent(),
            status(0x80),
            sent(),
            verification("NAME", 1),
        ],
    );
    assert!(matches!(
        result,
        Err(PrepareError::PostDownloadVerification {
            expected_name,
            device_name,
            sentinel: 1,
        }) if expected_name == "NAME" && device_name == "NAME"
    ));
    assert_eq!(waits, [100]);

    let (result, _, _) = prepare(
        &mut session,
        &algorithm,
        &[sent(), sent(), status(0x80), sent(), verification("", 0)],
    );
    assert!(matches!(result, Err(PrepareError::Protocol(_))));

    let (result, transport, waits) = prepare(&mut session, &algorithm, &[sent(), None]);
    assert!(matches!(
        result,
        Err(PrepareError::Transport {
            stage: TransferStage::AlgorithmPayloadOut { offset: 0 },
            ..
        })
    ));
    assert_eq!(transport.done.len(), 2);
    assert!(waits.is_empty());
}

#[test]
fn names_of_sixteen_characters_cannot_be_sent() {
    let mut session = AlgorithmSession::new();
    let (result, transport, waits) =
        prepare(&mut session, &algorithm("ABCDEFGHIJKLMNOP", 1), &[]);
    assert!(matches!(result, Err(PrepareError::Protocol(_))));
    assert!(transport.done.is_empty());
    assert!(waits.is_empty());
}
