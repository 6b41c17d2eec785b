use std::collections::VecDeque;
use std::convert::Infallible;

use flypro::operations::{
    transfer_chunk_size, EraseOutcome, EraseRequest, OperationError, OperationSession,
    VerifyMismatch,
};
use flypro::protocol::{
    CommandBlock, ConfigurationWritePayload, EraseMode, ADAPTER_CHECK_RESPONSE_BYTES,
    COMMAND_BYTES, CONFIGURATION_READ_BYTES,
};
use flypro::transport::{InPipe, NeverCancelled, OutPipe, TransferOptions, Transport};

#[derive(Debug, Clone, PartialEq, Eq)]
enum Io {
    Write(OutPipe, Vec<u8>),
    Read(InPipe, Vec<u8>),
}

struct MockTransport {
    io: VecDeque<Io>,
}

impl MockTransport {
    fn new(io: impl Into<VecDeque<Io>>) -> Self {
        Self { io: io.into() }
    }

    fn assert_done(&self) {
        assert!(self.io.is_empty(), "unconsumed I/O: {:?}", self.io);
    }
}

impl Transport for MockTransport {
    type Error = Infallible;

    fn write_exact(
        &mut self,
        pipe: OutPipe,
        bytes: &[u8],
        _options: TransferOptions<'_>,
    ) -> Result<(), Self::Error> {
        assert_eq!(self.io.pop_front(), Some(Io::Write(pipe, bytes.to_vec())));
        Ok(())
    }

    fn read_exact(
        &mut self,
        pipe: InPipe,
        bytes: &mut [u8],
        _options: TransferOptions<'_>,
    ) -> Result<(), Self::Error> {
        let Some(Io::Read(expected_pipe, data)) = self.io.pop_front() else {
            panic!("expected scripted read")
        };
        assert_eq!(pipe, expected_pipe);
        assert_eq!(bytes.len(), data.len());
        bytes.copy_from_slice(&data);
        Ok(())
    }
}

fn write(command: CommandBlock) -> Io {
    Io::Write(OutPipe::Command, command.into_bytes().to_vec())
}

fn accepted() -> Io {
    Io::Read(InPipe::Completion, vec![0x20])
}

#[test]
fn selects_static_primary_chunk_buckets() {
    assert_eq!(transfer_chunk_size(0, 1, 0).expect("valid"), 0x40);
    assert_eq!(transfer_chunk_size(0, 0x4000, 0).expect("valid"), 0x200);
    assert_eq!(transfer_chunk_size(0, 0x4000, 0x800).expect("valid"), 0x800);
    assert_eq!(
        transfer_chunk_size(1, 0x12_345, 0).expect("valid"),
        0x12_345
    );
}

#[test]
fn replays_common_adapter_check_before_operations() {
    let io = VecDeque::from([
        write(CommandBlock::adapter_check()),
        Io::Read(InPipe::Completion, vec![0x80]),
    ]);
    let mut transport = MockTransport::new(io);
    let mut session = OperationSession::new(&mut transport, &NeverCancelled);

    let result = session.adapter_check().expect("adapter check succeeds");

    assert_eq!(result.receipt.statuses(), &[0x80]);
    transport.assert_done();
}

#[test]
fn adapter_check_rejection_reads_its_response_pipe() {
    let mut response = vec![0; ADAPTER_CHECK_RESPONSE_BYTES];
    response[0] = 0x23;
    let io = VecDeque::from([
        write(CommandBlock::adapter_check()),
        Io::Read(InPipe::Completion, vec![0xc0]),
        Io::Read(InPipe::Response, response),
    ]);
    let mut transport = MockTransport::new(io);
    let mut session = OperationSession::new(&mut transport, &NeverCancelled);

    let error = session.adapter_check().expect_err("adapter check rejects");

    assert!(matches!(
        error,
        OperationError::AdapterCheckRejected {
            raw_status: 0xc0,
            response,
        } if response[0] == 0x23
    ));
    transport.assert_done();
}

#[test]
fn replays_common_target_probe_before_operations() {
    let io = VecDeque::from([
        write(CommandBlock::target_probe()),
        Io::Read(InPipe::Completion, vec![0x80]),
    ]);
    let mut transport = MockTransport::new(io);
    let mut session = OperationSession::new(&mut transport, &NeverCancelled);

    let result = session.target_probe().expect("target probe succeeds");

    assert_eq!(result.receipt.statuses(), &[0x80]);
    transport.assert_done();
}

#[test]
fn replays_program_sequence_and_chunk_boundaries() {
    let data = vec![0x5a; 0x801];
    let io = VecDeque::from([
        write(CommandBlock::program_initialize(0, 0x800, 0x801)),
        accepted(),
        write(CommandBlock::program_chunk(0, 0x800, 0x800)),
        Io::Write(OutPipe::Payload, data[..0x800].to_vec()),
        accepted(),
        write(CommandBlock::program_chunk(0, 0x1000, 1)),
        Io::Write(OutPipe::Payload, vec![0x5a]),
        accepted(),
        write(CommandBlock::program_finish(0)),
        accepted(),
    ]);
    let mut transport = MockTransport::new(io);
    let mut session = OperationSession::new(&mut transport, &NeverCancelled);

    let receipt = session
        .program_range(0, 0x800, &data, 0x800)
        .expect("program succeeds");

    assert_eq!(receipt.statuses(), &[0x20; 4]);
    transport.assert_done();
}

#[test]
fn verify_drains_data_and_finishes_before_reporting_mismatch() {
    let expected = [1, 2, 3, 4];
    let io = VecDeque::from([
        write(CommandBlock::read_initialize(0, 0x800, 4)),
        accepted(),
        write(CommandBlock::read_data(0, 0x800, 4)),
        Io::Read(InPipe::Response, vec![1, 2, 0, 4]),
        write(CommandBlock::read_finish(0)),
        accepted(),
    ]);
    let mut transport = MockTransport::new(io);
    let mut session = OperationSession::new(&mut transport, &NeverCancelled);

    let error = session
        .verify_range(0, 0x800, &expected, 64)
        .expect_err("mismatch");

    assert!(matches!(
        error,
        OperationError::VerifyMismatch(VerifyMismatch {
            offset: 0x802,
            expected: 3,
            actual: 0
        })
    ));
    transport.assert_done();
}

#[test]
fn rejected_status_consumes_one_diagnostic() {
    let mut diagnostic = vec![0; 64];
    diagnostic[0] = 0x0e;
    let io = VecDeque::from([
        write(CommandBlock::blank_check_initialize(0, 0x800)),
        Io::Read(InPipe::Completion, vec![0]),
        Io::Read(InPipe::AuxiliaryResult, diagnostic),
    ]);
    let mut transport = MockTransport::new(io);
    let mut session = OperationSession::new(&mut transport, &NeverCancelled);

    let error = session.blank_check(0, 0x800, 0x800).expect_err("rejected");

    assert!(matches!(
        error,
        OperationError::CompletionRejected {
            raw_status: 0,
            diagnostic,
            ..
        } if diagnostic.code() == 0x0e
    ));
    transport.assert_done();
}

#[test]
fn replays_blank_check_initial_chunks_and_finish() {
    let io = VecDeque::from([
        write(CommandBlock::blank_check_initialize(1, 0x1000)),
        accepted(),
        write(CommandBlock::blank_check_chunk(1, 0, 0x800)),
        accepted(),
        write(CommandBlock::blank_check_chunk(1, 0x800, 0x800)),
        accepted(),
        write(CommandBlock::blank_check_finish(1)),
        accepted(),
    ]);
    let mut transport = MockTransport::new(io);
    let mut session = OperationSession::new(&mut transport, &NeverCancelled);

    let receipt = session
        .blank_check(1, 0x1000, 0x800)
        .expect("blank check succeeds");

    assert_eq!(receipt.statuses(), &[0x20; 4]);
    transport.assert_done();
}

#[test]
fn replays_configuration_write_and_read() {
    let data = [0xa5; CONFIGURATION_READ_BYTES];
    let mask = [0x5a; CONFIGURATION_READ_BYTES];
    let payload = ConfigurationWritePayload::new(&data, &mask);
    let io = VecDeque::from([
        write(CommandBlock::write_configuration()),
        Io::Write(OutPipe::Payload, payload.as_bytes().to_vec()),
        accepted(),
        write(CommandBlock::read_configuration()),
        accepted(),
        Io::Read(InPipe::Response, data.to_vec()),
    ]);
    let mut transport = MockTransport::new(io);
    let mut session = OperationSession::new(&mut transport, &NeverCancelled);

    session
        .write_configuration(&data, &mask)
        .expect("configuration write succeeds");
    let read = session
        .read_configuration()
        .expect("configuration read succeeds");

    assert_eq!(read.data, data);
    transport.assert_done();
}

#[test]
fn configuration_write_rejection_does_not_read_the_diagnostic_pipe() {
    let data = [0xa5; CONFIGURATION_READ_BYTES];
    let mask = [0x5a; CONFIGURATION_READ_BYTES];
    let payload = ConfigurationWritePayload::new(&data, &mask);
    let io = VecDeque::from([
        write(CommandBlock::write_configuration()),
        Io::Write(OutPipe::Payload, payload.as_bytes().to_vec()),
        Io::Read(InPipe::Completion, vec![0xc0]),
    ]);
    let mut transport = MockTransport::new(io);
    let mut session = OperationSession::new(&mut transport, &NeverCancelled);

    let error = session
        .write_configuration(&data, &mask)
        .expect_err("configuration write rejects");

    assert!(matches!(
        error,
        OperationError::ConfigurationWriteRejected { raw_status: 0xc0 }
    ));
    transport.assert_done();
}

#[test]
fn erase_auxiliary_status_reads_the_command_specific_response() {
    let mut result = [0x33; COMMAND_BYTES];
    result[0] = 0x12;
    let io = VecDeque::from([
        write(CommandBlock::erase(0x20, EraseMode::Automatic)),
        Io::Read(InPipe::Completion, vec![0xe0]),
        Io::Read(InPipe::Response, result.to_vec()),
    ]);
    let mut transport = MockTransport::new(io);
    let mut session = OperationSession::new(&mut transport, &NeverCancelled);

    let erased = session
        .erase(EraseRequest {
            path_selector: 0x20,
            mode: EraseMode::Automatic,
        })
        .expect("erase succeeds");

    assert_eq!(erased.raw_result, Some(result));
    assert_eq!(erased.outcome, EraseOutcome::ResultCode12);
    assert_eq!(erased.receipt.statuses(), &[0xe0]);
    transport.assert_done();
}

#[test]
fn erase_accepted_status_does_not_read_an_auxiliary_response() {
    let io = VecDeque::from([write(CommandBlock::erase(1, EraseMode::Chip)), accepted()]);
    let mut transport = MockTransport::new(io);
    let mut session = OperationSession::new(&mut transport, &NeverCancelled);

    let erased = session
        .erase(EraseRequest {
            path_selector: 1,
            mode: EraseMode::Chip,
        })
        .expect("erase succeeds");

    assert_eq!(erased.outcome, EraseOutcome::Completed);
    assert_eq!(erased.raw_result, None);
    transport.assert_done();
}

#[test]
fn reads_progress_until_finish_then_completion() {
    let io = VecDeque::from([
        write(CommandBlock::progress_events()),
        Io::Read(
            InPipe::Specialized,
            vec![0, 0, 25, 0, 0, 0, 0, 0, 0, 0, 0, 0, 0, 0, 0, 0],
        ),
        Io::Read(
            InPipe::Specialized,
            vec![0, 0x80, 100, 0, 0, 0, 0, 0, 0, 0, 0, 0, 0, 0, 0, 0],
        ),
        accepted(),
    ]);
    let mut transport = MockTransport::new(io);
    let mut session = OperationSession::new(&mut transport, &NeverCancelled);

    let result = session.progress_events(3).expect("progress succeeds");

    assert_eq!(result.events.len(), 2);
    assert_eq!(result.events[0].stage_or_progress, 25);
    assert!(result.events[1].finished);
    transport.assert_done();
}
