//! Operation state machines for blank check, program, read, verify,
//! configuration, erase, and progress events.
//!
//! Every operation follows a plan of transfers. The contract of an operation
//! says which plan that is, that nothing else is transferred, and which error
//! comes from which step that fails.

use vstd::prelude::*;
use vstd::slice::slice_subrange;

use crate::bytes::{extend, to_array};
use crate::exchange::{
    carried_out, failed_read, failed_write, lemma_nothing_received, lemma_on_course_push,
    lemma_on_course_start, lemma_received_push, lemma_sent_take, leaves_alone, on_course, passes,
    received, replied, reply, sent, sent_by, succeeded, Step,
};
use crate::protocol::{
    classify_completion_status, completion_accepted, configuration_mismatch,
    configuration_payload_bytes, erase_frame, first_masked_difference, plain_frame, CommandBlock,
    CompletionDisposition, ConfigurationMismatch, ConfigurationWritePayload, EraseMode,
    KnownCommand, OperationDiagnostic, ADAPTER_CHECK_RESPONSE_BYTES, COMMAND_BYTES,
    CONFIGURATION_READ_BYTES,
};
use crate::transport::{
    read_bytes, Cancellation, InPipe, OutPipe, Transfer, TransferOptions, Transport,
    COMMAND_TIMEOUT, PAYLOAD_TIMEOUT,
};

verus! {

pub const BLANK_INITIALIZE_TIMEOUT: u64 = 2_000;

pub const BLANK_CHUNK_TIMEOUT: u64 = 5_000;

pub const BLANK_FINISH_TIMEOUT: u64 = 1_000;

pub const READ_INITIALIZE_TIMEOUT: u64 = 1_000;

pub const READ_DATA_TIMEOUT: u64 = 2_000;

pub const READ_FINISH_TIMEOUT: u64 = 1_000;

pub const VERIFY_DATA_TIMEOUT: u64 = 3_000;

pub const DIAGNOSTIC_TIMEOUT: u64 = 500;

pub const EVENT_RECORD_TIMEOUT: u64 = 2_000;

pub const ERASE_COMPLETION_TIMEOUT: u64 = 1_000_000;

pub const ERASE_RESULT_TIMEOUT: u64 = 1_000;

pub const PROGRAM_INITIALIZE_TIMEOUT: u64 = 3_000;

pub const PROGRAM_PAYLOAD_TIMEOUT: u64 = 6_000;

pub const PROGRAM_CHUNK_COMPLETION_TIMEOUT: u64 = 3_000;

pub const PROGRAM_FINISH_TIMEOUT: u64 = 1_000;

pub const ADAPTER_CHECK_COMPLETION_TIMEOUT: u64 = 1_000;

pub const ADAPTER_CHECK_RESPONSE_TIMEOUT: u64 = 500;

pub const TARGET_PROBE_COMPLETION_TIMEOUT: u64 = 500;

pub const TARGET_PROBE_RESPONSE_TIMEOUT: u64 = 1_000;

/// Deadlines in milliseconds of transfers that have none of their own.
#[derive(Debug, Clone, Copy, PartialEq, Eq, Structural)]
pub struct OperationTimings {
    pub completion: u64,
    pub diagnostic: u64,
}

impl Default for OperationTimings {
    fn default() -> (timings: Self)
        ensures
            timings == (OperationTimings { completion: 600, diagnostic: DIAGNOSTIC_TIMEOUT }),
    {
        OperationTimings { completion: 600, diagnostic: DIAGNOSTIC_TIMEOUT }
    }
}

/// Raw completion bytes retained for auditing one operation.
#[derive(Debug, Clone, PartialEq, Eq, Default)]
pub struct OperationReceipt {
    statuses: Vec<u8>,
}

impl View for OperationReceipt {
    type V = Seq<u8>;

    closed spec fn view(&self) -> Seq<u8> {
        self.statuses@
    }
}

impl OperationReceipt {
    fn empty() -> (receipt: Self)
        ensures
            receipt@ == Seq::<u8>::empty(),
    {
        OperationReceipt { statuses: Vec::new() }
    }

    #[must_use]
    pub fn statuses(&self) -> (statuses: &[u8])
        ensures
            statuses@ == self@,
    {
        self.statuses.as_slice()
    }
}

#[derive(Debug, Clone, PartialEq, Eq)]
pub struct ReadResult {
    pub data: Vec<u8>,
    pub receipt: OperationReceipt,
}

#[derive(Debug, Clone, PartialEq, Eq)]
pub struct ConfigurationReadResult {
    pub data: [u8; CONFIGURATION_READ_BYTES],
    pub receipt: OperationReceipt,
}

#[derive(Debug, Clone, PartialEq, Eq)]
pub struct AdapterCheckResult {
    pub receipt: OperationReceipt,
}

#[derive(Debug, Clone, PartialEq, Eq)]
pub struct TargetProbeResult {
    pub receipt: OperationReceipt,
}

/// One 16-byte record of a progress stream.
#[derive(Debug, Clone, PartialEq, Eq)]
pub struct ProgressEvent {
    pub stage_or_progress: u8,
    pub finished: bool,
    pub raw: [u8; 16],
}

#[derive(Debug, Clone, PartialEq, Eq)]
pub struct ProgressResult {
    pub events: Vec<ProgressEvent>,
    pub receipt: OperationReceipt,
}

/// Explicit controls for the erase command.
#[derive(Debug, Clone, Copy, PartialEq, Eq, Structural)]
pub struct EraseRequest {
    pub path_selector: u32,
    pub mode: EraseMode,
}

#[derive(Debug, Clone, Copy, PartialEq, Eq, Structural)]
pub enum EraseOutcome {
    Completed,
    ResultCode0A,
    ResultCode12,
    UnexpectedResult { code: u8 },
}

#[derive(Debug, Clone, PartialEq, Eq)]
pub struct EraseResult {
    pub raw_result: Option<[u8; COMMAND_BYTES]>,
    pub outcome: EraseOutcome,
    pub receipt: OperationReceipt,
}

/// Where in an operation a transfer belongs.
#[derive(Debug, Clone, Copy, PartialEq, Eq, Structural)]
pub enum OperationStage {
    AdapterCheck,
    AdapterCheckResponse,
    TargetProbe,
    TargetProbeResponse,
    BlankInitialize,
    BlankChunk { offset: usize },
    BlankFinish,
    ProgramInitialize,
    ProgramChunk { offset: usize },
    ProgramFinish,
    ReadInitialize,
    ReadDataCommand,
    ReadData { offset: usize },
    ReadFinish,
    ConfigurationWrite,
    ConfigurationRead,
    Erase,
    EraseResult,
    ProgressStart,
    ProgressEvent,
    ProgressFinish,
}

/// First byte that a verification found different.
#[derive(Debug, Clone, Copy, PartialEq, Eq, Structural)]
pub struct VerifyMismatch {
    pub offset: usize,
    pub expected: u8,
    pub actual: u8,
}

/// Arguments that no operation accepts.
#[derive(Debug, Clone, Copy, PartialEq, Eq, Structural)]
pub enum OperationInputError {
    ZeroLength,
    LengthOverflow { actual: usize },
    AddressOverflow { start: usize, length: usize },
}

/// Failures of an operation.
#[allow(inconsistent_fields)]
#[derive(Debug)]
pub enum OperationError<E> {
    Input(OperationInputError),
    InvalidBlankChunk { actual: usize },
    AdapterCheckRejected { raw_status: u8, response: [u8; ADAPTER_CHECK_RESPONSE_BYTES] },
    TargetProbeRejected { raw_status: u8, response: [u8; COMMAND_BYTES] },
    ConfigurationWriteRejected { raw_status: u8 },
    Transport { stage: OperationStage, source: E },
    DiagnosticTransport { stage: OperationStage, raw_status: u8, source: E },
    CompletionRejected { stage: OperationStage, raw_status: u8, diagnostic: OperationDiagnostic },
    VerifyMismatch(VerifyMismatch),
    ConfigurationMismatch(ConfigurationMismatch),
    ProgressLimit { max_records: usize },
}

/// Operations accept the completion bytes that the protocol accepts.
pub open spec fn static_judge<S>() -> spec_fn(S, u8) -> bool {
    |stage: S, status: u8| completion_accepted(status)
}

/// What follows a rejected completion byte: the adapter check and the target
/// probe have a response of their own, a configuration write has nothing, and
/// every other stage has a diagnostic block.
pub open spec fn rejection<E>(
    diagnostic_timeout: u64,
    stage: OperationStage,
    status: u8,
    tail: Seq<Transfer<E>>,
    error: OperationError<E>,
) -> bool {
    match stage {
        OperationStage::AdapterCheck => tail.len() == 1 && {
            let length = ADAPTER_CHECK_RESPONSE_BYTES as nat;
            let timeout = ADAPTER_CHECK_RESPONSE_TIMEOUT;
            ||| {
                &&& failed_read(tail[0], InPipe::Response, length, timeout) matches Some(source)
                &&& error == (OperationError::Transport {
                    stage: OperationStage::AdapterCheckResponse,
                    source,
                })
            }
            ||| {
                &&& replied(tail[0], InPipe::Response, length, timeout) matches Some(bytes)
                &&& error matches OperationError::AdapterCheckRejected { raw_status, response }
                &&& raw_status == status
                &&& response@ == bytes
            }
        },
        OperationStage::TargetProbe => tail.len() == 1 && {
            let length = COMMAND_BYTES as nat;
            let timeout = TARGET_PROBE_RESPONSE_TIMEOUT;
            ||| {
                &&& failed_read(tail[0], InPipe::Response, length, timeout) matches Some(source)
                &&& error == (OperationError::Transport {
                    stage: OperationStage::TargetProbeResponse,
                    source,
                })
            }
            ||| {
                &&& replied(tail[0], InPipe::Response, length, timeout) matches Some(bytes)
                &&& error matches OperationError::TargetProbeRejected { raw_status, response }
                &&& raw_status == status
                &&& response@ == bytes
            }
        },
        OperationStage::ConfigurationWrite => tail.len() == 0 && error == (
        OperationError::<E>::ConfigurationWriteRejected { raw_status: status }),
        _ => tail.len() == 1 && {
            let pipe = InPipe::AuxiliaryResult;
            ||| {
                &&& failed_read(tail[0], pipe, 64, diagnostic_timeout) matches Some(source)
                &&& error == (OperationError::DiagnosticTransport {
                    stage,
                    raw_status: status,
                    source,
                })
            }
            ||| {
                &&& replied(tail[0], pipe, 64, diagnostic_timeout) matches Some(bytes)
                &&& error matches OperationError::CompletionRejected {
                    stage: rejected,
                    raw_status,
                    diagnostic,
                }
                &&& rejected == stage
                &&& raw_status == status
                &&& diagnostic.describes(bytes)
            }
        },
    }
}

/// A step failed: the transfers in `tail` are all that it made, and `error` is
/// what it reports.
pub open spec fn step_error<E>(
    diagnostic_timeout: u64,
    step: Step<OperationStage>,
    tail: Seq<Transfer<E>>,
    error: OperationError<E>,
) -> bool {
    match step {
        Step::Send { pipe, bytes, timeout, stage } => {
            &&& tail.len() == 1
            &&& failed_write(tail[0], pipe, bytes, timeout) matches Some(source)
            &&& error == (OperationError::Transport { stage, source })
        },
        Step::Receive { pipe, length, timeout, stage } => {
            &&& tail.len() == 1
            &&& failed_read(tail[0], pipe, length, timeout) matches Some(source)
            &&& error == (OperationError::Transport { stage, source })
        },
        Step::Complete { timeout, stage } => {
            ||| {
                &&& tail.len() == 1
                &&& failed_read(tail[0], InPipe::Completion, 1, timeout) matches Some(source)
                &&& error == (OperationError::Transport { stage, source })
            }
            ||| {
                &&& tail.len() >= 1
                &&& replied(tail[0], InPipe::Completion, 1, timeout) matches Some(status)
                &&& !completion_accepted(status[0])
                &&& rejection(diagnostic_timeout, stage, status[0], tail.skip(1), error)
            }
        },
        Step::Confirm { .. } => false,
    }
}

/// Since `before`, the transfers up to `after` carried out some steps of the
/// plan and then failed in the next, which reports `error`.
pub open spec fn interrupted<E>(
    diagnostic_timeout: u64,
    plan: Seq<Step<OperationStage>>,
    before: Seq<Transfer<E>>,
    after: Seq<Transfer<E>>,
    error: OperationError<E>,
) -> bool {
    exists|k: int|
        0 <= k < plan.len() && #[trigger] stopped_at(
            diagnostic_timeout,
            plan,
            before,
            after,
            error,
            k,
        )
}

/// As [`interrupted`], with the number of steps that were carried out.
pub open spec fn stopped_at<E>(
    diagnostic_timeout: u64,
    plan: Seq<Step<OperationStage>>,
    before: Seq<Transfer<E>>,
    after: Seq<Transfer<E>>,
    error: OperationError<E>,
    k: int,
) -> bool {
    &&& before.len() + k < after.len()
    &&& on_course(static_judge(), plan, before, after.take(before.len() + k))
    &&& step_error(diagnostic_timeout, plan[k], after.skip(before.len() + k), error)
}

/// A history goes on from another one.
spec fn extends<E>(previous: Seq<Transfer<E>>, now: Seq<Transfer<E>>) -> bool {
    previous.len() <= now.len() && previous == now.take(previous.len() as int)
}

proof fn lemma_interrupted<E>(
    diagnostic_timeout: u64,
    plan: Seq<Step<OperationStage>>,
    before: Seq<Transfer<E>>,
    now: Seq<Transfer<E>>,
    tail: Seq<Transfer<E>>,
    error: OperationError<E>,
)
    requires
        on_course(static_judge(), plan, before, now),
        now.len() - before.len() < plan.len(),
        tail.len() > 0,
        step_error(diagnostic_timeout, plan[now.len() - before.len()], tail, error),
    ensures
        stopped_at(
            diagnostic_timeout,
            plan,
            before,
            now + tail,
            error,
            now.len() - before.len(),
        ),
        extends(now, now + tail),
        interrupted(diagnostic_timeout, plan, before, now + tail, error),
{
    let after = now + tail;
    let k: int = now.len() - before.len();
    assert(after.take(before.len() + k) =~= now);
    assert(after.skip(before.len() + k) =~= tail);
    assert(stopped_at(diagnostic_timeout, plan, before, after, error, k));
}

/// A command block of an operation.
pub open spec fn command_step(bytes: Seq<u8>, stage: OperationStage) -> Step<OperationStage> {
    Step::Send { pipe: OutPipe::Command, bytes, timeout: COMMAND_TIMEOUT, stage }
}

/// A payload of an operation.
pub open spec fn payload_step(bytes: Seq<u8>, timeout: u64, stage: OperationStage) -> Step<
    OperationStage,
> {
    Step::Send { pipe: OutPipe::Payload, bytes, timeout, stage }
}

/// The number of pieces of at most `chunk` bytes that make up `length` bytes.
pub open spec fn chunk_count(length: nat, chunk: nat) -> nat {
    ((length + chunk - 1) / (chunk as int)) as nat
}

/// The size of the piece at an offset.
pub open spec fn piece_length(length: nat, chunk: nat, offset: int) -> int {
    if length - offset < chunk {
        length - offset
    } else {
        chunk as int
    }
}

/// Pieces begin at the multiples of their size.
pub proof fn lemma_chunk_count(length: nat, chunk: nat, index: int)
    requires
        chunk > 0,
        index >= 0,
    ensures
        index * chunk < length <==> index < chunk_count(length, chunk),
        (index + 1) * chunk == index * chunk + chunk,
        index * chunk >= 0,
{
    let total: int = length + chunk - 1;
    let count: int = total / (chunk as int);
    vstd::arithmetic::div_mod::lemma_fundamental_div_mod(total, chunk as int);
    let rest: int = total % (chunk as int);
    vstd::arithmetic::div_mod::lemma_div_pos_is_pos(total, chunk as int);
    assert(chunk as int * count == count * chunk) by (nonlinear_arith);
    assert((index + 1) * chunk == index * chunk + chunk) by (nonlinear_arith);
    assert(index * chunk >= 0) by (nonlinear_arith)
        requires
            index >= 0,
    ;
    if index < count {
        assert((index + 1) * chunk <= count * chunk) by (nonlinear_arith)
            requires
                index + 1 <= count,
        ;
    } else {
        assert(index * chunk >= count * chunk) by (nonlinear_arith)
            requires
                index >= count,
        ;
    }
}

/// The socket and adapter check.
pub open spec fn adapter_check_plan() -> Seq<Step<OperationStage>> {
    seq![
        command_step(
            plain_frame(KnownCommand::AdapterCheck, 2, 0, 0x38),
            OperationStage::AdapterCheck,
        ),
        Step::Complete {
            timeout: ADAPTER_CHECK_COMPLETION_TIMEOUT,
            stage: OperationStage::AdapterCheck,
        },
    ]
}

/// The target probe.
pub open spec fn target_probe_plan() -> Seq<Step<OperationStage>> {
    seq![
        command_step(
            plain_frame(KnownCommand::TargetProbe, 0, 0, 0),
            OperationStage::TargetProbe,
        ),
        Step::Complete {
            timeout: TARGET_PROBE_COMPLETION_TIMEOUT,
            stage: OperationStage::TargetProbe,
        },
    ]
}

/// A blank check: one command for the region, one for each piece, one to end.
pub open spec fn blank_check_plan(region: u32, length: nat, chunk: nat) -> Seq<
    Step<OperationStage>,
> {
    seq![
        command_step(
            plain_frame(KnownCommand::BlankCheckInitialize, region, 0, length as u32),
            OperationStage::BlankInitialize,
        ),
        Step::Complete {
            timeout: BLANK_INITIALIZE_TIMEOUT,
            stage: OperationStage::BlankInitialize,
        },
    ] + Seq::new(
        2 * chunk_count(length, chunk),
        |i: int|
            {
                let offset = (i / 2) * chunk;
                let stage = OperationStage::BlankChunk { offset: offset as usize };
                if i % 2 == 0 {
                    command_step(
                        plain_frame(
                            KnownCommand::BlankCheckChunk,
                            region,
                            offset as u32,
                            piece_length(length, chunk, offset) as u32,
                        ),
                        stage,
                    )
                } else {
                    Step::Complete { timeout: BLANK_CHUNK_TIMEOUT, stage }
                }
            },
    ) + seq![
        command_step(
            plain_frame(KnownCommand::BlankCheckFinish, region, 0, 0),
            OperationStage::BlankFinish,
        ),
        Step::Complete { timeout: BLANK_FINISH_TIMEOUT, stage: OperationStage::BlankFinish },
    ]
}

/// A programming run: the data goes out in pieces, each behind its own command
/// and each with its own completion.
pub open spec fn program_plan(region: u32, start: nat, data: Seq<u8>, chunk: nat) -> Seq<
    Step<OperationStage>,
> {
    seq![
        command_step(
            plain_frame(KnownCommand::ProgramInitialize, region, start as u32, data.len() as u32),
            OperationStage::ProgramInitialize,
        ),
        Step::Complete {
            timeout: PROGRAM_INITIALIZE_TIMEOUT,
            stage: OperationStage::ProgramInitialize,
        },
    ] + Seq::new(
        3 * chunk_count(data.len(), chunk),
        |i: int|
            {
                let offset = (i / 3) * chunk;
                let length = piece_length(data.len(), chunk, offset);
                let stage = OperationStage::ProgramChunk { offset: (start + offset) as usize };
                if i % 3 == 0 {
                    command_step(
                        plain_frame(
                            KnownCommand::ProgramChunk,
                            region,
                            (start + offset) as u32,
                            length as u32,
                        ),
                        stage,
                    )
                } else if i % 3 == 1 {
                    payload_step(
                        data.subrange(offset, offset + length),
                        PROGRAM_PAYLOAD_TIMEOUT,
                        stage,
                    )
                } else {
                    Step::Complete { timeout: PROGRAM_CHUNK_COMPLETION_TIMEOUT, stage }
                }
            },
    ) + seq![
        command_step(
            plain_frame(KnownCommand::ProgramFinish, region, 0, 0),
            OperationStage::ProgramFinish,
        ),
        Step::Complete { timeout: PROGRAM_FINISH_TIMEOUT, stage: OperationStage::ProgramFinish },
    ]
}

/// A read: one command for the range, the data in pieces, one command to end.
pub open spec fn read_plan(
    region: u32,
    start: nat,
    length: nat,
    chunk: nat,
    data_timeout: u64,
) -> Seq<Step<OperationStage>> {
    seq![
        command_step(
            plain_frame(KnownCommand::ReadInitialize, region, start as u32, length as u32),
            OperationStage::ReadInitialize,
        ),
        Step::Complete { timeout: READ_INITIALIZE_TIMEOUT, stage: OperationStage::ReadInitialize },
        command_step(
            plain_frame(KnownCommand::ReadData, region, start as u32, length as u32),
            OperationStage::ReadDataCommand,
        ),
    ] + Seq::new(
        chunk_count(length, chunk),
        |i: int|
            Step::Receive {
                pipe: InPipe::Response,
                length: piece_length(length, chunk, i * chunk) as nat,
                timeout: data_timeout,
                stage: OperationStage::ReadData { offset: (i * chunk) as usize },
            },
    ) + seq![
        command_step(
            plain_frame(KnownCommand::ReadFinish, region, 0, 0),
            OperationStage::ReadFinish,
        ),
        Step::Complete { timeout: READ_FINISH_TIMEOUT, stage: OperationStage::ReadFinish },
    ]
}

/// A configuration write.
pub open spec fn write_configuration_plan(
    data: Seq<u8>,
    mask: Seq<u8>,
    completion_timeout: u64,
) -> Seq<Step<OperationStage>> {
    seq![
        command_step(
            plain_frame(KnownCommand::WriteConfiguration, 0, 0, 0x100),
            OperationStage::ConfigurationWrite,
        ),
        payload_step(
            configuration_payload_bytes(data, mask),
            PAYLOAD_TIMEOUT,
            OperationStage::ConfigurationWrite,
        ),
        Step::Complete { timeout: completion_timeout, stage: OperationStage::ConfigurationWrite },
    ]
}

/// A configuration read.
pub open spec fn read_configuration_plan(completion_timeout: u64) -> Seq<Step<OperationStage>> {
    seq![
        command_step(
            plain_frame(KnownCommand::ReadConfiguration, 0, 0, 0x40),
            OperationStage::ConfigurationRead,
        ),
        Step::Complete { timeout: completion_timeout, stage: OperationStage::ConfigurationRead },
        Step::Receive {
            pipe: InPipe::Response,
            length: CONFIGURATION_READ_BYTES as nat,
            timeout: READ_DATA_TIMEOUT,
            stage: OperationStage::ConfigurationRead,
        },
    ]
}

/// An erase: the command and its completion byte, and behind a byte that is not
/// accepted the erase result.
pub open spec fn erase_plan(request: EraseRequest, accepted: bool) -> Seq<Step<OperationStage>> {
    let start = seq![
        command_step(erase_frame(request.path_selector, request.mode), OperationStage::Erase),
        Step::Receive {
            pipe: InPipe::Completion,
            length: 1,
            timeout: ERASE_COMPLETION_TIMEOUT,
            stage: OperationStage::Erase,
        },
    ];
    if accepted {
        start
    } else {
        start.push(
            Step::Receive {
                pipe: InPipe::Response,
                length: COMMAND_BYTES as nat,
                timeout: ERASE_RESULT_TIMEOUT,
                stage: OperationStage::EraseResult,
            },
        )
    }
}

/// What an erase result reports.
pub open spec fn erase_outcome(result: Seq<u8>) -> EraseOutcome {
    if result[0] == 0x0a {
        EraseOutcome::ResultCode0A
    } else if result[0] == 0x12 {
        EraseOutcome::ResultCode12
    } else {
        EraseOutcome::UnexpectedResult { code: result[0] }
    }
}

/// A progress stream of a given number of records.
pub open spec fn progress_plan(records: nat, completion_timeout: u64) -> Seq<
    Step<OperationStage>,
> {
    seq![
        command_step(
            plain_frame(KnownCommand::ProgressEvents, 0, 0, 0),
            OperationStage::ProgressStart,
        ),
    ] + Seq::new(
        records,
        |i: int|
            Step::Receive {
                pipe: InPipe::Specialized,
                length: 16,
                timeout: EVENT_RECORD_TIMEOUT,
                stage: OperationStage::ProgressEvent,
            },
    ) + seq![
        Step::Complete { timeout: completion_timeout, stage: OperationStage::ProgressFinish },
    ]
}

/// A progress record ends its stream.
pub open spec fn is_last_record(record: Seq<u8>) -> bool {
    record[1] & 0x80 != 0
}

/// The record with the given number that came since `before`.
pub open spec fn record_at<E>(before: Seq<Transfer<E>>, now: Seq<Transfer<E>>, i: int) -> Seq<u8> {
    reply(now[before.len() + 1 + i], InPipe::Specialized)
}

/// The first records that came since `before` do not end the stream.
pub open spec fn stream_goes_on<E>(
    before: Seq<Transfer<E>>,
    now: Seq<Transfer<E>>,
    records: int,
) -> bool {
    forall|i: int| 0 <= i < records ==> !is_last_record(#[trigger] record_at(before, now, i))
}

/// An event holds a record.
pub open spec fn event_of(event: ProgressEvent, record: Seq<u8>) -> bool {
    &&& event.raw@ == record
    &&& event.stage_or_progress == record[2]
    &&& event.finished == is_last_record(record)
}

/// Why a range cannot be transferred.
pub open spec fn range_error(start: usize, length: usize) -> Option<OperationInputError> {
    if length == 0 {
        Some(OperationInputError::ZeroLength)
    } else if length > u32::MAX {
        Some(OperationInputError::LengthOverflow { actual: length })
    } else if start > u32::MAX {
        Some(OperationInputError::LengthOverflow { actual: start })
    } else if start + length > u32::MAX {
        Some(OperationInputError::AddressOverflow { start, length })
    } else {
        None
    }
}

/// The largest of the sizes 64, 128, .. 65536 that is not above `scaled`, or 64.
#[verifier::opaque]
pub open spec fn chunk_bucket(scaled: int) -> int {
    if scaled >= 0x1_0000 {
        0x1_0000
    } else if scaled >= 0x8000 {
        0x8000
    } else if scaled >= 0x4000 {
        0x4000
    } else if scaled >= 0x2000 {
        0x2000
    } else if scaled >= 0x1000 {
        0x1000
    } else if scaled >= 0x800 {
        0x800
    } else if scaled >= 0x400 {
        0x400
    } else if scaled >= 0x200 {
        0x200
    } else if scaled >= 0x100 {
        0x100
    } else if scaled >= 0x80 {
        0x80
    } else {
        0x40
    }
}

/// The size of a data transfer: everything at once outside the primary region,
/// and there a thirty-second of the total, rounded down to a bucket, but at
/// least the given minimum.
pub open spec fn chunk_size(region: u32, total_length: int, minimum_primary_chunk: u16) -> int {
    let bucket = chunk_bucket(total_length / 32);
    if region != 0 {
        total_length
    } else if bucket < minimum_primary_chunk {
        minimum_primary_chunk as int
    } else {
        bucket
    }
}

/// A result is the first difference of two byte sequences that begin at `start`.
pub open spec fn first_difference(
    start: int,
    expected: Seq<u8>,
    actual: Seq<u8>,
    found: Option<VerifyMismatch>,
) -> bool {
    match found {
        None => expected == actual,
        Some(mismatch) => {
            let i = mismatch.offset - start;
            &&& 0 <= i < expected.len()
            &&& mismatch.expected == expected[i]
            &&& mismatch.actual == actual[i]
            &&& expected[i] != actual[i]
            &&& expected.take(i) == actual.take(i)
        },
    }
}

/// Selects the size of the transfers of one region.
///
/// # Errors
///
/// Rejects a zero total length or one that cannot fit a protocol field.
pub fn transfer_chunk_size(
    region: u32,
    total_length: usize,
    minimum_primary_chunk: u16,
) -> (result: Result<usize, OperationInputError>)
    ensures
        match result {
            Ok(size) => 0 < total_length <= u32::MAX && size == chunk_size(
                region,
                total_length as int,
                minimum_primary_chunk,
            ) && size > 0,
            Err(error) => (total_length == 0 && error == OperationInputError::ZeroLength) || (
            total_length > u32::MAX && error == (OperationInputError::LengthOverflow {
                actual: total_length,
            })),
        },
{
    if total_length == 0 {
        return Err(OperationInputError::ZeroLength);
    }
    if total_length > 0xffff_ffff {
        return Err(OperationInputError::LengthOverflow { actual: total_length });
    }
    if region != 0 {
        return Ok(total_length);
    }
    let scaled: usize = total_length / 32;
    let mut bucket: usize = 0x1_0000;
    while bucket > 0x40 && bucket > scaled
        invariant
            bucket == 0x1_0000 || bucket == 0x8000 || bucket == 0x4000 || bucket == 0x2000 || bucket
                == 0x1000 || bucket == 0x800 || bucket == 0x400 || bucket == 0x200 || bucket
                == 0x100 || bucket == 0x80 || bucket == 0x40,
            bucket < 0x1_0000 ==> scaled < 2 * bucket,
        decreases bucket,
    {
        bucket = bucket / 2;
    }
    proof {
        reveal(chunk_bucket);
    }
    let minimum: usize = minimum_primary_chunk as usize;
    if bucket < minimum {
        Ok(minimum)
    } else {
        Ok(bucket)
    }
}

/// A session took one step of a plan.
spec fn went_on<E>(
    plan: Seq<Step<OperationStage>>,
    before: Seq<Transfer<E>>,
    previous: Seq<Transfer<E>>,
    now: Seq<Transfer<E>>,
) -> bool {
    on_course(static_judge(), plan, before, now) && now.len() == previous.len() + 1
}

/// A plan goes on with the given step.
spec fn goes_on_with<E>(
    plan: Seq<Step<OperationStage>>,
    before: Seq<Transfer<E>>,
    now: Seq<Transfer<E>>,
    step: Step<OperationStage>,
) -> bool {
    &&& on_course(static_judge(), plan, before, now)
    &&& now.len() - before.len() < plan.len()
    &&& plan[now.len() - before.len()] == step
}

/// One exclusive operation stream over an already prepared programmer.
///
/// The fields are public so that contracts can say what becomes of the borrowed
/// transport: it ends as the session leaves it.
pub struct OperationSession<'a, T: Transport> {
    pub transport: &'a mut T,
    pub cancellation: &'a dyn Cancellation,
    pub timings: OperationTimings,
}

impl<'a, T: Transport> OperationSession<'a, T> {
    /// Every transfer of the underlying transport, oldest first.
    pub open spec fn history(&self) -> Seq<Transfer<T::Error>> {
        self.transport.history()
    }

    /// The deadlines in use.
    pub open spec fn timings(&self) -> OperationTimings {
        self.timings
    }

    #[must_use]
    pub fn new(transport: &'a mut T, cancellation: &'a dyn Cancellation) -> (session: Self)
        ensures
            session.history() == old(transport).history(),
            *final(session.transport) == *final(transport),
            session.timings() == (OperationTimings {
                completion: 600,
                diagnostic: 500,
            }),
    {
        OperationSession { transport, cancellation, timings: OperationTimings::default() }
    }

    #[must_use]
    pub fn with_timings(self, timings: OperationTimings) -> (session: Self)
        ensures
            session.history() == self.history(),
            *final(session.transport) == *final(self.transport),
            session.timings() == timings,
    {
        OperationSession { transport: self.transport, cancellation: self.cancellation, timings }
    }

    fn send(
        &mut self,
        pipe: OutPipe,
        bytes: &[u8],
        timeout: u64,
        stage: OperationStage,
        Ghost(plan): Ghost<Seq<Step<OperationStage>>>,
        Ghost(before): Ghost<Seq<Transfer<T::Error>>>,
    ) -> (result: Result<(), OperationError<T::Error>>)
        requires
            goes_on_with(
                plan,
                before,
                old(self).history(),
                (Step::Send { pipe, bytes: bytes@, timeout, stage }),
            ),
        ensures
            *final(final(self).transport) == *final(old(self).transport),
            final(self).timings() == old(self).timings(),
            match result {
                Ok(_) => went_on(plan, before, old(self).history(), final(self).history()) && (
                forall|p: InPipe| #[trigger]
                    received(before, final(self).history(), p) == received(
                        before,
                        old(self).history(),
                        p,
                    )),
                Err(error) => stopped_at(
                    old(self).timings().diagnostic,
                    plan,
                    before,
                    final(self).history(),
                    error,
                    old(self).history().len() - before.len(),
                ),
            },
            extends(old(self).history(), final(self).history()),
    {
        let ghost now = self.history();
        let options = TransferOptions { timeout, cancellation: self.cancellation };
        let outcome = self.transport.write_exact(pipe, bytes, options);
        assert(now =~= self.history().take(now.len() as int));
        let ghost event = Transfer::Write { pipe, bytes: bytes@, timeout, result: outcome };
        match outcome {
            Ok(()) => {
                proof {
                    lemma_on_course_push(static_judge(), plan, before, now, event);
                    assert forall|p: InPipe| #[trigger]
                        received(before, self.history(), p) == received(before, now, p) by {
                        lemma_received_push(before, now, event, p);
                        assert(received(before, now, p) + Seq::<u8>::empty() =~= received(
                            before,
                            now,
                            p,
                        ));
                    }
                }
                Ok(())
            },
            Err(source) => {
                let error = OperationError::Transport { stage, source };
                proof {
                    lemma_interrupted(
                        self.timings().diagnostic,
                        plan,
                        before,
                        now,
                        seq![event],
                        error,
                    );
                    assert(now + seq![event] =~= self.history());
                }
                Err(error)
            },
        }
    }

    fn command(
        &mut self,
        command: &CommandBlock,
        stage: OperationStage,
        Ghost(plan): Ghost<Seq<Step<OperationStage>>>,
        Ghost(before): Ghost<Seq<Transfer<T::Error>>>,
    ) -> (result: Result<(), OperationError<T::Error>>)
        requires
            goes_on_with(plan, before, old(self).history(), command_step(command@, stage)),
        ensures
            *final(final(self).transport) == *final(old(self).transport),
            final(self).timings() == old(self).timings(),
            match result {
                Ok(_) => went_on(plan, before, old(self).history(), final(self).history()) && (
                forall|p: InPipe| #[trigger]
                    received(before, final(self).history(), p) == received(
                        before,
                        old(self).history(),
                        p,
                    )),
                Err(error) => stopped_at(
                    old(self).timings().diagnostic,
                    plan,
                    before,
                    final(self).history(),
                    error,
                    old(self).history().len() - before.len(),
                ),
            },
            extends(old(self).history(), final(self).history()),
    {
        let bytes: &[u8] = command.as_bytes();
        self.send(OutPipe::Command, bytes, COMMAND_TIMEOUT, stage, Ghost(plan), Ghost(before))
    }

    fn receive(
        &mut self,
        pipe: InPipe,
        length: usize,
        timeout: u64,
        stage: OperationStage,
        Ghost(plan): Ghost<Seq<Step<OperationStage>>>,
        Ghost(before): Ghost<Seq<Transfer<T::Error>>>,
    ) -> (result: Result<Vec<u8>, OperationError<T::Error>>)
        requires
            goes_on_with(
                plan,
                before,
                old(self).history(),
                (Step::Receive { pipe, length: length as nat, timeout, stage }),
            ),
        ensures
            *final(final(self).transport) == *final(old(self).transport),
            final(self).timings() == old(self).timings(),
            match result {
                Ok(bytes) => {
                    &&& bytes@.len() == length
                    &&& went_on(plan, before, old(self).history(), final(self).history())
                    &&& final(self).history() == old(self).history().push(
                        Transfer::Read { pipe, length: length as nat, timeout, result: Ok(bytes@) },
                    )
                    &&& forall|p: InPipe| #[trigger]
                        received(before, final(self).history(), p) == received(
                            before,
                            old(self).history(),
                            p,
                        ) + if p == pipe {
                            bytes@
                        } else {
                            Seq::empty()
                        }
                },
                Err(error) => stopped_at(
                    old(self).timings().diagnostic,
                    plan,
                    before,
                    final(self).history(),
                    error,
                    old(self).history().len() - before.len(),
                ),
            },
            extends(old(self).history(), final(self).history()),
    {
        let ghost now = self.history();
        let options = TransferOptions { timeout, cancellation: self.cancellation };
        match read_bytes(self.transport, pipe, length, options) {
            Ok(bytes) => {
                proof {
                    assert(now =~= self.history().take(now.len() as int));
                    let event = Transfer::Read {
                        pipe,
                        length: length as nat,
                        timeout,
                        result: Ok(bytes@),
                    };
                    lemma_on_course_push(static_judge(), plan, before, now, event);
                    assert forall|p: InPipe| #[trigger]
                        received(before, self.history(), p) == received(before, now, p) + if p
                            == pipe {
                            bytes@
                        } else {
                            Seq::empty()
                        } by {
                        lemma_received_push(before, now, event, p);
                    }
                }
                Ok(bytes)
            },
            Err(source) => {
                let error = OperationError::Transport { stage, source };
                proof {
                    let event = Transfer::Read {
                        pipe,
                        length: length as nat,
                        timeout,
                        result: Err(source),
                    };
                    lemma_interrupted(
                        self.timings().diagnostic,
                        plan,
                        before,
                        now,
                        seq![event],
                        error,
                    );
                    assert(now + seq![event] =~= self.history());
                }
                Err(error)
            },
        }
    }

    /// Reads the completion byte of a step and whether it is accepted. The byte
    /// is kept either way; after one that is not accepted the step is not over.
    fn status(
        &mut self,
        stage: OperationStage,
        timeout: u64,
        receipt: &mut OperationReceipt,
        Ghost(plan): Ghost<Seq<Step<OperationStage>>>,
        Ghost(before): Ghost<Seq<Transfer<T::Error>>>,
    ) -> (result: Result<(u8, CompletionDisposition), OperationError<T::Error>>)
        requires
            goes_on_with(
                plan,
                before,
                old(self).history(),
                (Step::Complete { timeout, stage }),
            ),
            old(receipt)@ == received(before, old(self).history(), InPipe::Completion),
        ensures
            *final(final(self).transport) == *final(old(self).transport),
            final(self).timings() == old(self).timings(),
            match result {
                Ok((status, disposition)) => {
                    &&& final(self).history() == old(self).history().push(
                        Transfer::Read {
                            pipe: InPipe::Completion,
                            length: 1,
                            timeout,
                            result: Ok(seq![status]),
                        },
                    )
                    &&& (disposition == CompletionDisposition::Accepted) == completion_accepted(
                        status,
                    )
                    &&& completion_accepted(status) ==> went_on(
                        plan,
                        before,
                        old(self).history(),
                        final(self).history(),
                    )
                    &&& final(receipt)@ == received(
                        before,
                        final(self).history(),
                        InPipe::Completion,
                    )
                    &&& forall|p: InPipe|
                        p != InPipe::Completion ==> #[trigger] received(
                            before,
                            final(self).history(),
                            p,
                        ) == received(before, old(self).history(), p)
                },
                Err(error) => stopped_at(
                    old(self).timings().diagnostic,
                    plan,
                    before,
                    final(self).history(),
                    error,
                    old(self).history().len() - before.len(),
                ),
            },
            extends(old(self).history(), final(self).history()),
    {
        let ghost now = self.history();
        let options = TransferOptions { timeout, cancellation: self.cancellation };
        match read_bytes(self.transport, InPipe::Completion, 1, options) {
            Ok(bytes) => {
                let status: u8 = bytes[0];
                receipt.statuses.push(status);
                proof {
                    assert(now =~= self.history().take(now.len() as int));
                    assert(bytes@ =~= seq![status]);
                    let event = Transfer::Read {
                        pipe: InPipe::Completion,
                        length: 1,
                        timeout,
                        result: Ok(bytes@),
                    };
                    if completion_accepted(status) {
                        lemma_on_course_push(static_judge(), plan, before, now, event);
                    }
                    assert forall|p: InPipe|
                        p != InPipe::Completion implies #[trigger] received(
                        before,
                        self.history(),
                        p,
                    ) == received(before, now, p) by {
                        lemma_received_push(before, now, event, p);
                    }
                    lemma_received_push(before, now, event, InPipe::Completion);
                    assert(receipt@ =~= received(before, self.history(), InPipe::Completion));
                }
                Ok((status, classify_completion_status(status)))
            },
            Err(source) => {
                let error = OperationError::Transport { stage, source };
                proof {
                    let event = Transfer::Read {
                        pipe: InPipe::Completion,
                        length: 1,
                        timeout,
                        result: Err(source),
                    };
                    lemma_interrupted(
                        self.timings().diagnostic,
                        plan,
                        before,
                        now,
                        seq![event],
                        error,
                    );
                    assert(now + seq![event] =~= self.history());
                }
                Err(error)
            },
        }
    }

    /// Reads the completion byte of a step, and the diagnostic block behind a
    /// byte that is not accepted.
    #[verifier::rlimit(50)]
    fn completion(
        &mut self,
        stage: OperationStage,
        timeout: u64,
        receipt: &mut OperationReceipt,
        Ghost(plan): Ghost<Seq<Step<OperationStage>>>,
        Ghost(before): Ghost<Seq<Transfer<T::Error>>>,
    ) -> (result: Result<(), OperationError<T::Error>>)
        requires
            goes_on_with(
                plan,
                before,
                old(self).history(),
                (Step::Complete { timeout, stage }),
            ),
            old(receipt)@ == received(before, old(self).history(), InPipe::Completion),
            !(stage is AdapterCheck || stage is TargetProbe || stage is ConfigurationWrite),
        ensures
            *final(final(self).transport) == *final(old(self).transport),
            final(self).timings() == old(self).timings(),
            match result {
                Ok(_) => {
                    &&& went_on(plan, before, old(self).history(), final(self).history())
                    &&& final(receipt)@ == received(
                        before,
                        final(self).history(),
                        InPipe::Completion,
                    )
                    &&& forall|p: InPipe|
                        p != InPipe::Completion ==> #[trigger] received(
                            before,
                            final(self).history(),
                            p,
                        ) == received(before, old(self).history(), p)
                },
                Err(error) => stopped_at(
                    old(self).timings().diagnostic,
                    plan,
                    before,
                    final(self).history(),
                    error,
                    old(self).history().len() - before.len(),
                ),
            },
            extends(old(self).history(), final(self).history()),
    {
        let ghost now = self.history();
        let (raw_status, disposition) = self.status(
            stage,
            timeout,
            receipt,
            Ghost(plan),
            Ghost(before),
        )?;
        if disposition == CompletionDisposition::Accepted {
            return Ok(());
        }
        let ghost first = self.history().last();
        let diagnostic_timeout: u64 = self.timings.diagnostic;
        let options = TransferOptions {
            timeout: diagnostic_timeout,
            cancellation: self.cancellation,
        };
        let error = match read_bytes(self.transport, InPipe::AuxiliaryResult, 64, options) {
            Ok(raw) => OperationError::CompletionRejected {
                stage,
                raw_status,
                diagnostic: OperationDiagnostic::from_block(raw.as_slice()),
            },
            Err(source) => OperationError::DiagnosticTransport { stage, raw_status, source },
        };
        proof {
            let tail = seq![first, self.history().last()];
            assert(tail.skip(1) =~= seq![self.history().last()]);
            lemma_interrupted(diagnostic_timeout, plan, before, now, tail, error);
            assert(now + tail =~= self.history());
        }
        Err(error)
    }

    /// Reads the response behind a completion byte that was not accepted.
    fn rejected_response(&mut self, length: usize, timeout: u64) -> (result: Result<
        Vec<u8>,
        T::Error,
    >)
        ensures
            *final(final(self).transport) == *final(old(self).transport),
            final(self).timings() == old(self).timings(),
            result matches Ok(bytes) ==> bytes@.len() == length,
            final(self).history() == old(self).history().push(
                Transfer::Read {
                    pipe: InPipe::Response,
                    length: length as nat,
                    timeout,
                    result: match result {
                        Ok(bytes) => Ok(bytes@),
                        Err(source) => Err(source),
                    },
                },
            ),
    {
        let options = TransferOptions { timeout, cancellation: self.cancellation };
        read_bytes(self.transport, InPipe::Response, length, options)
    }

    /// Runs the socket and adapter check. A completion byte that is not accepted
    /// owns a response of its own instead of the diagnostic pipe.
    ///
    /// # Errors
    ///
    /// Fails on transport errors or on a completion byte that is not accepted.
    pub fn adapter_check(&mut self) -> (result: Result<
        AdapterCheckResult,
        OperationError<T::Error>,
    >)
        ensures
            *final(final(self).transport) == *final(old(self).transport),
            final(self).timings() == old(self).timings(),
            adapter_check_outcome(
                old(self).timings(),
                old(self).history(),
                final(self).history(),
                result,
            ),
    {
        let ghost before = self.history();
        let ghost plan = adapter_check_plan();
        let mut receipt = OperationReceipt::empty();
        proof {
            lemma_on_course_start(static_judge(), plan, before);
            lemma_nothing_received(before, InPipe::Completion);
        }
        self.command(
            &CommandBlock::adapter_check(),
            OperationStage::AdapterCheck,
            Ghost(plan),
            Ghost(before),
        )?;
        let ghost now = self.history();
        let (raw_status, disposition) = self.status(
            OperationStage::AdapterCheck,
            ADAPTER_CHECK_COMPLETION_TIMEOUT,
            &mut receipt,
            Ghost(plan),
            Ghost(before),
        )?;
        if disposition == CompletionDisposition::Accepted {
            return Ok(AdapterCheckResult { receipt });
        }
        let ghost first = self.history().last();
        let error = match self.rejected_response(
            ADAPTER_CHECK_RESPONSE_BYTES,
            ADAPTER_CHECK_RESPONSE_TIMEOUT,
        ) {
            Ok(bytes) => OperationError::AdapterCheckRejected {
                raw_status,
                response: to_array(bytes.as_slice()),
            },
            Err(source) => OperationError::Transport {
                stage: OperationStage::AdapterCheckResponse,
                source,
            },
        };
        proof {
            let tail = seq![first, self.history().last()];
            assert(tail.skip(1) =~= seq![self.history().last()]);
            lemma_interrupted(self.timings().diagnostic, plan, before, now, tail, error);
            assert(now + tail =~= self.history());
        }
        Err(error)
    }

    /// Runs the target probe of a normal operation, the last common step before
    /// read, write, erase, blank check, or configuration commands. A completion
    /// byte that is not accepted owns a 64-byte response.
    ///
    /// # Errors
    ///
    /// Fails on transport errors or on a completion byte that is not accepted.
    pub fn target_probe(&mut self) -> (result: Result<TargetProbeResult, OperationError<T::Error>>)
        ensures
            *final(final(self).transport) == *final(old(self).transport),
            final(self).timings() == old(self).timings(),
            target_probe_outcome(
                old(self).timings(),
                old(self).history(),
                final(self).history(),
                result,
            ),
    {
        let ghost before = self.history();
        let ghost plan = target_probe_plan();
        let mut receipt = OperationReceipt::empty();
        proof {
            lemma_on_course_start(static_judge(), plan, before);
            lemma_nothing_received(before, InPipe::Completion);
        }
        self.command(
            &CommandBlock::target_probe(),
            OperationStage::TargetProbe,
            Ghost(plan),
            Ghost(before),
        )?;
        let ghost now = self.history();
        let (raw_status, disposition) = self.status(
            OperationStage::TargetProbe,
            TARGET_PROBE_COMPLETION_TIMEOUT,
            &mut receipt,
            Ghost(plan),
            Ghost(before),
        )?;
        if disposition == CompletionDisposition::Accepted {
            return Ok(TargetProbeResult { receipt });
        }
        let ghost first = self.history().last();
        let error = match self.rejected_response(COMMAND_BYTES, TARGET_PROBE_RESPONSE_TIMEOUT) {
            Ok(bytes) => OperationError::TargetProbeRejected {
                raw_status,
                response: to_array(bytes.as_slice()),
            },
            Err(source) => OperationError::Transport {
                stage: OperationStage::TargetProbeResponse,
                source,
            },
        };
        proof {
            let tail = seq![first, self.history().last()];
            assert(tail.skip(1) =~= seq![self.history().last()]);
            lemma_interrupted(self.timings().diagnostic, plan, before, now, tail, error);
            assert(now + tail =~= self.history());
        }
        Err(error)
    }

    /// Checks a region for blank cells, in pieces.
    ///
    /// # Errors
    ///
    /// Fails on invalid lengths, transport errors, or rejected completion.
    #[verifier::rlimit(40)]
    pub fn blank_check(&mut self, region: u32, region_length: usize, chunk_bytes: usize) -> (result:
        Result<OperationReceipt, OperationError<T::Error>>)
        ensures
            *final(final(self).transport) == *final(old(self).transport),
            final(self).timings() == old(self).timings(),
            blank_check_outcome(
                region,
                region_length,
                chunk_bytes,
                old(self).timings(),
                old(self).history(),
                final(self).history(),
                result,
            ),
    {
        if region_length == 0 {
            return Err(OperationError::Input(OperationInputError::ZeroLength));
        }
        if region_length > 0xffff_ffff {
            return Err(
                OperationError::Input(OperationInputError::LengthOverflow { actual: region_length }),
            );
        }
        if chunk_bytes < 0x800 || chunk_bytes > 0x1_0000 {
            return Err(OperationError::InvalidBlankChunk { actual: chunk_bytes });
        }
        let ghost length = region_length as nat;
        let ghost chunk = chunk_bytes as nat;
        let ghost before = self.history();
        let ghost timings = self.timings();
        let ghost plan = blank_check_plan(region, length, chunk);
        let ghost count = chunk_count(length, chunk);
        let mut receipt = OperationReceipt::empty();
        proof {
            lemma_on_course_start(static_judge(), plan, before);
            lemma_nothing_received(before, InPipe::Completion);
            lemma_chunk_count(length, chunk, 0);
        }
        self.command(
            &CommandBlock::blank_check_initialize(region, region_length as u32),
            OperationStage::BlankInitialize,
            Ghost(plan),
            Ghost(before),
        )?;
        self.completion(
            OperationStage::BlankInitialize,
            BLANK_INITIALIZE_TIMEOUT,
            &mut receipt,
            Ghost(plan),
            Ghost(before),
        )?;
        let mut offset: usize = 0;
        let ghost mut index: int = 0;
        while offset < region_length
            invariant
                *final(self.transport) == *final(old(self).transport),
                0 < region_length <= u32::MAX,
                0x800 <= chunk_bytes <= 0x1_0000,
                length == region_length,
                chunk == chunk_bytes,
                before == old(self).history(),
                timings == old(self).timings(),
                plan == blank_check_plan(region, length, chunk),
                count == chunk_count(length, chunk),
                self.timings() == timings,
                0 <= index <= count,
                offset == if index * chunk < length {
                    index * chunk
                } else {
                    length as int
                },
                index < count <==> index * chunk < length,
                on_course(static_judge(), plan, before, self.history()),
                self.history().len() == before.len() + 2 + 2 * index,
                receipt@ == received(before, self.history(), InPipe::Completion),
            decreases region_length - offset,
        {
            let piece: usize = if region_length - offset < chunk_bytes {
                region_length - offset
            } else {
                chunk_bytes
            };
            let stage = OperationStage::BlankChunk { offset };
            proof {
                lemma_blank_check_steps(region, length, chunk, index);
            }
            self.command(
                &CommandBlock::blank_check_chunk(region, offset as u32, piece as u32),
                stage,
                Ghost(plan),
                Ghost(before),
            )?;
            self.completion(stage, BLANK_CHUNK_TIMEOUT, &mut receipt, Ghost(plan), Ghost(before))?;
            offset += piece;
            proof {
                lemma_chunk_count(length, chunk, index);
                lemma_chunk_count(length, chunk, index + 1);
                index = index + 1;
            }
        }
        assert(index == count);
        self.command(
            &CommandBlock::blank_check_finish(region),
            OperationStage::BlankFinish,
            Ghost(plan),
            Ghost(before),
        )?;
        self.completion(
            OperationStage::BlankFinish,
            BLANK_FINISH_TIMEOUT,
            &mut receipt,
            Ghost(plan),
            Ghost(before),
        )?;
        Ok(receipt)
    }

    /// Programs a region from its beginning without automatic retries.
    ///
    /// # Errors
    ///
    /// Fails on invalid lengths, transport errors, or rejected completion.
    pub fn program(&mut self, region: u32, data: &[u8], minimum_primary_chunk: u16) -> (result:
        Result<OperationReceipt, OperationError<T::Error>>)
        ensures
            *final(final(self).transport) == *final(old(self).transport),
            final(self).timings() == old(self).timings(),
            program_outcome(
                region,
                0,
                data@,
                minimum_primary_chunk,
                old(self).timings(),
                old(self).history(),
                final(self).history(),
                result,
            ),
    {
        self.program_range(region, 0, data, minimum_primary_chunk)
    }

    /// Programs an absolute range. Each piece has its own command, payload and
    /// completion.
    ///
    /// # Errors
    ///
    /// Fails on invalid address or length fields, transport errors, or rejected
    /// completion.
    #[verifier::rlimit(40)]
    pub fn program_range(
        &mut self,
        region: u32,
        start: usize,
        data: &[u8],
        minimum_primary_chunk: u16,
    ) -> (result: Result<OperationReceipt, OperationError<T::Error>>)
        ensures
            *final(final(self).transport) == *final(old(self).transport),
            final(self).timings() == old(self).timings(),
            program_outcome(
                region,
                start,
                data@,
                minimum_primary_chunk,
                old(self).timings(),
                old(self).history(),
                final(self).history(),
                result,
            ),
    {
        if let Some(error) = check_range(start, data.len()) {
            return Err(OperationError::Input(error));
        }
        let chunk_bytes: usize = match transfer_chunk_size(
            region,
            data.len(),
            minimum_primary_chunk,
        ) {
            Ok(size) => size,
            Err(error) => { return Err(OperationError::Input(error)) },
        };
        let ghost chunk = chunk_bytes as nat;
        let ghost before = self.history();
        let ghost timings = self.timings();
        let ghost plan = program_plan(region, start as nat, data@, chunk);
        let ghost count = chunk_count(data@.len(), chunk);
        let mut receipt = OperationReceipt::empty();
        proof {
            lemma_on_course_start(static_judge(), plan, before);
            lemma_nothing_received(before, InPipe::Completion);
            lemma_chunk_count(data@.len(), chunk, 0);
        }
        self.command(
            &CommandBlock::program_initialize(region, start as u32, data.len() as u32),
            OperationStage::ProgramInitialize,
            Ghost(plan),
            Ghost(before),
        )?;
        self.completion(
            OperationStage::ProgramInitialize,
            PROGRAM_INITIALIZE_TIMEOUT,
            &mut receipt,
            Ghost(plan),
            Ghost(before),
        )?;
        let mut offset: usize = 0;
        let ghost mut index: int = 0;
        while offset < data.len()
            invariant
                *final(self.transport) == *final(old(self).transport),
                range_error(start, data@.len() as usize) is None,
                0 < data@.len() <= u32::MAX,
                start + data@.len() <= u32::MAX,
                chunk_bytes == chunk_size(region, data@.len() as int, minimum_primary_chunk),
                chunk_bytes > 0,
                chunk == chunk_bytes,
                before == old(self).history(),
                timings == old(self).timings(),
                plan == program_plan(region, start as nat, data@, chunk),
                count == chunk_count(data@.len(), chunk),
                self.timings() == timings,
                0 <= index <= count,
                offset == if index * chunk < data@.len() {
                    index * chunk
                } else {
                    data@.len() as int
                },
                index < count <==> index * chunk < data@.len(),
                on_course(static_judge(), plan, before, self.history()),
                self.history().len() == before.len() + 2 + 3 * index,
                receipt@ == received(before, self.history(), InPipe::Completion),
            decreases data@.len() - offset,
        {
            let piece: usize = if data.len() - offset < chunk_bytes {
                data.len() - offset
            } else {
                chunk_bytes
            };
            let absolute: usize = start + offset;
            let stage = OperationStage::ProgramChunk { offset: absolute };
            let bytes: &[u8] = slice_subrange(data, offset, offset + piece);
            proof {
                lemma_program_steps(region, start as nat, data@, chunk, index);
            }
            self.command(
                &CommandBlock::program_chunk(region, absolute as u32, piece as u32),
                stage,
                Ghost(plan),
                Ghost(before),
            )?;
            self.send(
                OutPipe::Payload,
                bytes,
                PROGRAM_PAYLOAD_TIMEOUT,
                stage,
                Ghost(plan),
                Ghost(before),
            )?;
            self.completion(
                stage,
                PROGRAM_CHUNK_COMPLETION_TIMEOUT,
                &mut receipt,
                Ghost(plan),
                Ghost(before),
            )?;
            offset += piece;
            proof {
                lemma_chunk_count(data@.len(), chunk, index);
                lemma_chunk_count(data@.len(), chunk, index + 1);
                index = index + 1;
            }
        }
        assert(index == count);
        self.command(
            &CommandBlock::program_finish(region),
            OperationStage::ProgramFinish,
            Ghost(plan),
            Ghost(before),
        )?;
        self.completion(
            OperationStage::ProgramFinish,
            PROGRAM_FINISH_TIMEOUT,
            &mut receipt,
            Ghost(plan),
            Ghost(before),
        )?;
        Ok(receipt)
    }

    /// Reads one region from its beginning.
    ///
    /// # Errors
    ///
    /// Fails on invalid lengths, transport errors, or rejected completion.
    pub fn read(&mut self, region: u32, length: usize, minimum_primary_chunk: u16) -> (result:
        Result<ReadResult, OperationError<T::Error>>)
        ensures
            *final(final(self).transport) == *final(old(self).transport),
            final(self).timings() == old(self).timings(),
            read_outcome(
                region,
                length,
                minimum_primary_chunk,
                old(self).timings(),
                old(self).history(),
                final(self).history(),
                result,
            ),
    {
        let (data, receipt) = self.read_range(
            region,
            0,
            length,
            minimum_primary_chunk,
            READ_DATA_TIMEOUT,
        )?;
        Ok(ReadResult { data, receipt })
    }

    /// Reads and compares one region from its beginning, without leaving unread
    /// data behind after the first mismatch.
    ///
    /// # Errors
    ///
    /// Returns [`OperationError::VerifyMismatch`] after the receive and finish
    /// stages complete, or fails immediately on transport or protocol errors.
    pub fn verify(&mut self, region: u32, expected: &[u8], minimum_primary_chunk: u16) -> (result:
        Result<OperationReceipt, OperationError<T::Error>>)
        ensures
            *final(final(self).transport) == *final(old(self).transport),
            final(self).timings() == old(self).timings(),
            verify_outcome(
                region,
                0,
                expected@,
                minimum_primary_chunk,
                old(self).timings(),
                old(self).history(),
                final(self).history(),
                result,
            ),
    {
        self.verify_range(region, 0, expected, minimum_primary_chunk)
    }

    /// Reads and compares an absolute range.
    ///
    /// # Errors
    ///
    /// Returns [`OperationError::VerifyMismatch`] after draining the read and
    /// finish stages, or any transport or protocol failure.
    pub fn verify_range(
        &mut self,
        region: u32,
        start: usize,
        expected: &[u8],
        minimum_primary_chunk: u16,
    ) -> (result: Result<OperationReceipt, OperationError<T::Error>>)
        ensures
            *final(final(self).transport) == *final(old(self).transport),
            final(self).timings() == old(self).timings(),
            verify_outcome(
                region,
                start,
                expected@,
                minimum_primary_chunk,
                old(self).timings(),
                old(self).history(),
                final(self).history(),
                result,
            ),
    {
        let (data, receipt) = self.read_range(
            region,
            start,
            expected.len(),
            minimum_primary_chunk,
            VERIFY_DATA_TIMEOUT,
        )?;
        match find_difference(start, expected, data.as_slice()) {
            Some(mismatch) => Err(OperationError::VerifyMismatch(mismatch)),
            None => Ok(receipt),
        }
    }

    #[verifier::rlimit(40)]
    fn read_range(
        &mut self,
        region: u32,
        start: usize,
        length: usize,
        minimum_primary_chunk: u16,
        data_timeout: u64,
    ) -> (result: Result<(Vec<u8>, OperationReceipt), OperationError<T::Error>>)
        ensures
            *final(final(self).transport) == *final(old(self).transport),
            final(self).timings() == old(self).timings(),
            ({
                let before = old(self).history();
                let after = final(self).history();
                let plan = read_plan(
                    region,
                    start as nat,
                    length as nat,
                    chunk_size(region, length as int, minimum_primary_chunk) as nat,
                    data_timeout,
                );
                match result {
                    Ok((data, receipt)) => {
                        &&& range_error(start, length) is None
                        &&& carried_out(static_judge(), plan, before, after)
                        &&& data@ == received(before, after, InPipe::Response)
                        &&& data@.len() == length
                        &&& receipt@ == received(before, after, InPipe::Completion)
                    },
                    Err(error) => match range_error(start, length) {
                        Some(reason) => after == before && error == OperationError::<
                            T::Error,
                        >::Input(reason),
                        None => interrupted(
                            old(self).timings().diagnostic,
                            plan,
                            before,
                            after,
                            error,
                        ),
                    },
                }
            }),
    {
        if let Some(error) = check_range(start, length) {
            return Err(OperationError::Input(error));
        }
        let chunk_bytes: usize = match transfer_chunk_size(region, length, minimum_primary_chunk) {
            Ok(size) => size,
            Err(error) => { return Err(OperationError::Input(error)) },
        };
        let ghost chunk = chunk_bytes as nat;
        let ghost before = self.history();
        let ghost timings = self.timings();
        let ghost plan = read_plan(region, start as nat, length as nat, chunk, data_timeout);
        let ghost count = chunk_count(length as nat, chunk);
        let mut receipt = OperationReceipt::empty();
        proof {
            lemma_on_course_start(static_judge(), plan, before);
            lemma_nothing_received(before, InPipe::Completion);
            lemma_nothing_received(before, InPipe::Response);
            lemma_chunk_count(length as nat, chunk, 0);
        }
        self.command(
            &CommandBlock::read_initialize(region, start as u32, length as u32),
            OperationStage::ReadInitialize,
            Ghost(plan),
            Ghost(before),
        )?;
        self.completion(
            OperationStage::ReadInitialize,
            READ_INITIALIZE_TIMEOUT,
            &mut receipt,
            Ghost(plan),
            Ghost(before),
        )?;
        self.command(
            &CommandBlock::read_data(region, start as u32, length as u32),
            OperationStage::ReadDataCommand,
            Ghost(plan),
            Ghost(before),
        )?;
        let mut data: Vec<u8> = Vec::new();
        let mut offset: usize = 0;
        let ghost mut index: int = 0;
        assert(data@ =~= received(before, self.history(), InPipe::Response));
        while offset < length
            invariant
                *final(self.transport) == *final(old(self).transport),
                range_error(start, length) is None,
                0 < length <= u32::MAX,
                chunk_bytes == chunk_size(region, length as int, minimum_primary_chunk),
                chunk_bytes > 0,
                chunk == chunk_bytes,
                before == old(self).history(),
                timings == old(self).timings(),
                plan == read_plan(region, start as nat, length as nat, chunk, data_timeout),
                count == chunk_count(length as nat, chunk),
                self.timings() == timings,
                0 <= index <= count,
                offset == if index * chunk < length {
                    index * chunk
                } else {
                    length as int
                },
                index < count <==> index * chunk < length,
                on_course(static_judge(), plan, before, self.history()),
                self.history().len() == before.len() + 3 + index,
                data@ == received(before, self.history(), InPipe::Response),
                data@.len() == offset,
                receipt@ == received(before, self.history(), InPipe::Completion),
            decreases length - offset,
        {
            let piece: usize = if length - offset < chunk_bytes {
                length - offset
            } else {
                chunk_bytes
            };
            let stage = OperationStage::ReadData { offset };
            proof {
                assert(plan[3 + index] == (Step::Receive {
                    pipe: InPipe::Response,
                    length: piece as nat,
                    timeout: data_timeout,
                    stage,
                }));
            }
            let ghost previous = self.history();
            let bytes: Vec<u8> = self.receive(
                InPipe::Response,
                piece,
                data_timeout,
                stage,
                Ghost(plan),
                Ghost(before),
            )?;
            extend(&mut data, bytes.as_slice());
            offset += piece;
            proof {
                assert(received(before, self.history(), InPipe::Completion) =~= received(
                    before,
                    previous,
                    InPipe::Completion,
                ));
                lemma_chunk_count(length as nat, chunk, index);
                lemma_chunk_count(length as nat, chunk, index + 1);
                index = index + 1;
            }
        }
        assert(index == count);
        self.command(
            &CommandBlock::read_finish(region),
            OperationStage::ReadFinish,
            Ghost(plan),
            Ghost(before),
        )?;
        self.completion(
            OperationStage::ReadFinish,
            READ_FINISH_TIMEOUT,
            &mut receipt,
            Ghost(plan),
            Ghost(before),
        )?;
        Ok((data, receipt))
    }

    /// Sends a configuration with its mask. A completion byte that is not
    /// accepted ends the operation without a further read.
    ///
    /// # Errors
    ///
    /// Fails on transport errors or rejected completion.
    pub fn write_configuration(
        &mut self,
        data: &[u8; CONFIGURATION_READ_BYTES],
        mask: &[u8; CONFIGURATION_READ_BYTES],
    ) -> (result: Result<OperationReceipt, OperationError<T::Error>>)
        ensures
            *final(final(self).transport) == *final(old(self).transport),
            final(self).timings() == old(self).timings(),
            write_configuration_outcome(
                data@,
                mask@,
                old(self).timings(),
                old(self).history(),
                final(self).history(),
                result,
            ),
    {
        let ghost before = self.history();
        let ghost plan = write_configuration_plan(data@, mask@, self.timings().completion);
        let mut receipt = OperationReceipt::empty();
        proof {
            lemma_on_course_start(static_judge(), plan, before);
            lemma_nothing_received(before, InPipe::Completion);
        }
        self.command(
            &CommandBlock::write_configuration(),
            OperationStage::ConfigurationWrite,
            Ghost(plan),
            Ghost(before),
        )?;
        let payload = ConfigurationWritePayload::new(data, mask);
        let bytes: &[u8] = payload.as_bytes();
        self.send(
            OutPipe::Payload,
            bytes,
            PAYLOAD_TIMEOUT,
            OperationStage::ConfigurationWrite,
            Ghost(plan),
            Ghost(before),
        )?;
        let ghost now = self.history();
        let timeout: u64 = self.timings.completion;
        let (raw_status, disposition) = self.status(
            OperationStage::ConfigurationWrite,
            timeout,
            &mut receipt,
            Ghost(plan),
            Ghost(before),
        )?;
        if disposition == CompletionDisposition::AuxiliaryResult {
            let error = OperationError::ConfigurationWriteRejected { raw_status };
            proof {
                let tail = seq![self.history().last()];
                assert(tail.skip(1).len() == 0);
                lemma_interrupted(self.timings().diagnostic, plan, before, now, tail, error);
                assert(now + tail =~= self.history());
            }
            return Err(error);
        }
        Ok(receipt)
    }

    /// Asks for the configuration, waits for completion, then reads 64 bytes.
    ///
    /// # Errors
    ///
    /// Fails on transport errors or rejected completion.
    pub fn read_configuration(&mut self) -> (result: Result<
        ConfigurationReadResult,
        OperationError<T::Error>,
    >)
        ensures
            *final(final(self).transport) == *final(old(self).transport),
            final(self).timings() == old(self).timings(),
            read_configuration_outcome(
                old(self).timings(),
                old(self).history(),
                final(self).history(),
                result,
            ),
    {
        let ghost before = self.history();
        let ghost plan = read_configuration_plan(self.timings().completion);
        let mut receipt = OperationReceipt::empty();
        proof {
            lemma_on_course_start(static_judge(), plan, before);
            lemma_nothing_received(before, InPipe::Completion);
            lemma_nothing_received(before, InPipe::Response);
        }
        self.command(
            &CommandBlock::read_configuration(),
            OperationStage::ConfigurationRead,
            Ghost(plan),
            Ghost(before),
        )?;
        let timeout: u64 = self.timings.completion;
        self.completion(
            OperationStage::ConfigurationRead,
            timeout,
            &mut receipt,
            Ghost(plan),
            Ghost(before),
        )?;
        let ghost previous = self.history();
        let bytes: Vec<u8> = self.receive(
            InPipe::Response,
            CONFIGURATION_READ_BYTES,
            READ_DATA_TIMEOUT,
            OperationStage::ConfigurationRead,
            Ghost(plan),
            Ghost(before),
        )?;
        proof {
            assert(received(before, self.history(), InPipe::Response) =~= bytes@);
            assert(received(before, self.history(), InPipe::Completion) =~= received(
                before,
                previous,
                InPipe::Completion,
            ));
        }
        Ok(ConfigurationReadResult { data: to_array(bytes.as_slice()), receipt })
    }

    /// Reads the configuration and compares it in the bits that the mask selects.
    ///
    /// # Errors
    ///
    /// Returns a configuration mismatch or any read-operation failure.
    pub fn verify_configuration(
        &mut self,
        expected: &[u8; CONFIGURATION_READ_BYTES],
        mask: &[u8; CONFIGURATION_READ_BYTES],
    ) -> (result: Result<OperationReceipt, OperationError<T::Error>>)
        ensures
            *final(final(self).transport) == *final(old(self).transport),
            final(self).timings() == old(self).timings(),
            verify_configuration_outcome(
                expected@,
                mask@,
                old(self).timings(),
                old(self).history(),
                final(self).history(),
                result,
            ),
    {
        let result = self.read_configuration()?;
        match configuration_mismatch(expected, &result.data, mask) {
            Some(mismatch) => Err(OperationError::ConfigurationMismatch(mismatch)),
            None => Ok(result.receipt),
        }
    }

    /// Sends the erase command. No failed stage is replayed. Behind a completion
    /// byte that is not accepted the erase result is read and interpreted.
    ///
    /// # Errors
    ///
    /// Fails on transport errors.
    #[verifier::rlimit(50)]
    pub fn erase(&mut self, request: EraseRequest) -> (result: Result<
        EraseResult,
        OperationError<T::Error>,
    >)
        ensures
            *final(final(self).transport) == *final(old(self).transport),
            final(self).timings() == old(self).timings(),
            erase_result(
                request,
                old(self).timings(),
                old(self).history(),
                final(self).history(),
                result,
            ),
    {
        let ghost before = self.history();
        let ghost diagnostic_timeout = self.timings().diagnostic;
        let ghost plan = erase_plan(request, false);
        let ghost short = erase_plan(request, true);
        let mut receipt = OperationReceipt::empty();
        proof {
            lemma_on_course_start(static_judge(), plan, before);
            lemma_nothing_received(before, InPipe::Completion);
            lemma_nothing_received(before, InPipe::Response);
        }
        self.command(
            &CommandBlock::erase(request.path_selector, request.mode),
            OperationStage::Erase,
            Ghost(plan),
            Ghost(before),
        )?;
        let ghost previous = self.history();
        let bytes: Vec<u8> = self.receive(
            InPipe::Completion,
            1,
            ERASE_COMPLETION_TIMEOUT,
            OperationStage::Erase,
            Ghost(plan),
            Ghost(before),
        )?;
        let status: u8 = bytes[0];
        receipt.statuses.push(status);
        let ghost answered = self.history();
        proof {
            assert(bytes@ =~= seq![status]);
            assert(receipt@ =~= received(before, answered, InPipe::Completion));
            assert(received(before, answered, InPipe::Response) =~= Seq::<u8>::empty());
        }
        if classify_completion_status(status) == CompletionDisposition::Accepted {
            proof {
                assert(short =~= plan.take(2));
                assert forall|i: int| 0 <= i < 2 implies #[trigger] short[i] == plan[i] by {}
                assert forall|i: int|
                    0 <= i < answered.len() - before.len() implies passes(
                    static_judge(),
                    #[trigger] short[i],
                    answered[before.len() + i],
                ) by {
                    assert(short[i] == plan[i]);
                }
            }
            return Ok(
                EraseResult { raw_result: None, outcome: EraseOutcome::Completed, receipt },
            );
        }
        let bytes: Vec<u8> = match self.receive(
            InPipe::Response,
            COMMAND_BYTES,
            ERASE_RESULT_TIMEOUT,
            OperationStage::EraseResult,
            Ghost(plan),
            Ghost(before),
        ) {
            Ok(bytes) => bytes,
            Err(error) => {
                proof {
                    let after = self.history();
                    assert(after =~= answered.push(after.last()));
                    lemma_received_push(before, answered, after.last(), InPipe::Completion);
                    assert(received(before, after, InPipe::Completion) =~= receipt@);
                }
                return Err(error);
            },
        };
        proof {
            assert(received(before, self.history(), InPipe::Response) =~= bytes@);
            assert(received(before, self.history(), InPipe::Completion) =~= receipt@);
        }
        let raw: [u8; COMMAND_BYTES] = to_array(bytes.as_slice());
        let outcome: EraseOutcome = match raw[0] {
            0x0a => EraseOutcome::ResultCode0A,
            0x12 => EraseOutcome::ResultCode12,
            code => EraseOutcome::UnexpectedResult { code },
        };
        Ok(EraseResult { raw_result: Some(raw), outcome, receipt })
    }

    /// Starts a progress stream, collects 16-byte events through the one that
    /// ends it, then consumes the final completion byte.
    ///
    /// # Errors
    ///
    /// Fails on transport errors, rejected completion, or when `max_records`
    /// events have come and none of them ends the stream.
    #[verifier::rlimit(50)]
    pub fn progress_events(&mut self, max_records: usize) -> (result: Result<
        ProgressResult,
        OperationError<T::Error>,
    >)
        ensures
            *final(final(self).transport) == *final(old(self).transport),
            final(self).timings() == old(self).timings(),
            progress_outcome(
                max_records,
                old(self).timings(),
                old(self).history(),
                final(self).history(),
                result,
            ),
    {
        let ghost before = self.history();
        let ghost timings = self.timings();
        let ghost limit = max_records as nat;
        let ghost plan = progress_plan(limit, timings.completion);
        proof {
            lemma_on_course_start(static_judge(), plan, before);
            lemma_nothing_received(before, InPipe::Completion);
        }
        match self.command(
            &CommandBlock::progress_events(),
            OperationStage::ProgressStart,
            Ghost(plan),
            Ghost(before),
        ) {
            Ok(()) => {},
            Err(error) => {
                assert(progress_stopped(timings, before, self.history(), error, limit, 0));
                return Err(error);
            },
        }
        let mut events: Vec<ProgressEvent> = Vec::new();
        while events.len() < max_records
            invariant
                *final(self.transport) == *final(old(self).transport),
                before == old(self).history(),
                timings == old(self).timings(),
                limit == max_records,
                plan == progress_plan(limit, timings.completion),
                self.timings() == timings,
                events@.len() <= max_records,
                on_course(static_judge(), plan, before, self.history()),
                self.history().len() == before.len() + 1 + events@.len(),
                stream_goes_on(before, self.history(), events@.len() as int),
                received(before, self.history(), InPipe::Completion) == Seq::<u8>::empty(),
                forall|i: int|
                    0 <= i < events@.len() ==> event_of(
                        #[trigger] events@[i],
                        record_at(before, self.history(), i),
                    ),
            decreases max_records - events@.len(),
        {
            let ghost previous = self.history();
            let ghost count = events@.len();
            let bytes: Vec<u8> = match self.receive(
                InPipe::Specialized,
                16,
                EVENT_RECORD_TIMEOUT,
                OperationStage::ProgressEvent,
                Ghost(plan),
                Ghost(before),
            ) {
                Ok(bytes) => bytes,
                Err(error) => {
                    proof {
                        lemma_records_kept(before, previous, self.history(), count as int);
                        assert(progress_stopped(
                            timings,
                            before,
                            self.history(),
                            error,
                            limit,
                            count as int + 1,
                        ));
                    }
                    return Err(error);
                },
            };
            let event: ProgressEvent = progress_event(bytes.as_slice());
            let finished: bool = event.finished;
            events.push(event);
            proof {
                lemma_records_kept(before, previous, self.history(), count as int);
                assert(record_at(before, self.history(), count as int) == bytes@);
                assert(received(before, self.history(), InPipe::Completion) =~= Seq::<u8>::empty());
            }
            if finished {
                let ghost records = (count + 1) as nat;
                let ghost ending = progress_plan(records, timings.completion);
                let ghost now = self.history();
                proof {
                    assert forall|i: int|
                        0 <= i < now.len() - before.len() implies passes(
                        static_judge(),
                        #[trigger] ending[i],
                        now[before.len() + i],
                    ) by {
                        assert(ending[i] == plan[i]);
                    }
                }
                let mut receipt = OperationReceipt::empty();
                let timeout: u64 = self.timings.completion;
                match self.completion(
                    OperationStage::ProgressFinish,
                    timeout,
                    &mut receipt,
                    Ghost(ending),
                    Ghost(before),
                ) {
                    Ok(()) => {
                        proof {
                            lemma_records_kept(before, now, self.history(), records as int);
                        }
                        return Ok(ProgressResult { events, receipt });
                    },
                    Err(error) => {
                        proof {
                            lemma_records_kept(before, now, self.history(), records as int);
                            assert(progress_stopped(
                                timings,
                                before,
                                self.history(),
                                error,
                                records,
                                records as int + 1,
                            ));
                        }
                        return Err(error);
                    },
                }
            }
        }
        Err(OperationError::ProgressLimit { max_records })
    }
}

/// An operation followed the plan of a stream of `records` records and stopped
/// after `k` steps. No record but the last ended the stream.
pub open spec fn progress_stopped<E>(
    timings: OperationTimings,
    before: Seq<Transfer<E>>,
    after: Seq<Transfer<E>>,
    error: OperationError<E>,
    records: nat,
    k: int,
) -> bool {
    &&& 0 <= k <= records + 1
    &&& stopped_at(
        timings.diagnostic,
        progress_plan(records, timings.completion),
        before,
        after,
        error,
        k,
    )
    &&& stream_goes_on(
        before,
        after,
        if k <= records {
            k - 1
        } else {
            records - 1
        },
    )
    &&& k == records + 1 ==> records > 0 && is_last_record(record_at(before, after, records - 1))
}

/// What a progress stream does and returns.
pub open spec fn progress_outcome<E>(
    max_records: usize,
    timings: OperationTimings,
    before: Seq<Transfer<E>>,
    after: Seq<Transfer<E>>,
    result: Result<ProgressResult, OperationError<E>>,
) -> bool {
    match result {
        Ok(progress) => {
            let records = progress.events@.len();
            &&& 1 <= records <= max_records
            &&& carried_out(
                static_judge(),
                progress_plan(records, timings.completion),
                before,
                after,
            )
            &&& stream_goes_on(before, after, records - 1)
            &&& is_last_record(record_at(before, after, records - 1))
            &&& forall|i: int|
                0 <= i < records ==> event_of(
                    #[trigger] progress.events@[i],
                    record_at(before, after, i),
                )
            &&& progress.receipt@ == received(before, after, InPipe::Completion)
        },
        Err(OperationError::ProgressLimit { max_records: limit }) => {
            &&& limit == max_records
            &&& on_course(
                static_judge(),
                progress_plan(max_records as nat, timings.completion),
                before,
                after,
            )
            &&& after.len() == before.len() + 1 + max_records
            &&& stream_goes_on(before, after, max_records as int)
        },
        Err(error) => exists|records: nat, k: int|
            records <= max_records && #[trigger] progress_stopped(
                timings,
                before,
                after,
                error,
                records,
                k,
            ),
    }
}

/// Records stay what they were while a history goes on.
proof fn lemma_records_kept<E>(
    before: Seq<Transfer<E>>,
    previous: Seq<Transfer<E>>,
    now: Seq<Transfer<E>>,
    records: int,
)
    requires
        extends(previous, now),
        previous.len() >= before.len() + 1 + records,
    ensures
        forall|i: int|
            0 <= i < records ==> #[trigger] record_at(before, now, i) == record_at(
                before,
                previous,
                i,
            ),
{
    assert forall|i: int| 0 <= i < records implies #[trigger] record_at(before, now, i)
        == record_at(before, previous, i) by {
        assert(previous[before.len() + 1 + i] == now.take(previous.len() as int)[before.len() + 1
            + i]);
    }
}

/// The event that a record describes.
fn progress_event(record: &[u8]) -> (event: ProgressEvent)
    requires
        record@.len() == 16,
    ensures
        event_of(event, record@),
{
    ProgressEvent {
        stage_or_progress: record[2],
        finished: record[1] & 0x80 != 0,
        raw: to_array(record),
    }
}

/// What an erase does and returns.
pub open spec fn erase_result<E>(
    request: EraseRequest,
    timings: OperationTimings,
    before: Seq<Transfer<E>>,
    after: Seq<Transfer<E>>,
    result: Result<EraseResult, OperationError<E>>,
) -> bool {
    match result {
        Ok(erased) => {
            let status = received(before, after, InPipe::Completion);
            let response = received(before, after, InPipe::Response);
            &&& status.len() == 1
            &&& carried_out(
                static_judge(),
                erase_plan(request, completion_accepted(status[0])),
                before,
                after,
            )
            &&& erased.receipt@ == status
            &&& if completion_accepted(status[0]) {
                erased.raw_result is None && erased.outcome == EraseOutcome::Completed
            } else {
                &&& erased.raw_result matches Some(raw)
                &&& raw@ == response
                &&& erased.outcome == erase_outcome(response)
            }
        },
        Err(error) => interrupted(
            timings.diagnostic,
            erase_plan(request, false),
            before,
            after,
            error,
        ) && (after.len() == before.len() + 3 ==> {
            let status = received(before, after, InPipe::Completion);
            status.len() == 1 && !completion_accepted(status[0])
        }),
    }
}

/// The steps of one piece of a blank check.
proof fn lemma_blank_check_steps(region: u32, length: nat, chunk: nat, index: int)
    requires
        0 <= index < chunk_count(length, chunk),
    ensures
        ({
            let plan = blank_check_plan(region, length, chunk);
            let offset = index * chunk;
            let stage = OperationStage::BlankChunk { offset: offset as usize };
            &&& plan.len() == 4 + 2 * chunk_count(length, chunk)
            &&& plan[2 + 2 * index] == command_step(
                plain_frame(
                    KnownCommand::BlankCheckChunk,
                    region,
                    offset as u32,
                    piece_length(length, chunk, offset) as u32,
                ),
                stage,
            )
            &&& plan[3 + 2 * index] == (Step::Complete { timeout: BLANK_CHUNK_TIMEOUT, stage })
        }),
{
    assert((2 * index) / 2 == index && (2 * index) % 2 == 0);
    assert((2 * index + 1) / 2 == index && (2 * index + 1) % 2 == 1);
}

/// The steps of one piece of a programming run.
proof fn lemma_program_steps(region: u32, start: nat, data: Seq<u8>, chunk: nat, index: int)
    requires
        0 <= index < chunk_count(data.len(), chunk),
    ensures
        ({
            let plan = program_plan(region, start, data, chunk);
            let offset = index * chunk;
            let length = piece_length(data.len(), chunk, offset);
            let stage = OperationStage::ProgramChunk { offset: (start + offset) as usize };
            &&& plan.len() == 4 + 3 * chunk_count(data.len(), chunk)
            &&& plan[2 + 3 * index] == command_step(
                plain_frame(
                    KnownCommand::ProgramChunk,
                    region,
                    (start + offset) as u32,
                    length as u32,
                ),
                stage,
            )
            &&& plan[3 + 3 * index] == payload_step(
                data.subrange(offset, offset + length),
                PROGRAM_PAYLOAD_TIMEOUT,
                stage,
            )
            &&& plan[4 + 3 * index] == (Step::Complete {
                timeout: PROGRAM_CHUNK_COMPLETION_TIMEOUT,
                stage,
            })
        }),
{
    assert((3 * index) / 3 == index && (3 * index) % 3 == 0);
    assert((3 * index + 1) / 3 == index && (3 * index + 1) % 3 == 1);
    assert((3 * index + 2) / 3 == index && (3 * index + 2) % 3 == 2);
}

/// What a programming run does and returns.
pub open spec fn program_outcome<E>(
    region: u32,
    start: usize,
    data: Seq<u8>,
    minimum_primary_chunk: u16,
    timings: OperationTimings,
    before: Seq<Transfer<E>>,
    after: Seq<Transfer<E>>,
    result: Result<OperationReceipt, OperationError<E>>,
) -> bool {
    let plan = program_plan(
        region,
        start as nat,
        data,
        chunk_size(region, data.len() as int, minimum_primary_chunk) as nat,
    );
    let refused = range_error(start, data.len() as usize);
    match result {
        Ok(receipt) => {
            &&& refused is None
            &&& carried_out(static_judge(), plan, before, after)
            &&& receipt@ == received(before, after, InPipe::Completion)
        },
        Err(error) => match refused {
            Some(reason) => after == before && error == OperationError::<E>::Input(reason),
            None => interrupted(timings.diagnostic, plan, before, after, error),
        },
    }
}

/// What the adapter check does and returns.
pub open spec fn adapter_check_outcome<E>(
    timings: OperationTimings,
    before: Seq<Transfer<E>>,
    after: Seq<Transfer<E>>,
    result: Result<AdapterCheckResult, OperationError<E>>,
) -> bool {
    let plan = adapter_check_plan();
    match result {
        Ok(checked) => {
            &&& carried_out(static_judge(), plan, before, after)
            &&& checked.receipt@ == received(before, after, InPipe::Completion)
        },
        Err(error) => interrupted(timings.diagnostic, plan, before, after, error),
    }
}

/// What the target probe does and returns.
pub open spec fn target_probe_outcome<E>(
    timings: OperationTimings,
    before: Seq<Transfer<E>>,
    after: Seq<Transfer<E>>,
    result: Result<TargetProbeResult, OperationError<E>>,
) -> bool {
    let plan = target_probe_plan();
    match result {
        Ok(probed) => {
            &&& carried_out(static_judge(), plan, before, after)
            &&& probed.receipt@ == received(before, after, InPipe::Completion)
        },
        Err(error) => interrupted(timings.diagnostic, plan, before, after, error),
    }
}

/// What a blank check does and returns.
pub open spec fn blank_check_outcome<E>(
    region: u32,
    region_length: usize,
    chunk_bytes: usize,
    timings: OperationTimings,
    before: Seq<Transfer<E>>,
    after: Seq<Transfer<E>>,
    result: Result<OperationReceipt, OperationError<E>>,
) -> bool {
    let plan = blank_check_plan(region, region_length as nat, chunk_bytes as nat);
    match result {
        Ok(receipt) => {
            &&& 0 < region_length <= u32::MAX
            &&& 0x800 <= chunk_bytes <= 0x1_0000
            &&& carried_out(static_judge(), plan, before, after)
            &&& receipt@ == received(before, after, InPipe::Completion)
        },
        Err(error) => if region_length == 0 || region_length > u32::MAX {
            &&& after == before
            &&& error == OperationError::<E>::Input(
                if region_length == 0 {
                    OperationInputError::ZeroLength
                } else {
                    OperationInputError::LengthOverflow { actual: region_length }
                },
            )
        } else if chunk_bytes < 0x800 || chunk_bytes > 0x1_0000 {
            &&& after == before
            &&& error == (OperationError::<E>::InvalidBlankChunk { actual: chunk_bytes })
        } else {
            interrupted(timings.diagnostic, plan, before, after, error)
        },
    }
}

/// What a configuration write does and returns.
pub open spec fn write_configuration_outcome<E>(
    data: Seq<u8>,
    mask: Seq<u8>,
    timings: OperationTimings,
    before: Seq<Transfer<E>>,
    after: Seq<Transfer<E>>,
    result: Result<OperationReceipt, OperationError<E>>,
) -> bool {
    let plan = write_configuration_plan(data, mask, timings.completion);
    match result {
        Ok(receipt) => {
            &&& carried_out(static_judge(), plan, before, after)
            &&& receipt@ == received(before, after, InPipe::Completion)
        },
        Err(error) => interrupted(timings.diagnostic, plan, before, after, error),
    }
}

/// What a configuration read does and returns.
pub open spec fn read_configuration_outcome<E>(
    timings: OperationTimings,
    before: Seq<Transfer<E>>,
    after: Seq<Transfer<E>>,
    result: Result<ConfigurationReadResult, OperationError<E>>,
) -> bool {
    let plan = read_configuration_plan(timings.completion);
    match result {
        Ok(read) => {
            &&& carried_out(static_judge(), plan, before, after)
            &&& read.data@ == received(before, after, InPipe::Response)
            &&& read.receipt@ == received(before, after, InPipe::Completion)
        },
        Err(error) => interrupted(timings.diagnostic, plan, before, after, error),
    }
}

/// What a configuration verification does and returns. A mismatch is reported
/// only when the whole plan was carried out.
pub open spec fn verify_configuration_outcome<E>(
    expected: Seq<u8>,
    mask: Seq<u8>,
    timings: OperationTimings,
    before: Seq<Transfer<E>>,
    after: Seq<Transfer<E>>,
    result: Result<OperationReceipt, OperationError<E>>,
) -> bool {
    let plan = read_configuration_plan(timings.completion);
    let actual = received(before, after, InPipe::Response);
    match result {
        Ok(receipt) => {
            &&& carried_out(static_judge(), plan, before, after)
            &&& first_masked_difference(expected, actual, mask, None)
            &&& receipt@ == received(before, after, InPipe::Completion)
        },
        Err(OperationError::ConfigurationMismatch(mismatch)) => {
            &&& carried_out(static_judge(), plan, before, after)
            &&& first_masked_difference(expected, actual, mask, Some(mismatch))
        },
        Err(error) => interrupted(timings.diagnostic, plan, before, after, error),
    }
}

/// What reading a region from its beginning does and returns.
pub open spec fn read_outcome<E>(
    region: u32,
    length: usize,
    minimum_primary_chunk: u16,
    timings: OperationTimings,
    before: Seq<Transfer<E>>,
    after: Seq<Transfer<E>>,
    result: Result<ReadResult, OperationError<E>>,
) -> bool {
    let plan = read_plan(
        region,
        0,
        length as nat,
        chunk_size(region, length as int, minimum_primary_chunk) as nat,
        READ_DATA_TIMEOUT,
    );
    let refused = range_error(0, length);
    match result {
        Ok(read) => {
            &&& refused is None
            &&& carried_out(static_judge(), plan, before, after)
            &&& read.data@ == received(before, after, InPipe::Response)
            &&& read.data@.len() == length
            &&& read.receipt@ == received(before, after, InPipe::Completion)
        },
        Err(error) => match refused {
            Some(reason) => after == before && error == OperationError::<E>::Input(reason),
            None => interrupted(timings.diagnostic, plan, before, after, error),
        },
    }
}

/// What a verification does and returns. A mismatch is reported only when the
/// whole plan was carried out.
pub open spec fn verify_outcome<E>(
    region: u32,
    start: usize,
    expected: Seq<u8>,
    minimum_primary_chunk: u16,
    timings: OperationTimings,
    before: Seq<Transfer<E>>,
    after: Seq<Transfer<E>>,
    result: Result<OperationReceipt, OperationError<E>>,
) -> bool {
    let plan = read_plan(
        region,
        start as nat,
        expected.len(),
        chunk_size(region, expected.len() as int, minimum_primary_chunk) as nat,
        VERIFY_DATA_TIMEOUT,
    );
    let refused = range_error(start, expected.len() as usize);
    let actual = received(before, after, InPipe::Response);
    match result {
        Ok(receipt) => {
            &&& refused is None
            &&& carried_out(static_judge(), plan, before, after)
            &&& actual == expected
            &&& receipt@ == received(before, after, InPipe::Completion)
        },
        Err(error) => match refused {
            Some(reason) => after == before && error == OperationError::<E>::Input(reason),
            None => match error {
                OperationError::VerifyMismatch(mismatch) => {
                    &&& carried_out(static_judge(), plan, before, after)
                    &&& first_difference(start as int, expected, actual, Some(mismatch))
                },
                _ => interrupted(timings.diagnostic, plan, before, after, error),
            },
        },
    }
}

/// Why a range cannot be transferred.
fn check_range(start: usize, length: usize) -> (error: Option<OperationInputError>)
    ensures
        error == range_error(start, length),
{
    if length == 0 {
        Some(OperationInputError::ZeroLength)
    } else if length > 0xffff_ffff {
        Some(OperationInputError::LengthOverflow { actual: length })
    } else if start > 0xffff_ffff {
        Some(OperationInputError::LengthOverflow { actual: start })
    } else if start > 0xffff_ffff - length {
        Some(OperationInputError::AddressOverflow { start, length })
    } else {
        None
    }
}

/// The first difference of two byte sequences of one length.
fn find_difference(start: usize, expected: &[u8], actual: &[u8]) -> (found: Option<VerifyMismatch>)
    requires
        expected@.len() == actual@.len(),
        start + expected@.len() <= usize::MAX,
    ensures
        first_difference(start as int, expected@, actual@, found),
{
    let mut i: usize = 0;
    while i < expected.len()
        invariant
            i <= expected@.len(),
            expected@.len() == actual@.len(),
            start + expected@.len() <= usize::MAX,
            forall|j: int| 0 <= j < i ==> expected@[j] == actual@[j],
        decreases expected@.len() - i,
    {
        if expected[i] != actual[i] {
            assert(expected@.take(i as int) =~= actual@.take(i as int));
            return Some(
                VerifyMismatch { offset: start + i, expected: expected[i], actual: actual[i] },
            );
        }
        i += 1;
    }
    assert(expected@ =~= actual@);
    None
}

/// No failed transfer is replayed: when an operation is interrupted, every
/// transfer that it made before its last one has succeeded.
pub proof fn law_failed_transfers_are_not_replayed<E>(
    diagnostic_timeout: u64,
    plan: Seq<Step<OperationStage>>,
    before: Seq<Transfer<E>>,
    after: Seq<Transfer<E>>,
    error: OperationError<E>,
    i: int,
)
    requires
        interrupted(diagnostic_timeout, plan, before, after, error),
        before.len() <= i < after.len() - 1,
    ensures
        succeeded(after[i]),
{
    let k = choose|k: int|
        0 <= k < plan.len() && #[trigger] stopped_at(
            diagnostic_timeout,
            plan,
            before,
            after,
            error,
            k,
        );
    let course = after.take(before.len() + k);
    if i < before.len() + k {
        crate::exchange::law_steps_on_course_succeeded(static_judge(), plan, before, course, i);
        assert(course[i] == after[i]);
    } else {
        let tail = after.skip(before.len() + k);
        assert(tail[0] == after[before.len() + k]);
        assert(tail.len() == 2);
    }
}

/// An operation that is interrupted leaves what was there before untouched and
/// has made at least one transfer.
pub proof fn law_interrupted_operations_only_append<E>(
    diagnostic_timeout: u64,
    plan: Seq<Step<OperationStage>>,
    before: Seq<Transfer<E>>,
    after: Seq<Transfer<E>>,
    error: OperationError<E>,
)
    requires
        interrupted(diagnostic_timeout, plan, before, after, error),
    ensures
        before.len() < after.len(),
        before == after.take(before.len() as int),
{
    let k = choose|k: int|
        0 <= k < plan.len() && #[trigger] stopped_at(
            diagnostic_timeout,
            plan,
            before,
            after,
            error,
            k,
        );
    assert(after.take(before.len() + k).take(before.len() as int) =~= after.take(
        before.len() as int,
    ));
}

/// A programming run that succeeds has handed the payload pipe the whole data,
/// each byte once and in order.
#[verifier::rlimit(50)]
pub proof fn law_programming_sends_the_whole_data<E>(
    region: u32,
    start: nat,
    data: Seq<u8>,
    chunk: nat,
    before: Seq<Transfer<E>>,
    after: Seq<Transfer<E>>,
)
    requires
        chunk > 0,
        carried_out(static_judge(), program_plan(region, start, data, chunk), before, after),
    ensures
        sent(before, after, OutPipe::Payload) == data,
{
    let plan = program_plan(region, start, data, chunk);
    let count: int = chunk_count(data.len(), chunk) as int;
    lemma_programmed_prefix(region, start, data, chunk, before, after, count);
    lemma_chunk_count(data.len(), chunk, count);
    let base: int = before.len() + 2 + 3 * count;
    lemma_sent_take(before, after, base + 1, OutPipe::Payload);
    lemma_sent_take(before, after, base + 2, OutPipe::Payload);
    assert(passes(static_judge(), plan[2 + 3 * count], after[before.len() + (2 + 3 * count)]));
    assert(passes(static_judge(), plan[3 + 3 * count], after[before.len() + (3 + 3 * count)]));
    assert(after.take(base + 2) =~= after);
    assert(sent(before, after, OutPipe::Payload) =~= data);
}

#[verifier::rlimit(50)]
proof fn lemma_programmed_prefix<E>(
    region: u32,
    start: nat,
    data: Seq<u8>,
    chunk: nat,
    before: Seq<Transfer<E>>,
    after: Seq<Transfer<E>>,
    pieces: int,
)
    requires
        chunk > 0,
        carried_out(static_judge(), program_plan(region, start, data, chunk), before, after),
        0 <= pieces <= chunk_count(data.len(), chunk),
    ensures
        sent(before, after.take(before.len() + 2 + 3 * pieces), OutPipe::Payload) == data.take(
            if pieces * chunk < data.len() {
                pieces * chunk
            } else {
                data.len() as int
            },
        ),
    decreases pieces,
{
    let plan = program_plan(region, start, data, chunk);
    let count = chunk_count(data.len(), chunk);
    if pieces == 0 {
        let base: int = before.len() as int;
        lemma_sent_take(before, after, base + 1, OutPipe::Payload);
        lemma_sent_take(before, after, base + 2, OutPipe::Payload);
        assert(passes(static_judge(), plan[0], after[base + 0]));
        assert(passes(static_judge(), plan[1], after[base + 1]));
        assert(after.take(base).skip(base).len() == 0);
        assert(0 * chunk == 0) by (nonlinear_arith);
        assert(data.take(0) =~= Seq::<u8>::empty());
        assert(sent(before, after.take(base + 2), OutPipe::Payload) =~= Seq::<u8>::empty());
    } else {
        let index: int = pieces - 1;
        lemma_programmed_prefix(region, start, data, chunk, before, after, index);
        lemma_chunk_count(data.len(), chunk, index);
        lemma_chunk_count(data.len(), chunk, pieces);
        let base: int = before.len() + 2 + 3 * index;
        lemma_sent_take(before, after, base + 1, OutPipe::Payload);
        lemma_sent_take(before, after, base + 2, OutPipe::Payload);
        lemma_sent_take(before, after, base + 3, OutPipe::Payload);
        lemma_program_steps(region, start, data, chunk, index);
        assert(passes(static_judge(), plan[2 + 3 * index], after[before.len() + (2 + 3 * index)]));
        assert(passes(static_judge(), plan[3 + 3 * index], after[before.len() + (3 + 3 * index)]));
        assert(passes(static_judge(), plan[4 + 3 * index], after[before.len() + (4 + 3 * index)]));
        let offset: int = index * chunk;
        let length = piece_length(data.len(), chunk, offset);
        let done = data.take(offset);
        assert(sent_by(after[base + 1], OutPipe::Payload) == data.subrange(
            offset,
            offset + length,
        ));
        assert(sent(before, after.take(base + 3), OutPipe::Payload) =~= done + data.subrange(
            offset,
            offset + length,
        ));
        assert(done + data.subrange(offset, offset + length) =~= data.take(offset + length));
    }
}

/// The pieces of a range cover it without a gap or an overlap: a position lies
/// in exactly the piece whose number is the position divided by the piece size.
pub proof fn law_pieces_tile_a_range(length: nat, chunk: nat, position: int, index: int)
    requires
        chunk > 0,
        0 <= position < length,
        0 <= index < chunk_count(length, chunk),
    ensures
        position / (chunk as int) < chunk_count(length, chunk),
        index * chunk <= position < index * chunk + piece_length(length, chunk, index * chunk)
            <==> index == position / (chunk as int),
{
    let c: int = chunk as int;
    let quotient: int = position / c;
    vstd::arithmetic::div_mod::lemma_fundamental_div_mod(position, c);
    vstd::arithmetic::div_mod::lemma_div_pos_is_pos(position, c);
    assert(c * quotient == quotient * c) by (nonlinear_arith);
    lemma_chunk_count(length, chunk, quotient);
    lemma_chunk_count(length, chunk, index);
    if index < quotient {
        assert((index + 1) * c <= quotient * c) by (nonlinear_arith)
            requires
                index + 1 <= quotient,
                c > 0,
        ;
    } else if index > quotient {
        assert((quotient + 1) * c <= index * c) by (nonlinear_arith)
            requires
                quotient + 1 <= index,
                c > 0,
        ;
        assert((quotient + 1) * c == quotient * c + c) by (nonlinear_arith);
    }
}

/// In the primary region a transfer is neither smaller than the minimum nor than
/// 64 bytes, and grows beyond the minimum only to a power of two that is at most
/// 65536 and at most a thirty-second of the total.
pub proof fn law_primary_transfer_sizes(total_length: int, minimum_primary_chunk: u16)
    requires
        0 < total_length <= u32::MAX,
    ensures
        ({
            let size = chunk_size(0, total_length, minimum_primary_chunk);
            &&& size >= 0x40
            &&& size >= minimum_primary_chunk
            &&& size <= 0x1_0000
            &&& size == minimum_primary_chunk || size == 0x40 || size <= total_length / 32
        }),
{
    reveal(chunk_bucket);
}

/// The adapter check, the target probe and a configuration write never touch
/// the diagnostic pipe, whatever comes back.
pub proof fn law_own_responses_leave_the_diagnostic_pipe_alone<E>(
    diagnostic_timeout: u64,
    plan: Seq<Step<OperationStage>>,
    data: Seq<u8>,
    mask: Seq<u8>,
    completion_timeout: u64,
    before: Seq<Transfer<E>>,
    after: Seq<Transfer<E>>,
    error: OperationError<E>,
)
    requires
        plan == adapter_check_plan() || plan == target_probe_plan() || plan
            == write_configuration_plan(data, mask, completion_timeout),
        carried_out(static_judge(), plan, before, after) || interrupted(
            diagnostic_timeout,
            plan,
            before,
            after,
            error,
        ),
    ensures
        leaves_alone(before, after, InPipe::AuxiliaryResult),
{
    lemma_leaves_diagnostics_alone(diagnostic_timeout, plan, before, after, error);
}

/// An erase never touches the diagnostic pipe, whatever comes back.
pub proof fn law_erase_leaves_the_diagnostic_pipe_alone<E>(
    request: EraseRequest,
    timings: OperationTimings,
    before: Seq<Transfer<E>>,
    after: Seq<Transfer<E>>,
    result: Result<EraseResult, OperationError<E>>,
)
    requires
        erase_result(request, timings, before, after, result),
    ensures
        leaves_alone(before, after, InPipe::AuxiliaryResult),
{
    match result {
        Ok(_) => {
            let accepted = completion_accepted(received(before, after, InPipe::Completion)[0]);
            lemma_leaves_diagnostics_alone(
                timings.diagnostic,
                erase_plan(request, accepted),
                before,
                after,
                arbitrary(),
            );
        },
        Err(error) => {
            lemma_leaves_diagnostics_alone(
                timings.diagnostic,
                erase_plan(request, false),
                before,
                after,
                error,
            );
        },
    }
}

/// A step whose rejection, if it has one, is not followed by a diagnostic.
spec fn is_without_diagnostic(step: Step<OperationStage>) -> bool {
    match step {
        Step::Send { .. } => true,
        Step::Receive { pipe, .. } => pipe != InPipe::AuxiliaryResult,
        Step::Complete { stage, .. } => stage is AdapterCheck || stage is TargetProbe
            || stage is ConfigurationWrite,
        Step::Confirm { .. } => true,
    }
}

proof fn lemma_leaves_diagnostics_alone<E>(
    diagnostic_timeout: u64,
    plan: Seq<Step<OperationStage>>,
    before: Seq<Transfer<E>>,
    after: Seq<Transfer<E>>,
    error: OperationError<E>,
)
    requires
        forall|i: int| 0 <= i < plan.len() ==> is_without_diagnostic(#[trigger] plan[i]),
        carried_out(static_judge(), plan, before, after) || interrupted(
            diagnostic_timeout,
            plan,
            before,
            after,
            error,
        ),
    ensures
        leaves_alone(before, after, InPipe::AuxiliaryResult),
{
    if carried_out(static_judge(), plan, before, after) {
        assert forall|i: int| before.len() <= i < after.len() implies match #[trigger] after[i] {
            Transfer::Read { pipe: on, .. } => on != InPipe::AuxiliaryResult,
            Transfer::Write { .. } => true,
        } by {
            let j: int = i - before.len();
            assert(passes(static_judge(), plan[j], after[before.len() + j]));
            assert(is_without_diagnostic(plan[j]));
        }
    } else {
        let k = choose|k: int|
            0 <= k < plan.len() && #[trigger] stopped_at(
                diagnostic_timeout,
                plan,
                before,
                after,
                error,
                k,
            );
        let course = after.take(before.len() + k);
        let tail = after.skip(before.len() + k);
        assert(is_without_diagnostic(plan[k]));
        assert forall|i: int| before.len() <= i < after.len() implies match #[trigger] after[i] {
            Transfer::Read { pipe: on, .. } => on != InPipe::AuxiliaryResult,
            Transfer::Write { .. } => true,
        } by {
            let j: int = i - before.len();
            if j < k {
                assert(passes(static_judge(), plan[j], course[before.len() + j]));
                assert(is_without_diagnostic(plan[j]));
            } else {
                assert(after[i] == tail[j - k]);
                if j - k >= 1 {
                    assert(tail.skip(1)[j - k - 1] == after[i]);
                }
            }
        }
    }
}

/// An operation is never both carried out and interrupted: the transfers that it
/// made tell the two apart.
pub proof fn law_interrupted_operations_are_not_carried_out<E>(
    diagnostic_timeout: u64,
    plan: Seq<Step<OperationStage>>,
    before: Seq<Transfer<E>>,
    after: Seq<Transfer<E>>,
    error: OperationError<E>,
)
    requires
        interrupted(diagnostic_timeout, plan, before, after, error),
    ensures
        !carried_out(static_judge(), plan, before, after),
{
    let k = choose|k: int|
        0 <= k < plan.len() && #[trigger] stopped_at(
            diagnostic_timeout,
            plan,
            before,
            after,
            error,
            k,
        );
    let tail = after.skip(before.len() + k);
    assert(tail[0] == after[before.len() + k]);
    if carried_out(static_judge(), plan, before, after) {
        assert(passes(static_judge(), plan[k], after[before.len() + k]));
    }
}

/// A verification whose transfers all succeed reports success exactly where the
/// bytes that came back are the expected ones.
pub proof fn law_verification_decides_equality<E>(
    region: u32,
    start: usize,
    expected: Seq<u8>,
    minimum_primary_chunk: u16,
    timings: OperationTimings,
    before: Seq<Transfer<E>>,
    after: Seq<Transfer<E>>,
    result: Result<OperationReceipt, OperationError<E>>,
)
    requires
        range_error(start, expected.len() as usize) is None,
        verify_outcome(
            region,
            start,
            expected,
            minimum_primary_chunk,
            timings,
            before,
            after,
            result,
        ),
        carried_out(
            static_judge(),
            read_plan(
                region,
                start as nat,
                expected.len(),
                chunk_size(region, expected.len() as int, minimum_primary_chunk) as nat,
                VERIFY_DATA_TIMEOUT,
            ),
            before,
            after,
        ),
    ensures
        result is Ok <==> received(before, after, InPipe::Response) == expected,
{
    let plan = read_plan(
        region,
        start as nat,
        expected.len(),
        chunk_size(region, expected.len() as int, minimum_primary_chunk) as nat,
        VERIFY_DATA_TIMEOUT,
    );
    if let Err(error) = result {
        if interrupted(timings.diagnostic, plan, before, after, error) {
            law_interrupted_operations_are_not_carried_out(
                timings.diagnostic,
                plan,
                before,
                after,
                error,
            );
        }
    }
}

/// A range can be transferred if and only if it has bytes and its end is a 32-bit
/// number. A diagnostic is waited for half a second.
pub proof fn law_transferable_ranges(start: usize, length: usize)
    ensures
        range_error(start, length) is None <==> length > 0 && start + length <= 0xffff_ffff,
        DIAGNOSTIC_TIMEOUT == 500,
{
}

} // verus!
