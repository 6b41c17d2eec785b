//! Non-destructive automatic identification for 25-series SPI Flash.
//!
//! Every detection downloads the identification algorithm, probes at an
//! explicit voltage, reads an opaque eight-byte result, and returns every
//! catalog candidate whose ID prefix and package class match. A candidate is
//! never promoted to a selected programming profile without an explicit caller
//! decision.

use vstd::prelude::*;
use vstd::slice::slice_subrange;

use crate::assets::algorithm::{Algorithm, AlgorithmView};
use crate::assets::device_db::{
    device_views, law_records_read_their_own_fields, parsed_database, vendor_views, DeviceDatabase, DeviceDatabaseView, DeviceRecord, DeviceRecordView,
    VendorRecord, VendorRecordView,
};
use crate::assets::package_map::{PackageMap, PackageRecord, PackageRecordView};
use crate::bytes::{
    half, le16, lemma_until_nul, lemma_until_nul_prefix, nul_terminated, read_u16, same_bytes, to_array, u16_at,
    until_nul, zeros,
};
use crate::exchange::{
    carried_out, failed_read, failed_write, lemma_nothing_received, lemma_on_course_push,
    lemma_on_course_start, lemma_received_push, on_course, passes, received, replied, Step,
};
use crate::operations::static_judge;
use crate::protocol::{
    chunk_length, classify_completion_status, command_code, completion_accepted,
    lemma_frame_fields, name_field, plain_frame, CommandBlock, CompletionDisposition,
    KnownCommand, COMMAND_BYTES,
};
use crate::session::{
    download_plan, install_algorithm, installation_plan, policy_judge, prepare_interrupted,
    prepare_stopped_at, CompletionPolicy, PrepareError,
};
use crate::text::{eq_ignoring_case, same_ignoring_case};
use crate::transport::{
    read_bytes, Cancellation, Delay, InPipe, OutPipe, Transfer, TransferOptions, Transport,
    WaitLog, Waits, COMMAND_TIMEOUT, POST_DOWNLOAD_DELAY,
};

verus! {

pub const IDENTIFICATION_RESULT_BYTES: usize = 8;

pub const IDENTIFICATION_DIAGNOSTIC_BYTES: usize = COMMAND_BYTES;

pub const PROBE_COMPLETION_TIMEOUT: u64 = 1_500;

pub const PROBE_DIAGNOSTIC_TIMEOUT: u64 = 1_000;

pub const RESULT_COMPLETION_TIMEOUT: u64 = 1_000;

pub const RESULT_RESPONSE_TIMEOUT: u64 = 500;

/// Voltages at which a target can be identified.
#[derive(Debug, Clone, Copy, PartialEq, Eq, Structural)]
pub enum IdentificationVoltage {
    V3_3,
    V1_8,
}

impl IdentificationVoltage {
    /// The voltage in hundredths of a volt.
    pub open spec fn hundredths(self) -> u32 {
        match self {
            IdentificationVoltage::V3_3 => 330,
            IdentificationVoltage::V1_8 => 180,
        }
    }

    #[must_use]
    pub fn centivolts(self) -> (value: u32)
        ensures
            value == self.hundredths(),
    {
        match self {
            IdentificationVoltage::V3_3 => 330,
            IdentificationVoltage::V1_8 => 180,
        }
    }

    #[must_use]
    pub fn label(self) -> (label: &'static str)
        ensures
            label == match self {
                IdentificationVoltage::V3_3 => "3.3 V",
                IdentificationVoltage::V1_8 => "1.8 V",
            },
    {
        match self {
            IdentificationVoltage::V3_3 => "3.3 V",
            IdentificationVoltage::V1_8 => "1.8 V",
        }
    }
}

/// Lossless result of the identification algorithm.
#[derive(Debug, Clone, Copy, PartialEq, Eq)]
pub struct DetectionResult8 {
    raw: [u8; IDENTIFICATION_RESULT_BYTES],
}

impl View for DetectionResult8 {
    type V = Seq<u8>;

    closed spec fn view(&self) -> Seq<u8> {
        self.raw@
    }
}

impl DetectionResult8 {
    #[must_use]
    pub fn from_bytes(raw: [u8; IDENTIFICATION_RESULT_BYTES]) -> (result: Self)
        ensures
            result@ == raw@,
    {
        DetectionResult8 { raw }
    }

    #[must_use]
    pub fn detected_pin_class(self) -> (class: u16)
        ensures
            class == u16_at(self@, 0),
    {
        read_u16(&self.raw, 0)
    }

    /// Bytes whose meaning is unknown.
    #[must_use]
    pub fn unknown_bytes(self) -> (bytes: [u8; 2])
        ensures
            bytes@ == self@.subrange(2, 4),
    {
        let bytes: [u8; 2] = [self.raw[2], self.raw[3]];
        assert(bytes@ =~= self@.subrange(2, 4));
        bytes
    }

    #[must_use]
    pub fn chip_id_bytes(self) -> (bytes: [u8; 4])
        ensures
            bytes@ == self@.subrange(4, 8),
    {
        let bytes: [u8; 4] = [self.raw[4], self.raw[5], self.raw[6], self.raw[7]];
        assert(bytes@ =~= self@.subrange(4, 8));
        bytes
    }

    #[must_use]
    pub fn raw(self) -> (raw: [u8; IDENTIFICATION_RESULT_BYTES])
        ensures
            raw@ == self@,
    {
        self.raw
    }
}

/// Raw statuses and result retained for one identification attempt.
#[derive(Debug, Clone, PartialEq, Eq)]
pub struct IdentificationResult {
    detection: DetectionResult8,
    algorithm_completion_statuses: Vec<u8>,
    probe_completion_status: u8,
    result_completion_status: u8,
}

impl IdentificationResult {
    /// The eight bytes of the result.
    pub closed spec fn detected(&self) -> Seq<u8> {
        self.detection@
    }

    /// The completion bytes of the download.
    pub closed spec fn download_statuses(&self) -> Seq<u8> {
        self.algorithm_completion_statuses@
    }

    /// The completion bytes of the probe and of the result.
    pub closed spec fn command_statuses(&self) -> Seq<u8> {
        seq![self.probe_completion_status, self.result_completion_status]
    }

    #[must_use]
    pub fn detection(&self) -> (detection: DetectionResult8)
        ensures
            detection@ == self.detected(),
    {
        self.detection
    }

    #[must_use]
    pub fn algorithm_completion_statuses(&self) -> (statuses: &[u8])
        ensures
            statuses@ == self.download_statuses(),
    {
        self.algorithm_completion_statuses.as_slice()
    }

    #[must_use]
    pub fn probe_completion_status(&self) -> (status: u8)
        ensures
            status == self.command_statuses()[0],
    {
        self.probe_completion_status
    }

    #[must_use]
    pub fn result_completion_status(&self) -> (status: u8)
        ensures
            status == self.command_statuses()[1],
    {
        self.result_completion_status
    }
}

/// Where in the identification a transfer belongs.
#[derive(Debug, Clone, Copy, PartialEq, Eq, Structural)]
pub enum IdentificationStage {
    ProbeCommandOut,
    ProbeCompletionIn,
    ProbeDiagnosticIn,
    ResultCommandOut,
    ResultCompletionIn,
    ResultResponseIn,
}

/// Failures of an identification.
#[allow(inconsistent_fields)]
#[derive(Debug)]
pub enum IdentificationError<E> {
    UnexpectedAlgorithm { actual: String },
    AlgorithmPreparation(PrepareError<E>),
    Transport { stage: IdentificationStage, source: E },
    ProbeRejected { raw_status: u8, diagnostic: [u8; IDENTIFICATION_DIAGNOSTIC_BYTES] },
    ResultRejected { raw_status: u8 },
}

/// The probe at a voltage and the request for its result.
pub open spec fn probe_plan(voltage: IdentificationVoltage) -> Seq<Step<IdentificationStage>> {
    seq![
        Step::Send {
            pipe: OutPipe::Command,
            bytes: plain_frame(KnownCommand::TargetProbe, 0, voltage.hundredths(), 0),
            timeout: COMMAND_TIMEOUT,
            stage: IdentificationStage::ProbeCommandOut,
        },
        Step::Complete {
            timeout: PROBE_COMPLETION_TIMEOUT,
            stage: IdentificationStage::ProbeCompletionIn,
        },
        Step::Send {
            pipe: OutPipe::Command,
            bytes: plain_frame(KnownCommand::ReadIdentificationResult, 0, 0, 8),
            timeout: COMMAND_TIMEOUT,
            stage: IdentificationStage::ResultCommandOut,
        },
        Step::Complete {
            timeout: RESULT_COMPLETION_TIMEOUT,
            stage: IdentificationStage::ResultCompletionIn,
        },
        Step::Receive {
            pipe: InPipe::Response,
            length: 8,
            timeout: RESULT_RESPONSE_TIMEOUT,
            stage: IdentificationStage::ResultResponseIn,
        },
    ]
}

/// What follows a completion byte that is not accepted: a diagnostic on the
/// response pipe behind the probe, nothing behind the result command.
pub open spec fn identification_rejection<E>(
    stage: IdentificationStage,
    status: u8,
    tail: Seq<Transfer<E>>,
    error: IdentificationError<E>,
) -> bool {
    if stage is ProbeCompletionIn {
        let length = IDENTIFICATION_DIAGNOSTIC_BYTES as nat;
        let timeout = PROBE_DIAGNOSTIC_TIMEOUT;
        &&& tail.len() == 1
        &&& {
            ||| {
                &&& failed_read(tail[0], InPipe::Response, length, timeout) matches Some(source)
                &&& error == (IdentificationError::Transport {
                    stage: IdentificationStage::ProbeDiagnosticIn,
                    source,
                })
            }
            ||| {
                &&& replied(tail[0], InPipe::Response, length, timeout) matches Some(bytes)
                &&& error matches IdentificationError::ProbeRejected { raw_status, diagnostic }
                &&& raw_status == status
                &&& diagnostic@ == bytes
            }
        }
    } else {
        &&& tail.len() == 0
        &&& error == (IdentificationError::<E>::ResultRejected { raw_status: status })
    }
}

/// A step failed: the transfers in `tail` are all that it made, and `error` is
/// what it reports.
pub open spec fn identification_step_error<E>(
    step: Step<IdentificationStage>,
    tail: Seq<Transfer<E>>,
    error: IdentificationError<E>,
) -> bool {
    match step {
        Step::Send { pipe, bytes, timeout, stage } => {
            &&& tail.len() == 1
            &&& failed_write(tail[0], pipe, bytes, timeout) matches Some(source)
            &&& error == (IdentificationError::Transport { stage, source })
        },
        Step::Receive { pipe, length, timeout, stage } => {
            &&& tail.len() == 1
            &&& failed_read(tail[0], pipe, length, timeout) matches Some(source)
            &&& error == (IdentificationError::Transport { stage, source })
        },
        Step::Complete { timeout, stage } => {
            ||| {
                &&& tail.len() == 1
                &&& failed_read(tail[0], InPipe::Completion, 1, timeout) matches Some(source)
                &&& error == (IdentificationError::Transport { stage, source })
            }
            ||| {
                &&& tail.len() >= 1
                &&& replied(tail[0], InPipe::Completion, 1, timeout) matches Some(status)
                &&& !completion_accepted(status[0])
                &&& identification_rejection(stage, status[0], tail.skip(1), error)
            }
        },
        Step::Confirm { .. } => false,
    }
}

/// An identification carried out `k` steps of the plan and failed in the next.
pub open spec fn identification_stopped_at<E>(
    plan: Seq<Step<IdentificationStage>>,
    before: Seq<Transfer<E>>,
    after: Seq<Transfer<E>>,
    error: IdentificationError<E>,
    k: int,
) -> bool {
    &&& before.len() + k < after.len()
    &&& on_course(static_judge(), plan, before, after.take(before.len() + k))
    &&& identification_step_error(plan[k], after.skip(before.len() + k), error)
}

/// An identification carried out some steps of the plan and failed in the next.
pub open spec fn identification_interrupted<E>(
    plan: Seq<Step<IdentificationStage>>,
    before: Seq<Transfer<E>>,
    after: Seq<Transfer<E>>,
    error: IdentificationError<E>,
) -> bool {
    exists|k: int|
        0 <= k < plan.len() && #[trigger] identification_stopped_at(plan, before, after, error, k)
}

/// What an identification does and returns: it installs the identification
/// algorithm, which is the only one that it takes, and then probes. No
/// parameter image is sent.
pub open spec fn identification_outcome<P: CompletionPolicy, E>(
    policy: P,
    algorithm: AlgorithmView,
    voltage: IdentificationVoltage,
    before: Seq<Transfer<E>>,
    after: Seq<Transfer<E>>,
    waits_before: Waits,
    waits_after: Waits,
    result: Result<IdentificationResult, IdentificationError<E>>,
) -> bool {
    let install = installation_plan(algorithm);
    let installed = after.take(before.len() + install.len() as int);
    let plan = probe_plan(voltage);
    let waited = waits_before.then_wait(
        POST_DOWNLOAD_DELAY,
        before.len() + download_plan(algorithm).len(),
    );
    if !same_ignoring_case(algorithm.name, "M25ID"@) {
        &&& after == before
        &&& waits_after == waits_before
        &&& result matches Err(IdentificationError::UnexpectedAlgorithm { actual })
        &&& actual@ == algorithm.name
    } else {
        match result {
            Err(IdentificationError::AlgorithmPreparation(error)) => {
                &&& prepare_interrupted(policy, install, before, after, error)
                &&& waits_after == if after.len() > before.len() + download_plan(algorithm).len() {
                    waited
                } else {
                    waits_before
                }
            },
            Err(error) => {
                &&& before.len() + install.len() <= after.len()
                &&& carried_out(policy_judge(policy), install, before, installed)
                &&& waits_after == waited
                &&& identification_interrupted(plan, installed, after, error)
            },
            Ok(identified) => {
                &&& before.len() + install.len() <= after.len()
                &&& carried_out(policy_judge(policy), install, before, installed)
                &&& waits_after == waited
                &&& carried_out(static_judge(), plan, installed, after)
                &&& identified.download_statuses() == received(
                    before,
                    installed,
                    InPipe::Completion,
                )
                &&& identified.command_statuses() == received(installed, after, InPipe::Completion)
                &&& identified.detected() == received(installed, after, InPipe::Response)
            },
        }
    }
}

spec fn goes_on_with<E>(
    plan: Seq<Step<IdentificationStage>>,
    before: Seq<Transfer<E>>,
    now: Seq<Transfer<E>>,
    step: Step<IdentificationStage>,
) -> bool {
    &&& on_course(static_judge(), plan, before, now)
    &&& now.len() - before.len() < plan.len()
    &&& plan[now.len() - before.len()] == step
}

proof fn lemma_stopped<E>(
    plan: Seq<Step<IdentificationStage>>,
    before: Seq<Transfer<E>>,
    now: Seq<Transfer<E>>,
    tail: Seq<Transfer<E>>,
    error: IdentificationError<E>,
)
    requires
        on_course(static_judge(), plan, before, now),
        now.len() - before.len() < plan.len(),
        tail.len() > 0,
        identification_step_error(plan[now.len() - before.len()], tail, error),
    ensures
        identification_interrupted(plan, before, now + tail, error),
        before == (now + tail).take(before.len() as int),
{
    let after = now + tail;
    let k: int = now.len() - before.len();
    assert(after.take(before.len() + k) =~= now);
    assert(after.skip(before.len() + k) =~= tail);
    assert(identification_stopped_at(plan, before, after, error, k));
    assert(now.take(before.len() as int) =~= after.take(before.len() as int));
}

/// One exclusive identification transaction over a claimed programmer.
///
/// The fields are public so that contracts can say what becomes of the borrowed
/// transport: it ends as the session leaves it.
pub struct SpiFlashIdentificationSession<'a, T: Transport> {
    pub transport: &'a mut T,
    pub cancellation: &'a dyn Cancellation,
    pub log: WaitLog,
}

impl<'a, T: Transport> SpiFlashIdentificationSession<'a, T> {
    /// Every transfer of the underlying transport, oldest first.
    pub open spec fn history(&self) -> Seq<Transfer<T::Error>> {
        self.transport.history()
    }

    /// For each wait of the session, how many transfers the transport had made
    /// when it began.
    pub open spec fn wait_places(&self) -> Seq<nat> {
        self.log@
    }

    #[must_use]
    pub fn new(transport: &'a mut T, cancellation: &'a dyn Cancellation) -> (session: Self)
        ensures
            session.history() == old(transport).history(),
            *final(session.transport) == *final(transport),
            session.wait_places() == Seq::<nat>::empty(),
    {
        SpiFlashIdentificationSession { transport, cancellation, log: WaitLog::new() }
    }

    /// Always downloads and verifies the identification algorithm, then probes
    /// and reads the result. No device parameter image or destructive operation
    /// is sent.
    ///
    /// # Errors
    ///
    /// Returns [`IdentificationError`] for a wrong algorithm, algorithm
    /// preparation failure, transport failure, or command-specific rejection.
    pub fn identify<P, D>(
        &mut self,
        completion_policy: &P,
        delay: &mut D,
        algorithm: &Algorithm,
        voltage: IdentificationVoltage,
    ) -> (result: Result<IdentificationResult, IdentificationError<T::Error>>) where
        P: CompletionPolicy,
        D: Delay,

        requires
            completion_policy.usable(),
        ensures
            *final(final(self).transport) == *final(old(self).transport),
            identification_outcome(
                *completion_policy,
                algorithm@,
                voltage,
                old(self).history(),
                final(self).history(),
                (Waits { durations: old(delay).waits(), places: old(self).wait_places() }),
                (Waits { durations: final(delay).waits(), places: final(self).wait_places() }),
                result,
            ),
    {
        if !eq_ignoring_case(algorithm.name(), "M25ID") {
            return Err(
                IdentificationError::UnexpectedAlgorithm { actual: algorithm.name().to_owned() },
            );
        }
        let ghost origin = self.history();
        let ghost install = installation_plan(algorithm@);
        proof {
            reveal_strlit("M25ID");
            crate::text::lemma_case_is_an_equivalence(
                algorithm@.name,
                "M25ID"@,
                algorithm@.name,
            );
            assert(install.take(install.len() as int) =~= install);
        }
        assert(algorithm@.name.len() == 5);
        let mut statuses: Vec<u8> = Vec::new();
        match install_algorithm(
            self.transport,
            completion_policy,
            delay,
            &mut self.log,
            self.cancellation,
            algorithm,
            &mut statuses,
            Ghost(install),
        ) {
            Ok(()) => {},
            Err(error) => { return Err(IdentificationError::AlgorithmPreparation(error)) },
        }
        let ghost before = self.history();
        let ghost plan = probe_plan(voltage);
        proof {
            lemma_on_course_start(static_judge(), plan, before);
            lemma_nothing_received(before, InPipe::Completion);
            lemma_nothing_received(before, InPipe::Response);
        }
        let result = self.probe(voltage, statuses, Ghost(before));
        proof {
            assert(before =~= self.history().take(origin.len() + install.len() as int));
        }
        result
    }

    #[verifier::rlimit(50)]
    fn probe(
        &mut self,
        voltage: IdentificationVoltage,
        statuses: Vec<u8>,
        Ghost(before): Ghost<Seq<Transfer<T::Error>>>,
    ) -> (result: Result<IdentificationResult, IdentificationError<T::Error>>)
        requires
            before == old(self).history(),
        ensures
            *final(final(self).transport) == *final(old(self).transport),
            final(self).log == old(self).log,
            before.len() <= final(self).history().len(),
            before == final(self).history().take(before.len() as int),
            !(result matches Err(IdentificationError::AlgorithmPreparation(_))),
            match result {
                Ok(identified) => {
                    &&& carried_out(
                        static_judge(),
                        probe_plan(voltage),
                        before,
                        final(self).history(),
                    )
                    &&& identified.download_statuses() == statuses@
                    &&& identified.command_statuses() == received(
                        before,
                        final(self).history(),
                        InPipe::Completion,
                    )
                    &&& identified.detected() == received(
                        before,
                        final(self).history(),
                        InPipe::Response,
                    )
                },
                Err(error) => identification_interrupted(
                    probe_plan(voltage),
                    before,
                    final(self).history(),
                    error,
                ),
            },
    {
        let ghost plan = probe_plan(voltage);
        proof {
            lemma_on_course_start(static_judge(), plan, before);
            lemma_nothing_received(before, InPipe::Completion);
            lemma_nothing_received(before, InPipe::Response);
        }
        self.write_command(
            &CommandBlock::spi_flash_identification_probe(voltage.centivolts()),
            IdentificationStage::ProbeCommandOut,
            Ghost(plan),
            Ghost(before),
        )?;
        let ghost probing = self.history();
        let probe_status: u8 = self.read_completion(
            IdentificationStage::ProbeCompletionIn,
            PROBE_COMPLETION_TIMEOUT,
            Ghost(plan),
            Ghost(before),
        )?;
        if classify_completion_status(probe_status) == CompletionDisposition::AuxiliaryResult {
            let ghost first = self.history().last();
            let options = TransferOptions {
                timeout: PROBE_DIAGNOSTIC_TIMEOUT,
                cancellation: self.cancellation,
            };
            let error = match read_bytes(
                self.transport,
                InPipe::Response,
                IDENTIFICATION_DIAGNOSTIC_BYTES,
                options,
            ) {
                Ok(bytes) => IdentificationError::ProbeRejected {
                    raw_status: probe_status,
                    diagnostic: to_array(bytes.as_slice()),
                },
                Err(source) => IdentificationError::Transport {
                    stage: IdentificationStage::ProbeDiagnosticIn,
                    source,
                },
            };
            proof {
                let tail = seq![first, self.history().last()];
                assert(tail.skip(1) =~= seq![self.history().last()]);
                lemma_stopped(plan, before, probing, tail, error);
                assert(probing + tail =~= self.history());
            }
            return Err(error);
        }
        self.write_command(
            &CommandBlock::read_spi_flash_identification(),
            IdentificationStage::ResultCommandOut,
            Ghost(plan),
            Ghost(before),
        )?;
        let ghost asking = self.history();
        let result_status: u8 = self.read_completion(
            IdentificationStage::ResultCompletionIn,
            RESULT_COMPLETION_TIMEOUT,
            Ghost(plan),
            Ghost(before),
        )?;
        if classify_completion_status(result_status) == CompletionDisposition::AuxiliaryResult {
            let error = IdentificationError::ResultRejected { raw_status: result_status };
            proof {
                let tail = seq![self.history().last()];
                assert(tail.skip(1).len() == 0);
                lemma_stopped(plan, before, asking, tail, error);
                assert(asking + tail =~= self.history());
            }
            return Err(error);
        }
        let ghost answered = self.history();
        let options = TransferOptions {
            timeout: RESULT_RESPONSE_TIMEOUT,
            cancellation: self.cancellation,
        };
        match read_bytes(self.transport, InPipe::Response, IDENTIFICATION_RESULT_BYTES, options) {
            Ok(bytes) => {
                let identified = IdentificationResult {
                    detection: DetectionResult8::from_bytes(to_array(bytes.as_slice())),
                    algorithm_completion_statuses: statuses,
                    probe_completion_status: probe_status,
                    result_completion_status: result_status,
                };
                proof {
                    let event = self.history().last();
                    lemma_on_course_push(static_judge(), plan, before, answered, event);
                    lemma_received_push(before, answered, event, InPipe::Completion);
                    lemma_received_push(before, answered, event, InPipe::Response);
                    assert(identified.command_statuses() =~= received(
                        before,
                        self.history(),
                        InPipe::Completion,
                    ));
                    assert(identified.detected() =~= received(
                        before,
                        self.history(),
                        InPipe::Response,
                    ));
                }
                Ok(identified)
            },
            Err(source) => {
                let error = IdentificationError::Transport {
                    stage: IdentificationStage::ResultResponseIn,
                    source,
                };
                proof {
                    let tail = seq![self.history().last()];
                    lemma_stopped(plan, before, answered, tail, error);
                    assert(answered + tail =~= self.history());
                }
                Err(error)
            },
        }
    }

    fn write_command(
        &mut self,
        command: &CommandBlock,
        stage: IdentificationStage,
        Ghost(plan): Ghost<Seq<Step<IdentificationStage>>>,
        Ghost(before): Ghost<Seq<Transfer<T::Error>>>,
    ) -> (result: Result<(), IdentificationError<T::Error>>)
        requires
            goes_on_with(
                plan,
                before,
                old(self).history(),
                (Step::Send {
                    pipe: OutPipe::Command,
                    bytes: command@,
                    timeout: COMMAND_TIMEOUT,
                    stage,
                }),
            ),
        ensures
            *final(final(self).transport) == *final(old(self).transport),
            final(self).log == old(self).log,
            before.len() <= final(self).history().len(),
            before == final(self).history().take(before.len() as int),
            match result {
                Ok(_) => {
                    &&& on_course(static_judge(), plan, before, final(self).history())
                    &&& final(self).history().len() == old(self).history().len() + 1
                    &&& forall|p: InPipe| #[trigger]
                        received(before, final(self).history(), p) == received(
                            before,
                            old(self).history(),
                            p,
                        )
                },
                Err(error) => !(error is AlgorithmPreparation) && identification_interrupted(
                    plan,
                    before,
                    final(self).history(),
                    error,
                ),
            },
    {
        let ghost now = self.history();
        let options = TransferOptions {
            timeout: COMMAND_TIMEOUT,
            cancellation: self.cancellation,
        };
        let bytes: &[u8] = command.as_bytes();
        let outcome = self.transport.write_exact(OutPipe::Command, bytes, options);
        let ghost event = self.history().last();
        match outcome {
            Ok(()) => {
                proof {
                    lemma_on_course_push(static_judge(), plan, before, now, event);
                    assert forall|p: InPipe| #[trigger]
                        received(before, self.history(), p) == received(before, now, p) by {
                        lemma_received_push(before, now, event, p);
                        assert(received(before, now, p) + Seq::<u8>::empty() =~= received(
                            before,
                            now,
                            p,
                        ));
                    }
                }
                Ok(())
            },
            Err(source) => {
                let error = IdentificationError::Transport { stage, source };
                proof {
                    lemma_stopped(plan, before, now, seq![event], error);
                    assert(now + seq![event] =~= self.history());
                }
                Err(error)
            },
        }
    }

    /// Reads the completion byte of a step, accepted or not.
    fn read_completion(
        &mut self,
        stage: IdentificationStage,
        timeout: u64,
        Ghost(plan): Ghost<Seq<Step<IdentificationStage>>>,
        Ghost(before): Ghost<Seq<Transfer<T::Error>>>,
    ) -> (result: Result<u8, IdentificationError<T::Error>>)
        requires
            goes_on_with(
                plan,
                before,
                old(self).history(),
                (Step::Complete { timeout, stage }),
            ),
        ensures
            *final(final(self).transport) == *final(old(self).transport),
            final(self).log == old(self).log,
            before.len() <= final(self).history().len(),
            before == final(self).history().take(before.len() as int),
            match result {
                Ok(status) => {
                    &&& final(self).history() == old(self).history().push(
                        Transfer::Read {
                            pipe: InPipe::Completion,
                            length: 1,
                            timeout,
                            result: Ok(seq![status]),
                        },
                    )
                    &&& completion_accepted(status) ==> on_course(
                        static_judge(),
                        plan,
                        before,
                        final(self).history(),
                    )
                    &&& received(before, final(self).history(), InPipe::Completion) == received(
                        before,
                        old(self).history(),
                        InPipe::Completion,
                    ).push(status)
                    &&& received(before, final(self).history(), InPipe::Response) == received(
                        before,
                        old(self).history(),
                        InPipe::Response,
                    )
                },
                Err(error) => !(error is AlgorithmPreparation) && identification_interrupted(
                    plan,
                    before,
                    final(self).history(),
                    error,
                ),
            },
    {
        let ghost now = self.history();
        let options = TransferOptions { timeout, cancellation: self.cancellation };
        match read_bytes(self.transport, InPipe::Completion, 1, options) {
            Ok(bytes) => {
                let status: u8 = bytes[0];
                proof {
                    assert(bytes@ =~= seq![status]);
                    let event = self.history().last();
                    if completion_accepted(status) {
                        lemma_on_course_push(static_judge(), plan, before, now, event);
                    }
                    lemma_received_push(before, now, event, InPipe::Completion);
                    lemma_received_push(before, now, event, InPipe::Response);
                    assert(received(before, self.history(), InPipe::Completion) =~= received(
                        before,
                        now,
                        InPipe::Completion,
                    ).push(status));
                    assert(received(before, self.history(), InPipe::Response) =~= received(
                        before,
                        now,
                        InPipe::Response,
                    ));
                    assert(now.take(before.len() as int) =~= self.history().take(
                        before.len() as int,
                    ));
                }
                Ok(status)
            },
            Err(source) => {
                let error = IdentificationError::Transport { stage, source };
                proof {
                    let event = self.history().last();
                    lemma_stopped(plan, before, now, seq![event], error);
                    assert(now + seq![event] =~= self.history());
                }
                Err(error)
            },
        }
    }
}

/// A command block that identification may send.
pub open spec fn is_harmless(block: Seq<u8>) -> bool {
    let code = u16_at(block, 0);
    ||| code == command_code(KnownCommand::DownloadAlgorithmChunk)
    ||| code == command_code(KnownCommand::VerifyDeviceAlgorithm)
    ||| code == command_code(KnownCommand::TargetProbe)
    ||| code == command_code(KnownCommand::ReadIdentificationResult)
}

/// A transfer sends no other command.
pub open spec fn sends_nothing_harmful<E>(event: Transfer<E>) -> bool {
    match event {
        Transfer::Write { pipe: OutPipe::Command, bytes, .. } => is_harmless(bytes),
        _ => true,
    }
}

/// Identification is not destructive: whatever comes back, the only commands
/// that it sends download and verify an algorithm, probe the target and ask for
/// the result. In particular it sends no parameter image.
#[verifier::rlimit(50)]
pub proof fn law_identification_is_not_destructive<P: CompletionPolicy, E>(
    policy: P,
    algorithm: AlgorithmView,
    voltage: IdentificationVoltage,
    before: Seq<Transfer<E>>,
    after: Seq<Transfer<E>>,
    waits_before: Waits,
    waits_after: Waits,
    result: Result<IdentificationResult, IdentificationError<E>>,
    i: int,
)
    requires
        algorithm.valid(),
        identification_outcome(
            policy,
            algorithm,
            voltage,
            before,
            after,
            waits_before,
            waits_after,
            result,
        ),
        before.len() <= i < after.len(),
    ensures
        sends_nothing_harmful(after[i]),
{
    let install = installation_plan(algorithm);
    let installed = after.take(before.len() + install.len() as int);
    let plan = probe_plan(voltage);
    lemma_installation_is_harmless(algorithm);
    lemma_probe_is_harmless(voltage);
    if same_ignoring_case(algorithm.name, "M25ID"@) {
        match result {
            Err(IdentificationError::AlgorithmPreparation(error)) => {
                let k = choose|k: int|
                    0 <= k < install.len() && #[trigger] prepare_stopped_at(
                        policy,
                        install,
                        before,
                        after,
                        error,
                        k,
                    );
                let course = after.take(before.len() + k);
                let j: int = i - before.len();
                assert(harmless_step(install[j]));
                if j < k {
                    assert(passes(policy_judge(policy), install[j], course[before.len() + j]));
                    assert(course[i] == after[i]);
                } else {
                    assert(after.skip(before.len() + k)[0] == after[i]);
                }
            },
            _ => {
                if i < installed.len() {
                    let j: int = i - before.len();
                    assert(harmless_step(install[j]));
                    assert(passes(policy_judge(policy), install[j], installed[before.len() + j]));
                    assert(installed[i] == after[i]);
                } else {
                    let j: int = i - installed.len();
                    match result {
                        Ok(_) => {
                            assert(harmless_step(plan[j]));
                            assert(passes(
                                static_judge(),
                                plan[j],
                                after[installed.len() + j],
                            ));
                        },
                        Err(error) => {
                            let k = choose|k: int|
                                0 <= k < plan.len() && #[trigger] identification_stopped_at(
                                    plan,
                                    installed,
                                    after,
                                    error,
                                    k,
                                );
                            let course = after.take(installed.len() + k);
                            let tail = after.skip(installed.len() + k);
                            if j < k {
                                assert(harmless_step(plan[j]));
                                assert(passes(
                                    static_judge(),
                                    plan[j],
                                    course[installed.len() + j],
                                ));
                                assert(course[i] == after[i]);
                            } else {
                                assert(harmless_step(plan[k]));
                                assert(tail[j - k] == after[i]);
                                if j > k {
                                    assert(tail.skip(1)[j - k - 1] == after[i]);
                                }
                            }
                        },
                    }
                }
            },
        }
    }
}

spec fn harmless_step<S>(step: Step<S>) -> bool {
    match step {
        Step::Send { pipe: OutPipe::Command, bytes, .. } => is_harmless(bytes),
        _ => true,
    }
}

proof fn lemma_installation_is_harmless(algorithm: AlgorithmView)
    requires
        algorithm.valid(),
    ensures
        forall|i: int|
            0 <= i < installation_plan(algorithm).len() ==> harmless_step(
                #[trigger] installation_plan(algorithm)[i],
            ),
{
    let plan = installation_plan(algorithm);
    lemma_frame_fields(KnownCommand::VerifyDeviceAlgorithm, 0, 0, 0, zeros(48));
    assert forall|i: int| 0 <= i < plan.len() implies harmless_step(#[trigger] plan[i]) by {
        if i < download_plan(algorithm).len() {
            assert(plan[i] == download_plan(algorithm)[i]);
            let offset: int = (i / 3) * 0x800;
            lemma_frame_fields(
                KnownCommand::DownloadAlgorithmChunk,
                0,
                offset as u32,
                chunk_length(algorithm, offset) as u32,
                name_field(algorithm.name) + algorithm.timestamp + zeros(24),
            );
        }
    }
}

proof fn lemma_probe_is_harmless(voltage: IdentificationVoltage)
    ensures
        forall|i: int|
            0 <= i < probe_plan(voltage).len() ==> harmless_step(#[trigger] probe_plan(voltage)[i]),
{
    lemma_frame_fields(KnownCommand::TargetProbe, 0, voltage.hundredths(), 0, zeros(48));
    lemma_frame_fields(KnownCommand::ReadIdentificationResult, 0, 0, 8, zeros(48));
}

/// The parts of a result make up the whole.
pub proof fn law_detection_results_are_lossless(raw: Seq<u8>)
    requires
        raw.len() == IDENTIFICATION_RESULT_BYTES,
    ensures
        le16(u16_at(raw, 0)) + raw.subrange(2, 4) + raw.subrange(4, 8) == raw,
{
    let class = u16_at(raw, 0);
    assert(class as int == raw[0] + 0x100 * raw[1]);
    assert(class as int % 0x100 == raw[0]);
    assert(class as int / 0x100 == raw[1]);
    assert(le16(class) =~= raw.subrange(0, 2));
    assert(le16(class) + raw.subrange(2, 4) + raw.subrange(4, 8) =~= raw);
}

/// The chip ID bytes that a device is known by.
pub open spec fn known_prefix(raw: Seq<u8>) -> Seq<u8> {
    until_nul(raw.subrange(0x24, 0x28))
}

/// A device is an SPI Flash whose known ID bytes begin the detected ID.
pub open spec fn is_detected(raw: Seq<u8>, detection: Seq<u8>) -> bool {
    let prefix = known_prefix(raw);
    &&& raw[0x22] == 0
    &&& prefix.len() > 0
    &&& detection.subrange(4, 4 + prefix.len() as int) == prefix
}

/// The contents of a candidate.
pub struct IdentificationCandidateView {
    pub device: DeviceRecordView,
    pub vendor: VendorRecordView,
    pub package: PackageRecordView,
}

/// The class of the package with a key, as far as it is known.
pub open spec fn class_of(classes: Seq<Option<u16>>, key: u8) -> Option<u16> {
    if key < classes.len() {
        classes[key as int]
    } else {
        None
    }
}

/// The packages of a device that have a route and the detected class.
pub open spec fn matching_packages(
    routes: Map<u8, PackageRecordView>,
    classes: Seq<Option<u16>>,
    keys: Seq<u8>,
    class: u16,
) -> Seq<PackageRecordView> {
    keys.filter(
        |key: u8| routes.contains_key(key) && class_of(classes, key) == Some(class),
    ).map_values(|key: u8| routes[key])
}

/// The candidates among the first devices of a catalog, in catalog order, and
/// for each device in the order of its package keys.
pub open spec fn candidates_among(
    database: DeviceDatabaseView,
    routes: Map<u8, PackageRecordView>,
    package_keys: Seq<Seq<u8>>,
    classes: Seq<Option<u16>>,
    detection: Seq<u8>,
    count: nat,
) -> Seq<IdentificationCandidateView>
    decreases count,
{
    if count == 0 {
        Seq::empty()
    } else {
        let index = count - 1;
        let before = candidates_among(
            database,
            routes,
            package_keys,
            classes,
            detection,
            index as nat,
        );
        let device = database.devices[index];
        if index < package_keys.len() && is_detected(device.raw, detection) {
            before + matching_packages(
                routes,
                classes,
                package_keys[index],
                u16_at(detection, 0),
            ).map_values(
                |package: PackageRecordView|
                    IdentificationCandidateView {
                        device,
                        vendor: database.vendors[device.vendor_index as int],
                        package,
                    },
            )
        } else {
            before
        }
    }
}

/// One device and package that a detection matches.
#[derive(Debug, Clone, Copy, PartialEq, Eq)]
pub struct IdentificationCandidate<'a> {
    device: &'a DeviceRecord,
    vendor: &'a VendorRecord,
    package: &'a PackageRecord,
}

impl<'a> View for IdentificationCandidate<'a> {
    type V = IdentificationCandidateView;

    closed spec fn view(&self) -> IdentificationCandidateView {
        IdentificationCandidateView {
            device: self.device@,
            vendor: self.vendor@,
            package: self.package@,
        }
    }
}

impl<'a> IdentificationCandidate<'a> {
    #[must_use]
    pub fn device(self) -> (device: &'a DeviceRecord)
        ensures
            device@ == self@.device,
    {
        self.device
    }

    #[must_use]
    pub fn vendor(self) -> (vendor: &'a VendorRecord)
        ensures
            vendor@ == self@.vendor,
    {
        self.vendor
    }

    #[must_use]
    pub fn package(self) -> (package: &'a PackageRecord)
        ensures
            package@ == self@.package,
    {
        self.package
    }

    #[must_use]
    pub fn chip_id_prefix(self) -> (prefix: &'a [u8])
        ensures
            prefix@ == known_prefix(self@.device.raw),
    {
        let raw: &'a [u8] = self.device.raw();
        nul_terminated(slice_subrange(raw, 0x24, 0x28))
    }
}

/// The contents of candidates.
pub open spec fn candidate_views(candidates: Seq<IdentificationCandidate<'_>>) -> Seq<
    IdentificationCandidateView,
> {
    candidates.map_values(|candidate: IdentificationCandidate| candidate@)
}

/// The package keys of devices.
pub open spec fn key_lists(package_keys: Seq<Vec<u8>>) -> Seq<Seq<u8>> {
    package_keys.map_values(|keys: Vec<u8>| keys@)
}

/// Applies the SPI-family, ID-prefix, and package-class rules to a catalog.
/// `package_keys` lists the package keys of each device in catalog order, and
/// `package_classes` the detection class of each package key.
#[must_use]
#[verifier::rlimit(50)]
pub fn match_identification_candidates<'a>(
    database: &'a DeviceDatabase,
    packages: &'a PackageMap,
    package_keys: &[Vec<u8>],
    package_classes: &[Option<u16>],
    detection: DetectionResult8,
) -> (candidates: Vec<IdentificationCandidate<'a>>)
    ensures
        candidate_views(candidates@) == candidates_among(
            database@,
            packages@,
            key_lists(package_keys@),
            package_classes@,
            detection@,
            database@.devices.len(),
        ),
{
    let devices: &'a [DeviceRecord] = database.devices();
    let vendors: &'a [VendorRecord] = database.vendors();
    let class: u16 = detection.detected_pin_class();
    let chip_id: [u8; 4] = detection.chip_id_bytes();
    let ghost lists = key_lists(package_keys@);
    let mut candidates: Vec<IdentificationCandidate<'a>> = Vec::new();
    let mut i: usize = 0;
    assert(candidate_views(candidates@) =~= Seq::<IdentificationCandidateView>::empty());
    while i < devices.len()
        invariant
            i <= devices@.len(),
            device_views(devices@) == database@.devices,
            vendor_views(vendors@) == database@.vendors,
            database@.valid(),
            lists == key_lists(package_keys@),
            class == u16_at(detection@, 0),
            chip_id@ == detection@.subrange(4, 8),
            candidate_views(candidates@) == candidates_among(
                database@,
                packages@,
                lists,
                package_classes@,
                detection@,
                i as nat,
            ),
        decreases devices@.len() - i,
    {
        let device: &'a DeviceRecord = &devices[i];
        assert(database@.devices[i as int] == device@);
        if i < package_keys.len() && detects(device, &chip_id, Ghost(detection@)) {
            let vendor: &'a VendorRecord = &vendors[device.vendor_index()];
            assert(database@.vendors[device@.vendor_index as int] == vendor@);
            let keys: &[u8] = package_keys[i].as_slice();
            assert(lists[i as int] == keys@);
            let found: Vec<&'a PackageRecord> = packages_with_class(
                packages,
                package_classes,
                keys,
                class,
            );
            let ghost before = candidate_views(candidates@);
            let ghost views = found@.map_values(|package: &PackageRecord| package@);
            let ghost extension = views.map_values(
                |package: PackageRecordView|
                    IdentificationCandidateView { device: device@, vendor: vendor@, package },
            );
            let mut j: usize = 0;
            assert(before + extension.take(0) =~= before);
            while j < found.len()
                invariant
                    j <= found@.len(),
                    views == found@.map_values(|package: &PackageRecord| package@),
                    extension == views.map_values(
                        |package: PackageRecordView|
                            IdentificationCandidateView {
                                device: device@,
                                vendor: vendor@,
                                package,
                            },
                    ),
                    candidate_views(candidates@) == before + extension.take(j as int),
                decreases found@.len() - j,
            {
                let ghost previous = candidates@;
                let candidate = IdentificationCandidate { device, vendor, package: found[j] };
                candidates.push(candidate);
                j += 1;
                proof {
                    assert(extension[j - 1] == candidate@);
                    assert(candidate_views(candidates@) =~= candidate_views(previous).push(
                        candidate@,
                    ));
                    assert(candidate_views(candidates@) =~= before + extension.take(j as int));
                }
            }
            assert(extension.take(j as int) =~= extension);
        }
        i += 1;
    }
    candidates
}

/// Whether a device is an SPI Flash whose known ID bytes begin the detected ID.
fn detects(
    device: &DeviceRecord,
    chip_id: &[u8; 4],
    Ghost(detection): Ghost<Seq<u8>>,
) -> (detected: bool)
    requires
        detection.len() == 8,
        chip_id@ == detection.subrange(4, 8),
    ensures
        detected == is_detected(device@.raw, detection),
{
    let raw: &[u8] = device.raw();
    if raw[0x22] != 0 {
        return false;
    }
    let prefix: &[u8] = nul_terminated(slice_subrange(raw, 0x24, 0x28));
    if prefix.len() == 0 {
        return false;
    }
    proof {
        lemma_until_nul_prefix(raw@.subrange(0x24, 0x28));
        assert(chip_id@.subrange(0, prefix@.len() as int) =~= detection.subrange(
            4,
            4 + prefix@.len() as int,
        ));
    }
    let id: &[u8] = chip_id;
    same_bytes(slice_subrange(id, 0, prefix.len()), prefix)
}

/// The packages among keys that have a route and a class.
fn packages_with_class<'a>(
    packages: &'a PackageMap,
    classes: &[Option<u16>],
    keys: &[u8],
    class: u16,
) -> (found: Vec<&'a PackageRecord>)
    ensures
        found@.map_values(|package: &PackageRecord| package@) == matching_packages(
            packages@,
            classes@,
            keys@,
            class,
        ),
{
    let ghost keeps = |key: u8|
        packages@.contains_key(key) && class_of(classes@, key) == Some(class);
    let ghost route = |key: u8| packages@[key];
    let ghost view = |package: &PackageRecord| package@;
    let mut found: Vec<&'a PackageRecord> = Vec::new();
    let mut i: usize = 0;
    proof {
        reveal(Seq::filter);
        assert(keys@.take(0).filter(keeps).map_values(route) =~= Seq::<PackageRecordView>::empty());
        assert(found@.map_values(view) =~= Seq::<PackageRecordView>::empty());
    }
    while i < keys.len()
        invariant
            i <= keys@.len(),
            keeps == (|key: u8|
                packages@.contains_key(key) && class_of(classes@, key) == Some(class)),
            route == (|key: u8| packages@[key]),
            view == (|package: &PackageRecord| package@),
            found@.map_values(view) == keys@.take(i as int).filter(keeps).map_values(route),
        decreases keys@.len() - i,
    {
        let key: u8 = keys[i];
        let known: Option<u16> = if (key as usize) < classes.len() {
            classes[key as usize]
        } else {
            None
        };
        let suitable: bool = match known {
            Some(value) => value == class,
            None => false,
        };
        let ghost before = found@;
        let ghost kept = keys@.take(i as int).filter(keeps);
        proof {
            reveal(Seq::filter);
            assert(keys@.take(i + 1).drop_last() =~= keys@.take(i as int));
        }
        if suitable {
            if let Some(package) = packages.get(key) {
                found.push(package);
                assert(found@.map_values(view) =~= before.map_values(view).push(package@));
                assert(kept.push(key).map_values(route) =~= kept.map_values(route).push(
                    packages@[key],
                ));
            }
        }
        i += 1;
    }
    assert(keys@.take(i as int) =~= keys@);
    found
}

/// A candidate is made of the device with an index, its vendor, and the route of the
/// package key at a place in the list of the device.
spec fn is_made_of(
    candidate: IdentificationCandidateView,
    database: DeviceDatabaseView,
    routes: Map<u8, PackageRecordView>,
    package_keys: Seq<Seq<u8>>,
    classes: Seq<Option<u16>>,
    detection: Seq<u8>,
    index: int,
    place: int,
) -> bool {
    let device = database.devices[index];
    let key = package_keys[index][place];
    &&& index < package_keys.len()
    &&& 0 <= place < package_keys[index].len()
    &&& is_detected(device.raw, detection)
    &&& routes.contains_key(key)
    &&& class_of(classes, key) == Some(u16_at(detection, 0))
    &&& candidate.device == device
    &&& candidate.vendor == database.vendors[device.vendor_index as int]
    &&& candidate.package == routes[key]
}

/// Where a candidate comes from.
proof fn lemma_origin(
    database: DeviceDatabaseView,
    routes: Map<u8, PackageRecordView>,
    package_keys: Seq<Seq<u8>>,
    classes: Seq<Option<u16>>,
    detection: Seq<u8>,
    count: nat,
    at: int,
) -> (origin: (int, int))
    requires
        0 <= at < candidates_among(
            database,
            routes,
            package_keys,
            classes,
            detection,
            count,
        ).len(),
    ensures
        0 <= origin.0 < count,
        is_made_of(
            candidates_among(database, routes, package_keys, classes, detection, count)[at],
            database,
            routes,
            package_keys,
            classes,
            detection,
            origin.0,
            origin.1,
        ),
    decreases count,
{
    let index = count - 1;
    let before = candidates_among(
        database,
        routes,
        package_keys,
        classes,
        detection,
        index as nat,
    );
    if at < before.len() {
        lemma_origin(database, routes, package_keys, classes, detection, index as nat, at)
    } else {
        let keys = package_keys[index];
        let class = u16_at(detection, 0);
        let keeps = |key: u8| routes.contains_key(key) && class_of(classes, key) == Some(class);
        let kept = keys.filter(keeps);
        let key = kept[at - before.len()];
        keys.lemma_filter_pred(keeps, at - before.len());
        assert(kept.contains(key));
        keys.lemma_filter_contains_rev(keeps, key);
        let place = choose|place: int| 0 <= place < keys.len() && keys[place] == key;
        (index, place)
    }
}

/// Every candidate is one device of the catalog with its own vendor and one of its
/// packages. The vendor is the one whose number stands at offset 32 of the device
/// record. The device is of family 0 at offset 34, and its ID bytes from offset 36
/// on, as many as stand before a zero and at least one, are those that were
/// detected. The package is the route of a key of the device whose class is the
/// detected one.
#[verifier::rlimit(40)]
pub proof fn law_candidates_belong_together(
    bytes: Seq<u8>,
    file_name: Option<Seq<char>>,
    routes: Map<u8, PackageRecordView>,
    package_keys: Seq<Seq<u8>>,
    classes: Seq<Option<u16>>,
    detection: Seq<u8>,
    at: int,
)
    requires
        parsed_database(bytes, file_name) is Ok,
        detection.len() == 8,
        0 <= at < candidates_among(
            parsed_database(bytes, file_name)->Ok_0,
            routes,
            package_keys,
            classes,
            detection,
            parsed_database(bytes, file_name)->Ok_0.devices.len(),
        ).len(),
    ensures
        ({
            let database = parsed_database(bytes, file_name)->Ok_0;
            let candidate = candidates_among(
                database,
                routes,
                package_keys,
                classes,
                detection,
                database.devices.len(),
            )[at];
            let raw = candidate.device.raw;
            let index = candidate.device.source_index as int;
            &&& 0 <= index < database.devices.len() && index < package_keys.len()
            &&& candidate.device == database.devices[index]
            &&& database.vendors.contains(candidate.vendor)
            &&& candidate.vendor.source_index == raw[0x20]
            &&& raw[0x22] == 0
            &&& raw[0x24] != 0 && raw[0x24] == detection[4]
            &&& raw[0x25] != 0 ==> raw[0x25] == detection[5]
            &&& raw[0x25] != 0 && raw[0x26] != 0 ==> raw[0x26] == detection[6]
            &&& raw[0x25] != 0 && raw[0x26] != 0 && raw[0x27] != 0 ==> raw[0x27] == detection[7]
            &&& exists|key: u8| #[trigger]
                package_keys[index].contains(key) && routes.contains_key(key) && routes[key]
                    == candidate.package && key < classes.len() && classes[key as int] == Some(
                    half(detection, 0) as u16,
                )
        }),
{
    let database = parsed_database(bytes, file_name)->Ok_0;
    let count = database.devices.len();
    let (index, place) = lemma_origin(
        database,
        routes,
        package_keys,
        classes,
        detection,
        count,
        at,
    );
    law_records_read_their_own_fields(bytes, file_name);
    let device = database.devices[index];
    assert(database.vendors[device.raw[0x20] as int].source_index == device.raw[0x20]);
    lemma_detected_bytes(device.raw, detection);
    assert(package_keys[index].contains(package_keys[index][place]));
}

/// What it means byte by byte that a device is detected.
proof fn lemma_detected_bytes(raw: Seq<u8>, detection: Seq<u8>)
    requires
        raw.len() == 0x90,
        detection.len() == 8,
    ensures
        is_detected(raw, detection) <==> {
            &&& raw[0x22] == 0
            &&& raw[0x24] != 0 && raw[0x24] == detection[4]
            &&& raw[0x25] != 0 ==> raw[0x25] == detection[5]
            &&& raw[0x25] != 0 && raw[0x26] != 0 ==> raw[0x26] == detection[6]
            &&& raw[0x25] != 0 && raw[0x26] != 0 && raw[0x27] != 0 ==> raw[0x27] == detection[7]
        },
{
    let field = raw.subrange(0x24, 0x28);
    let length: int = if raw[0x24] == 0 {
        0
    } else if raw[0x25] == 0 {
        1
    } else if raw[0x26] == 0 {
        2
    } else if raw[0x27] == 0 {
        3
    } else {
        4
    };
    assert(field[0] == raw[0x24] && field[1] == raw[0x25] && field[2] == raw[0x26] && field[3]
        == raw[0x27]);
    lemma_until_nul(field, length);
    let prefix = known_prefix(raw);
    assert(prefix == field.take(length));
    let found = detection.subrange(4, 4 + length);
    assert(forall|i: int| 0 <= i < length ==> #[trigger] prefix[i] == raw[0x24 + i]);
    assert(forall|i: int| 0 <= i < length ==> #[trigger] found[i] == detection[4 + i]);
    if found == prefix {
        assert(length > 0 ==> found[0] == prefix[0]);
        assert(length > 1 ==> found[1] == prefix[1]);
        assert(length > 2 ==> found[2] == prefix[2]);
        assert(length > 3 ==> found[3] == prefix[3]);
    } else {
        assert(!(found =~= prefix));
    }
}

/// No candidate is missing: a device of family 0 whose ID bytes were detected is
/// listed with every package key of its own that has a route and the detected
/// class.
#[verifier::rlimit(40)]
pub proof fn law_no_candidate_is_missing(
    bytes: Seq<u8>,
    file_name: Option<Seq<char>>,
    routes: Map<u8, PackageRecordView>,
    package_keys: Seq<Seq<u8>>,
    classes: Seq<Option<u16>>,
    detection: Seq<u8>,
    index: int,
    key: u8,
) -> (at: int)
    requires
        parsed_database(bytes, file_name) is Ok,
        detection.len() == 8,
        0 <= index < parsed_database(bytes, file_name)->Ok_0.devices.len(),
        index < package_keys.len(),
        package_keys[index].contains(key),
        routes.contains_key(key),
        key < classes.len(),
        classes[key as int] == Some(half(detection, 0) as u16),
        ({
            let raw = parsed_database(bytes, file_name)->Ok_0.devices[index].raw;
            &&& raw[0x22] == 0
            &&& raw[0x24] != 0 && raw[0x24] == detection[4]
            &&& raw[0x25] != 0 ==> raw[0x25] == detection[5]
            &&& raw[0x25] != 0 && raw[0x26] != 0 ==> raw[0x26] == detection[6]
            &&& raw[0x25] != 0 && raw[0x26] != 0 && raw[0x27] != 0 ==> raw[0x27] == detection[7]
        }),
    ensures
        ({
            let database = parsed_database(bytes, file_name)->Ok_0;
            let found = candidates_among(
                database,
                routes,
                package_keys,
                classes,
                detection,
                database.devices.len(),
            );
            &&& 0 <= at < found.len()
            &&& found[at].device == database.devices[index]
            &&& found[at].vendor.source_index == database.devices[index].raw[0x20]
            &&& found[at].package == routes[key]
        }),
{
    let database = parsed_database(bytes, file_name)->Ok_0;
    law_records_read_their_own_fields(bytes, file_name);
    let device = database.devices[index];
    assert(database.vendors[device.raw[0x20] as int].source_index == device.raw[0x20]);
    lemma_detected_bytes(device.raw, detection);
    lemma_listed(
        database,
        routes,
        package_keys,
        classes,
        detection,
        database.devices.len(),
        index,
        key,
    )
}

proof fn lemma_listed(
    database: DeviceDatabaseView,
    routes: Map<u8, PackageRecordView>,
    package_keys: Seq<Seq<u8>>,
    classes: Seq<Option<u16>>,
    detection: Seq<u8>,
    count: nat,
    index: int,
    key: u8,
) -> (at: int)
    requires
        0 <= index < count,
        index < package_keys.len(),
        is_detected(database.devices[index].raw, detection),
        package_keys[index].contains(key),
        routes.contains_key(key),
        class_of(classes, key) == Some(u16_at(detection, 0)),
    ensures
        ({
            let found = candidates_among(
                database,
                routes,
                package_keys,
                classes,
                detection,
                count,
            );
            &&& 0 <= at < found.len()
            &&& found[at].device == database.devices[index]
            &&& found[at].vendor == database.vendors[database.devices[index].vendor_index as int]
            &&& found[at].package == routes[key]
        }),
    decreases count,
{
    if index < count - 1 {
        lemma_listed(
            database,
            routes,
            package_keys,
            classes,
            detection,
            (count - 1) as nat,
            index,
            key,
        )
    } else {
        let before = candidates_among(
            database,
            routes,
            package_keys,
            classes,
            detection,
            index as nat,
        );
        let keys = package_keys[index];
        let class = u16_at(detection, 0);
        let keeps = |key: u8| routes.contains_key(key) && class_of(classes, key) == Some(class);
        let kept = keys.filter(keeps);
        let place = choose|place: int| 0 <= place < keys.len() && keys[place] == key;
        keys.lemma_filter_contains(keeps, place);
        let j = choose|j: int| 0 <= j < kept.len() && kept[j] == key;
        before.len() + j
    }
}

/// Candidates come in the order of the catalog.
pub proof fn law_candidates_are_in_catalog_order(
    bytes: Seq<u8>,
    file_name: Option<Seq<char>>,
    routes: Map<u8, PackageRecordView>,
    package_keys: Seq<Seq<u8>>,
    classes: Seq<Option<u16>>,
    detection: Seq<u8>,
    first: int,
    second: int,
)
    requires
        parsed_database(bytes, file_name) is Ok,
        0 <= first <= second < candidates_among(
            parsed_database(bytes, file_name)->Ok_0,
            routes,
            package_keys,
            classes,
            detection,
            parsed_database(bytes, file_name)->Ok_0.devices.len(),
        ).len(),
    ensures
        ({
            let database = parsed_database(bytes, file_name)->Ok_0;
            let found = candidates_among(
                database,
                routes,
                package_keys,
                classes,
                detection,
                database.devices.len(),
            );
            found[first].device.source_index <= found[second].device.source_index
        }),
{
    let database = parsed_database(bytes, file_name)->Ok_0;
    law_records_read_their_own_fields(bytes, file_name);
    lemma_catalog_order(
        database,
        routes,
        package_keys,
        classes,
        detection,
        database.devices.len(),
        first,
        second,
    );
}

proof fn lemma_catalog_order(
    database: DeviceDatabaseView,
    routes: Map<u8, PackageRecordView>,
    package_keys: Seq<Seq<u8>>,
    classes: Seq<Option<u16>>,
    detection: Seq<u8>,
    count: nat,
    first: int,
    second: int,
)
    requires
        count <= database.devices.len(),
        forall|i: int|
            0 <= i < database.devices.len() ==> (#[trigger] database.devices[i]).source_index == i,
        0 <= first <= second < candidates_among(
            database,
            routes,
            package_keys,
            classes,
            detection,
            count,
        ).len(),
    ensures
        ({
            let found = candidates_among(
                database,
                routes,
                package_keys,
                classes,
                detection,
                count,
            );
            found[first].device.source_index <= found[second].device.source_index
        }),
    decreases count,
{
    let index = count - 1;
    let before = candidates_among(
        database,
        routes,
        package_keys,
        classes,
        detection,
        index as nat,
    );
    if second < before.len() {
        lemma_catalog_order(
            database,
            routes,
            package_keys,
            classes,
            detection,
            index as nat,
            first,
            second,
        );
    } else if first < before.len() {
        let (origin, _) = lemma_origin(
            database,
            routes,
            package_keys,
            classes,
            detection,
            index as nat,
            first,
        );
        assert(database.devices[origin].source_index == origin);
        assert(database.devices[index].source_index == index);
    }
}

} // verus!
