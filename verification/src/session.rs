//! Algorithm preparation: download, verification and device parameters.
//!
//! Which completion bytes count as success is decided by a policy that the
//! caller supplies.

use vstd::prelude::*;

use crate::assets::algorithm::{Algorithm, AlgorithmView};
use crate::bytes::same_bytes;
use crate::exchange::{
    carried_out, failed_read, failed_write, lemma_nothing_received, lemma_on_course_push,
    law_steps_on_course_succeeded, lemma_on_course_start, lemma_received_push,
    lemma_received_split, lemma_sent_split, lemma_sent_take, on_course, passes, received, replied,
    reply, sent, sent_by, succeeded, written, Step,
};
use crate::operations::{chunk_count, lemma_chunk_count};
use crate::protocol::{
    chunk_frame, chunk_payload, completion_accepted, completion_status_accepted, encodable_name,
    law_responses_confirm_by_name_and_mark, parsed_verification, plain_frame, AlgorithmChunk,
    AlgorithmVerification, CommandBlock, DeviceParameterImage, KnownCommand, ProtocolError,
    ALGORITHM_CHUNK_MAX_BYTES, COMMAND_BYTES,
};
use crate::text::same_letter;
use crate::transport::{
    read_bytes, Cancellation, Delay, InPipe, OutPipe, Transfer, TransferOptions, Transport,
    WaitLog, Waits, ALGORITHM_COMPLETION_TIMEOUT, ALGORITHM_VERIFY_TIMEOUT, COMMAND_TIMEOUT, PAYLOAD_TIMEOUT,
    POST_DOWNLOAD_DELAY,
};

verus! {

/// What tells one algorithm from another.
pub struct AlgorithmIdentityView {
    pub name: Seq<char>,
    pub timestamp: Seq<u8>,
    pub payload_length: nat,
    pub payload_crc32: u32,
}

/// The identity of an algorithm.
pub open spec fn identity_of(algorithm: AlgorithmView) -> AlgorithmIdentityView {
    AlgorithmIdentityView {
        name: algorithm.name,
        timestamp: algorithm.timestamp,
        payload_length: algorithm.payload.len(),
        payload_crc32: algorithm.payload_crc32,
    }
}

/// Stable identity retained by the host for one live device session.
#[derive(Debug, Clone, PartialEq, Eq)]
pub struct AlgorithmIdentity {
    name: String,
    timestamp: [u8; 8],
    payload_length: usize,
    payload_crc32: u32,
}

impl View for AlgorithmIdentity {
    type V = AlgorithmIdentityView;

    closed spec fn view(&self) -> AlgorithmIdentityView {
        AlgorithmIdentityView {
            name: self.name@,
            timestamp: self.timestamp@,
            payload_length: self.payload_length as nat,
            payload_crc32: self.payload_crc32,
        }
    }
}

impl AlgorithmIdentity {
    #[must_use]
    pub fn from_algorithm(algorithm: &Algorithm) -> (identity: Self)
        ensures
            identity@ == identity_of(algorithm@),
    {
        AlgorithmIdentity {
            name: algorithm.name().to_owned(),
            timestamp: algorithm.timestamp(),
            payload_length: algorithm.payload().len(),
            payload_crc32: algorithm.payload_crc32(),
        }
    }

    /// Whether two identities are the same.
    fn same(&self, other: &Self) -> (same: bool)
        ensures
            same == (self@ == other@),
    {
        self.name == other.name && same_bytes(&self.timestamp, &other.timestamp)
            && self.payload_length == other.payload_length && self.payload_crc32
            == other.payload_crc32
    }

    /// The same identity once more.
    fn copied(&self) -> (copy: Self)
        ensures
            copy@ == self@,
    {
        AlgorithmIdentity {
            name: self.name.clone(),
            timestamp: self.timestamp,
            payload_length: self.payload_length,
            payload_crc32: self.payload_crc32,
        }
    }

    #[must_use]
    pub fn name(&self) -> (name: &str)
        ensures
            name@ == self@.name,
    {
        self.name.as_str()
    }

    #[must_use]
    pub fn timestamp(&self) -> (timestamp: [u8; 8])
        ensures
            timestamp@ == self@.timestamp,
    {
        self.timestamp
    }

    #[must_use]
    pub fn payload_length(&self) -> (length: usize)
        ensures
            length == self@.payload_length,
    {
        self.payload_length
    }

    #[must_use]
    pub fn payload_crc32(&self) -> (crc: u32)
        ensures
            crc == self@.payload_crc32,
    {
        self.payload_crc32
    }
}

/// Where in the preparation a transfer belongs.
#[derive(Debug, Clone, Copy, PartialEq, Eq, Structural)]
pub enum TransferStage {
    VerifyCommandOut,
    VerifyResponseIn,
    AlgorithmCommandOut { offset: usize },
    AlgorithmPayloadOut { offset: usize },
    AlgorithmCompletionIn { offset: usize },
    DeviceParameterCommandOut,
    DeviceParameterPayloadOut,
    DeviceParameterCompletionIn,
}

/// Interpretation of a completion byte, which may depend on the firmware.
pub trait CompletionPolicy {
    /// The policy can be asked about every stage and every byte.
    spec fn usable(&self) -> bool;

    /// The policy may give this answer.
    spec fn may_answer(&self, stage: TransferStage, raw_status: u8, verdict: bool) -> bool;

    /// Whether the policy accepts a completion byte.
    #[must_use]
    fn accepts(&self, stage: TransferStage, raw_status: u8) -> (verdict: bool)
        requires
            self.usable(),
        ensures
            self.may_answer(stage, raw_status, verdict),
    ;
}

impl<F> CompletionPolicy for F where F: Fn(TransferStage, u8) -> bool {
    open spec fn usable(&self) -> bool {
        forall|stage: TransferStage, raw_status: u8| call_requires(*self, (stage, raw_status))
    }

    open spec fn may_answer(&self, stage: TransferStage, raw_status: u8, verdict: bool) -> bool {
        call_ensures(*self, (stage, raw_status), verdict)
    }

    fn accepts(&self, stage: TransferStage, raw_status: u8) -> bool {
        self(stage, raw_status)
    }
}

/// The policy that accepts what the protocol accepts, at every stage.
#[derive(Debug, Default, Clone, Copy)]
pub struct StaticCompletionPolicy;

impl CompletionPolicy for StaticCompletionPolicy {
    open spec fn usable(&self) -> bool {
        true
    }

    open spec fn may_answer(&self, stage: TransferStage, raw_status: u8, verdict: bool) -> bool {
        verdict == completion_accepted(raw_status)
    }

    fn accepts(&self, stage: TransferStage, raw_status: u8) -> bool {
        completion_status_accepted(raw_status)
    }
}

/// Failures of a preparation.
#[allow(inconsistent_fields)]
#[derive(Debug)]
pub enum PrepareError<E> {
    Protocol(ProtocolError),
    Transport { stage: TransferStage, source: E },
    CompletionRejected { stage: TransferStage, raw_status: u8 },
    PostDownloadVerification { expected_name: String, device_name: String, sentinel: u32 },
}

/// The completion bytes that a policy may accept.
pub open spec fn policy_judge<P: CompletionPolicy>(policy: P) -> spec_fn(
    TransferStage,
    u8,
) -> bool {
    |stage: TransferStage, raw_status: u8| policy.may_answer(stage, raw_status, true)
}

/// The request for the name of the loaded algorithm.
pub open spec fn verify_request() -> Step<TransferStage> {
    Step::Send {
        pipe: OutPipe::Command,
        bytes: plain_frame(KnownCommand::VerifyDeviceAlgorithm, 0, 0, 0),
        timeout: COMMAND_TIMEOUT,
        stage: TransferStage::VerifyCommandOut,
    }
}

/// Asking which algorithm is loaded, whatever the answer.
pub open spec fn check_plan() -> Seq<Step<TransferStage>> {
    seq![
        verify_request(),
        Step::Receive {
            pipe: InPipe::Response,
            length: COMMAND_BYTES as nat,
            timeout: ALGORITHM_VERIFY_TIMEOUT,
            stage: TransferStage::VerifyResponseIn,
        },
    ]
}

/// Asking whether the named algorithm is loaded; it must be.
pub open spec fn confirm_plan(name: Seq<char>) -> Seq<Step<TransferStage>> {
    seq![
        verify_request(),
        Step::Confirm { name, stage: TransferStage::VerifyResponseIn },
    ]
}

/// Sending an algorithm in chunks, each with its own command and completion.
pub open spec fn download_plan(algorithm: AlgorithmView) -> Seq<Step<TransferStage>> {
    Seq::new(
        3 * chunk_count(algorithm.payload.len(), ALGORITHM_CHUNK_MAX_BYTES as nat),
        |i: int|
            {
                let offset = (i / 3) * ALGORITHM_CHUNK_MAX_BYTES;
                let position = offset as usize;
                if i % 3 == 0 {
                    Step::Send {
                        pipe: OutPipe::Command,
                        bytes: chunk_frame(algorithm, offset),
                        timeout: COMMAND_TIMEOUT,
                        stage: TransferStage::AlgorithmCommandOut { offset: position },
                    }
                } else if i % 3 == 1 {
                    Step::Send {
                        pipe: OutPipe::Payload,
                        bytes: chunk_payload(algorithm, offset),
                        timeout: PAYLOAD_TIMEOUT,
                        stage: TransferStage::AlgorithmPayloadOut { offset: position },
                    }
                } else {
                    Step::Complete {
                        timeout: ALGORITHM_COMPLETION_TIMEOUT,
                        stage: TransferStage::AlgorithmCompletionIn { offset: position },
                    }
                }
            },
    )
}

/// Sending an algorithm and asking whether it arrived.
pub open spec fn installation_plan(algorithm: AlgorithmView) -> Seq<Step<TransferStage>> {
    download_plan(algorithm) + confirm_plan(algorithm.name)
}

/// Sending a device parameter image.
pub open spec fn parameters_plan(image: Seq<u8>) -> Seq<Step<TransferStage>> {
    seq![
        Step::Send {
            pipe: OutPipe::Command,
            bytes: plain_frame(KnownCommand::DownloadDeviceParameters, 0, 0, 0x800),
            timeout: COMMAND_TIMEOUT,
            stage: TransferStage::DeviceParameterCommandOut,
        },
        Step::Send {
            pipe: OutPipe::Payload,
            bytes: image,
            timeout: PAYLOAD_TIMEOUT,
            stage: TransferStage::DeviceParameterPayloadOut,
        },
        Step::Complete {
            timeout: ALGORITHM_COMPLETION_TIMEOUT,
            stage: TransferStage::DeviceParameterCompletionIn,
        },
    ]
}

/// A step of a preparation failed: the transfer in `tail` is all that it made,
/// and `error` is what it reports.
pub open spec fn prepare_step_error<P: CompletionPolicy, E>(
    policy: P,
    step: Step<TransferStage>,
    tail: Seq<Transfer<E>>,
    error: PrepareError<E>,
) -> bool {
    tail.len() == 1 && match step {
        Step::Send { pipe, bytes, timeout, stage } => {
            &&& failed_write(tail[0], pipe, bytes, timeout) matches Some(source)
            &&& error == (PrepareError::Transport { stage, source })
        },
        Step::Receive { pipe, length, timeout, stage } => {
            &&& failed_read(tail[0], pipe, length, timeout) matches Some(source)
            &&& error == (PrepareError::Transport { stage, source })
        },
        Step::Complete { timeout, stage } => {
            ||| {
                &&& failed_read(tail[0], InPipe::Completion, 1, timeout) matches Some(source)
                &&& error == (PrepareError::Transport { stage, source })
            }
            ||| {
                &&& replied(tail[0], InPipe::Completion, 1, timeout) matches Some(status)
                &&& policy.may_answer(stage, status[0], false)
                &&& error == (PrepareError::<E>::CompletionRejected {
                    stage,
                    raw_status: status[0],
                })
            }
        },
        Step::Confirm { name, stage } => {
            let timeout = ALGORITHM_VERIFY_TIMEOUT;
            ||| {
                &&& failed_read(tail[0], InPipe::Response, 64, timeout) matches Some(source)
                &&& error == (PrepareError::Transport { stage, source })
            }
            ||| {
                &&& replied(tail[0], InPipe::Response, 64, timeout) matches Some(bytes)
                &&& parsed_verification(bytes) matches Err(reason)
                &&& error matches PrepareError::Protocol(protocol)
                &&& protocol@ == reason
            }
            ||| {
                &&& replied(tail[0], InPipe::Response, 64, timeout) matches Some(bytes)
                &&& parsed_verification(bytes) matches Ok(verification)
                &&& !verification.confirms(name)
                &&& error matches PrepareError::PostDownloadVerification {
                    expected_name,
                    device_name,
                    sentinel,
                }
                &&& expected_name@ == name
                &&& device_name@ == verification.device_name
                &&& sentinel == verification.sentinel
            }
        },
    }
}

/// A preparation carried out `k` steps of the plan and failed in the next.
pub open spec fn prepare_stopped_at<P: CompletionPolicy, E>(
    policy: P,
    plan: Seq<Step<TransferStage>>,
    before: Seq<Transfer<E>>,
    after: Seq<Transfer<E>>,
    error: PrepareError<E>,
    k: int,
) -> bool {
    &&& after.len() == before.len() + k + 1
    &&& on_course(policy_judge(policy), plan, before, after.take(before.len() + k))
    &&& prepare_step_error(policy, plan[k], after.skip(before.len() + k), error)
}

/// A preparation carried out some steps of the plan and failed in the next.
pub open spec fn prepare_interrupted<P: CompletionPolicy, E>(
    policy: P,
    plan: Seq<Step<TransferStage>>,
    before: Seq<Transfer<E>>,
    after: Seq<Transfer<E>>,
    error: PrepareError<E>,
) -> bool {
    exists|k: int|
        0 <= k < plan.len() && #[trigger] prepare_stopped_at(policy, plan, before, after, error, k)
}

/// What following a plan does and returns.
pub open spec fn plan_outcome<P: CompletionPolicy, E, R>(
    policy: P,
    plan: Seq<Step<TransferStage>>,
    before: Seq<Transfer<E>>,
    after: Seq<Transfer<E>>,
    result: Result<R, PrepareError<E>>,
) -> bool {
    match result {
        Ok(_) => carried_out(policy_judge(policy), plan, before, after),
        Err(error) => prepare_interrupted(policy, plan, before, after, error),
    }
}

/// What a preparation does from the download on. A name that no chunk header
/// can carry is refused before the first transfer. There is one wait, behind
/// the last chunk and before the verification.
pub open spec fn fresh_outcome<P: CompletionPolicy, E, R>(
    policy: P,
    algorithm: AlgorithmView,
    last_plan: Seq<Step<TransferStage>>,
    before: Seq<Transfer<E>>,
    after: Seq<Transfer<E>>,
    waits_before: Waits,
    waits_after: Waits,
    result: Result<R, PrepareError<E>>,
) -> bool {
    if !encodable_name(algorithm.name) {
        &&& after == before
        &&& waits_after == waits_before
        &&& result matches Err(PrepareError::Protocol(protocol))
        &&& protocol@ == (ProtocolError::<Seq<char>>::AlgorithmName {
            name: algorithm.name,
            maximum_bytes: 15,
        })
    } else {
        &&& plan_outcome(policy, installation_plan(algorithm) + last_plan, before, after, result)
        &&& waits_after == if after.len() > before.len() + download_plan(algorithm).len() {
            waits_before.then_wait(
                POST_DOWNLOAD_DELAY,
                before.len() + download_plan(algorithm).len(),
            )
        } else {
            waits_before
        }
    }
}

/// What a preparation does and returns. Where the session already holds the
/// identity of the algorithm (`current`), the programmer is asked first which
/// algorithm is loaded, and a confirmed one is not sent again. The parameter
/// image is sent in either case.
pub open spec fn prepare_outcome<P: CompletionPolicy, E>(
    policy: P,
    current: bool,
    algorithm: AlgorithmView,
    image: Seq<u8>,
    before: Seq<Transfer<E>>,
    after: Seq<Transfer<E>>,
    waits_before: Waits,
    waits_after: Waits,
    result: Result<AlgorithmReady, PrepareError<E>>,
) -> bool {
    let last = parameters_plan(image);
    let asked = after.take(before.len() as int + 2);
    if !current {
        &&& fresh_outcome(
            policy,
            algorithm,
            last,
            before,
            after,
            waits_before,
            waits_after,
            result,
        )
        &&& result matches Ok(ready) ==> !ready.is_reused()
    } else {
        ||| {
            &&& result matches Err(error)
            &&& prepare_interrupted(policy, check_plan(), before, after, error)
            &&& waits_after == waits_before
        }
        ||| {
            &&& after.len() >= before.len() + 2
            &&& carried_out(policy_judge(policy), check_plan(), before, asked)
            &&& match parsed_verification(reply(asked.last(), InPipe::Response)) {
                Err(reason) => {
                    &&& after == asked
                    &&& waits_after == waits_before
                    &&& result matches Err(PrepareError::Protocol(protocol))
                    &&& protocol@ == reason
                },
                Ok(verification) => if verification.confirms(algorithm.name) {
                    &&& plan_outcome(policy, last, asked, after, result)
                    &&& waits_after == waits_before
                    &&& result matches Ok(ready) ==> ready.is_reused()
                } else {
                    &&& fresh_outcome(
                        policy,
                        algorithm,
                        last,
                        asked,
                        after,
                        waits_before,
                        waits_after,
                        result,
                    )
                    &&& result matches Ok(ready) ==> !ready.is_reused()
                },
            }
        }
    }
}

/// A prepared algorithm.
#[derive(Debug, Clone, PartialEq, Eq)]
pub struct AlgorithmReady {
    identity: AlgorithmIdentity,
    reused: bool,
    completion_statuses: Vec<u8>,
}

impl AlgorithmReady {
    /// The identity of the prepared algorithm.
    pub closed spec fn prepared(&self) -> AlgorithmIdentityView {
        self.identity@
    }

    /// The algorithm was already loaded.
    pub closed spec fn is_reused(&self) -> bool {
        self.reused
    }

    /// The completion bytes of the preparation.
    pub closed spec fn statuses(&self) -> Seq<u8> {
        self.completion_statuses@
    }

    #[must_use]
    pub fn identity(&self) -> (identity: &AlgorithmIdentity)
        ensures
            identity@ == self.prepared(),
    {
        &self.identity
    }

    #[must_use]
    pub fn reused(&self) -> (reused: bool)
        ensures
            reused == self.is_reused(),
    {
        self.reused
    }

    #[must_use]
    pub fn completion_statuses(&self) -> (statuses: &[u8])
        ensures
            statuses@ == self.statuses(),
    {
        self.completion_statuses.as_slice()
    }
}

/// State retained only for one live programmer transport session.
#[derive(Default)]
pub struct AlgorithmSession {
    ready_identity: Option<AlgorithmIdentity>,
    log: WaitLog,
}

impl AlgorithmSession {
    /// The identity that the programmer is known to hold.
    pub closed spec fn ready(&self) -> Option<AlgorithmIdentityView> {
        match self.ready_identity {
            Some(identity) => Some(identity@),
            None => None,
        }
    }

    /// For each wait of the session, how many transfers the transport had made
    /// when it began.
    pub closed spec fn wait_places(&self) -> Seq<nat> {
        self.log@
    }

    #[must_use]
    pub fn new() -> (session: Self)
        ensures
            session.ready() is None,
            session.wait_places() == Seq::<nat>::empty(),
    {
        AlgorithmSession { ready_identity: None, log: WaitLog::new() }
    }

    #[must_use]
    pub fn ready_identity(&self) -> (identity: Option<&AlgorithmIdentity>)
        ensures
            match (identity, self.ready()) {
                (Some(identity), Some(ready)) => identity@ == ready,
                (None, None) => true,
                _ => false,
            },
    {
        match &self.ready_identity {
            Some(identity) => Some(identity),
            None => None,
        }
    }

    pub fn reset(&mut self)
        ensures
            final(self).ready() is None,
            final(self).wait_places() == old(self).wait_places(),
    {
        self.ready_identity = None;
    }

    /// Ensures an algorithm is accepted by the device and always sends the
    /// independent device parameter image before returning ready.
    ///
    /// # Errors
    ///
    /// Returns [`PrepareError`] on encoding, transport, completion-policy, or
    /// post-download verification failure. No failed transport stage is
    /// automatically replayed. After any failure the device-side state is not
    /// trusted, even if it had been verified before.
    pub fn prepare<T, P, D>(
        &mut self,
        transport: &mut T,
        completion_policy: &P,
        delay: &mut D,
        cancellation: &dyn Cancellation,
        algorithm: &Algorithm,
        parameters: &DeviceParameterImage,
    ) -> (result: Result<AlgorithmReady, PrepareError<T::Error>>) where
        T: Transport,
        P: CompletionPolicy,
        D: Delay,

        requires
            completion_policy.usable(),
        ensures
            prepare_outcome(
                *completion_policy,
                old(self).ready() == Some(identity_of(algorithm@)),
                algorithm@,
                parameters@,
                old(transport).history(),
                final(transport).history(),
                (Waits { durations: old(delay).waits(), places: old(self).wait_places() }),
                (Waits { durations: final(delay).waits(), places: final(self).wait_places() }),
                result,
            ),
            match result {
                Ok(ready) => {
                    &&& ready.prepared() == identity_of(algorithm@)
                    &&& ready.statuses() == received(
                        old(transport).history(),
                        final(transport).history(),
                        InPipe::Completion,
                    )
                    &&& final(self).ready() == Some(identity_of(algorithm@))
                },
                Err(_) => final(self).ready() is None,
            },
    {
        let result = self.prepare_inner(
            transport,
            completion_policy,
            delay,
            cancellation,
            algorithm,
            parameters,
        );
        if result.is_err() {
            self.ready_identity = None;
        }
        result
    }

    #[verifier::rlimit(50)]
    fn prepare_inner<T, P, D>(
        &mut self,
        transport: &mut T,
        completion_policy: &P,
        delay: &mut D,
        cancellation: &dyn Cancellation,
        algorithm: &Algorithm,
        parameters: &DeviceParameterImage,
    ) -> (result: Result<AlgorithmReady, PrepareError<T::Error>>) where
        T: Transport,
        P: CompletionPolicy,
        D: Delay,

        requires
            completion_policy.usable(),
        ensures
            prepare_outcome(
                *completion_policy,
                old(self).ready() == Some(identity_of(algorithm@)),
                algorithm@,
                parameters@,
                old(transport).history(),
                final(transport).history(),
                (Waits { durations: old(delay).waits(), places: old(self).wait_places() }),
                (Waits { durations: final(delay).waits(), places: final(self).wait_places() }),
                result,
            ),
            result matches Ok(ready) ==> {
                &&& ready.prepared() == identity_of(algorithm@)
                &&& ready.statuses() == received(
                    old(transport).history(),
                    final(transport).history(),
                    InPipe::Completion,
                )
                &&& final(self).ready() == Some(identity_of(algorithm@))
            },
    {
        let ghost before = transport.history();
        let expected = AlgorithmIdentity::from_algorithm(algorithm);
        let current: bool = match &self.ready_identity {
            Some(identity) => identity.same(&expected),
            None => false,
        };
        let reused: bool = if current {
            let answer = verify_algorithm(transport, completion_policy, cancellation);
            proof {
                let after = transport.history();
                if after.len() == before.len() + 2 {
                    assert(after.take(before.len() as int + 2) =~= after);
                }
            }
            answer?.matches(algorithm.name())
        } else {
            false
        };
        let ghost start = transport.history();
        let mut statuses: Vec<u8> = Vec::new();
        let ghost last = parameters_plan(parameters@);
        let ghost plan = if reused {
            last
        } else {
            installation_plan(algorithm@) + last
        };
        proof {
            lemma_on_course_start(policy_judge(*completion_policy), plan, start);
            lemma_nothing_received(start, InPipe::Completion);
            lemma_nothing_received(before, InPipe::Completion);
        }
        if !reused {
            self.ready_identity = None;
            proof {
                assert(plan.take(installation_plan(algorithm@).len() as int) =~= installation_plan(
                    algorithm@,
                ));
            }
            match install_algorithm(
                transport,
                completion_policy,
                delay,
                &mut self.log,
                cancellation,
                algorithm,
                &mut statuses,
                Ghost(plan),
            ) {
                Ok(()) => {},
                Err(error) => {
                    proof {
                        if encodable_name(algorithm@.name) {
                            lemma_prepare_keeps_history(
                                *completion_policy,
                                plan,
                                start,
                                transport.history(),
                                error,
                            );
                        }
                        if current {
                            assert(transport.history().take(start.len() as int) =~= start);
                        }
                    }
                    return Err(error);
                },
            }
            self.ready_identity = Some(expected.copied());
        }
        proof {
            assert(plan.skip(transport.history().len() - start.len()) =~= last);
        }
        match send_parameters(
            transport,
            completion_policy,
            cancellation,
            parameters,
            &mut statuses,
            Ghost(plan),
            Ghost(start),
        ) {
            Ok(()) => {},
            Err(error) => {
                proof {
                    lemma_prepare_keeps_history(
                        *completion_policy,
                        plan,
                        start,
                        transport.history(),
                        error,
                    );
                }
                return Err(error);
            },
        }
        proof {
            lemma_received_split(before, start, transport.history(), InPipe::Completion);
            assert(statuses@ =~= received(before, transport.history(), InPipe::Completion));
        }
        Ok(AlgorithmReady { identity: expected, reused, completion_statuses: statuses })
    }
}

/// A preparation goes on with the given step.
spec fn next_step<P: CompletionPolicy, E>(
    policy: P,
    plan: Seq<Step<TransferStage>>,
    before: Seq<Transfer<E>>,
    now: Seq<Transfer<E>>,
    step: Step<TransferStage>,
) -> bool {
    &&& on_course(policy_judge(policy), plan, before, now)
    &&& now.len() - before.len() < plan.len()
    &&& plan[now.len() - before.len()] == step
}

proof fn lemma_prepare_keeps_history<P: CompletionPolicy, E>(
    policy: P,
    plan: Seq<Step<TransferStage>>,
    before: Seq<Transfer<E>>,
    after: Seq<Transfer<E>>,
    error: PrepareError<E>,
)
    requires
        prepare_interrupted(policy, plan, before, after, error),
    ensures
        before.len() < after.len(),
        before == after.take(before.len() as int),
{
    let k = choose|k: int|
        0 <= k < plan.len() && #[trigger] prepare_stopped_at(policy, plan, before, after, error, k);
    assert(after.take(before.len() + k).take(before.len() as int) =~= after.take(
        before.len() as int,
    ));
}

proof fn lemma_prepare_stopped<P: CompletionPolicy, E>(
    policy: P,
    plan: Seq<Step<TransferStage>>,
    before: Seq<Transfer<E>>,
    now: Seq<Transfer<E>>,
    event: Transfer<E>,
    error: PrepareError<E>,
)
    requires
        on_course(policy_judge(policy), plan, before, now),
        now.len() - before.len() < plan.len(),
        prepare_step_error(policy, plan[now.len() - before.len()], seq![event], error),
    ensures
        prepare_stopped_at(
            policy,
            plan,
            before,
            now.push(event),
            error,
            now.len() - before.len(),
        ),
{
    let after = now.push(event);
    let k: int = now.len() - before.len();
    assert(after.take(before.len() + k) =~= now);
    assert(after.skip(before.len() + k) =~= seq![event]);
}

fn send_step<T: Transport, P: CompletionPolicy>(
    transport: &mut T,
    policy: &P,
    cancellation: &dyn Cancellation,
    pipe: OutPipe,
    bytes: &[u8],
    timeout: u64,
    stage: TransferStage,
    Ghost(plan): Ghost<Seq<Step<TransferStage>>>,
    Ghost(before): Ghost<Seq<Transfer<T::Error>>>,
) -> (result: Result<(), PrepareError<T::Error>>)
    requires
        next_step(
            *policy,
            plan,
            before,
            old(transport).history(),
            (Step::Send { pipe, bytes: bytes@, timeout, stage }),
        ),
    ensures
        match result {
            Ok(_) => {
                &&& on_course(policy_judge(*policy), plan, before, final(transport).history())
                &&& final(transport).history().len() == old(transport).history().len() + 1
                &&& received(before, final(transport).history(), InPipe::Completion) == received(
                    before,
                    old(transport).history(),
                    InPipe::Completion,
                )
            },
            Err(error) => prepare_stopped_at(
                *policy,
                plan,
                before,
                final(transport).history(),
                error,
                old(transport).history().len() - before.len(),
            ),
        },
{
    let ghost now = transport.history();
    let outcome = transport.write_exact(pipe, bytes, TransferOptions { timeout, cancellation });
    let ghost event = Transfer::Write { pipe, bytes: bytes@, timeout, result: outcome };
    match outcome {
        Ok(()) => {
            proof {
                lemma_on_course_push(policy_judge(*policy), plan, before, now, event);
                lemma_received_push(before, now, event, InPipe::Completion);
                assert(received(before, now, InPipe::Completion) + Seq::<u8>::empty() =~= received(
                    before,
                    now,
                    InPipe::Completion,
                ));
            }
            Ok(())
        },
        Err(source) => {
            let error = PrepareError::Transport { stage, source };
            proof {
                lemma_prepare_stopped(*policy, plan, before, now, event, error);
            }
            Err(error)
        },
    }
}

fn completion_step<T: Transport, P: CompletionPolicy>(
    transport: &mut T,
    policy: &P,
    cancellation: &dyn Cancellation,
    stage: TransferStage,
    statuses: &mut Vec<u8>,
    Ghost(plan): Ghost<Seq<Step<TransferStage>>>,
    Ghost(before): Ghost<Seq<Transfer<T::Error>>>,
) -> (result: Result<(), PrepareError<T::Error>>)
    requires
        policy.usable(),
        next_step(
            *policy,
            plan,
            before,
            old(transport).history(),
            (Step::Complete { timeout: ALGORITHM_COMPLETION_TIMEOUT, stage }),
        ),
        old(statuses)@ == received(before, old(transport).history(), InPipe::Completion),
    ensures
        match result {
            Ok(_) => {
                &&& on_course(policy_judge(*policy), plan, before, final(transport).history())
                &&& final(transport).history().len() == old(transport).history().len() + 1
                &&& final(statuses)@ == received(
                    before,
                    final(transport).history(),
                    InPipe::Completion,
                )
            },
            Err(error) => prepare_stopped_at(
                *policy,
                plan,
                before,
                final(transport).history(),
                error,
                old(transport).history().len() - before.len(),
            ),
        },
{
    let ghost now = transport.history();
    let timeout: u64 = ALGORITHM_COMPLETION_TIMEOUT;
    match read_bytes(
        transport,
        InPipe::Completion,
        1,
        TransferOptions { timeout, cancellation },
    ) {
        Ok(bytes) => {
            let ghost event = Transfer::Read {
                pipe: InPipe::Completion,
                length: 1,
                timeout,
                result: Ok(bytes@),
            };
            let raw_status: u8 = bytes[0];
            statuses.push(raw_status);
            if !policy.accepts(stage, raw_status) {
                let error = PrepareError::CompletionRejected { stage, raw_status };
                proof {
                    lemma_prepare_stopped(*policy, plan, before, now, event, error);
                }
                return Err(error);
            }
            proof {
                lemma_on_course_push(policy_judge(*policy), plan, before, now, event);
                lemma_received_push(before, now, event, InPipe::Completion);
                assert(statuses@ =~= received(
                    before,
                    transport.history(),
                    InPipe::Completion,
                ));
            }
            Ok(())
        },
        Err(source) => {
            let error = PrepareError::Transport { stage, source };
            proof {
                let event = Transfer::Read {
                    pipe: InPipe::Completion,
                    length: 1,
                    timeout,
                    result: Err(source),
                };
                lemma_prepare_stopped(*policy, plan, before, now, event, error);
            }
            Err(error)
        },
    }
}

fn confirm_step<T: Transport, P: CompletionPolicy>(
    transport: &mut T,
    policy: &P,
    cancellation: &dyn Cancellation,
    name: &str,
    Ghost(plan): Ghost<Seq<Step<TransferStage>>>,
    Ghost(before): Ghost<Seq<Transfer<T::Error>>>,
) -> (result: Result<(), PrepareError<T::Error>>)
    requires
        next_step(
            *policy,
            plan,
            before,
            old(transport).history(),
            (Step::Confirm { name: name@, stage: TransferStage::VerifyResponseIn }),
        ),
    ensures
        match result {
            Ok(_) => {
                &&& on_course(policy_judge(*policy), plan, before, final(transport).history())
                &&& final(transport).history().len() == old(transport).history().len() + 1
                &&& received(before, final(transport).history(), InPipe::Completion) == received(
                    before,
                    old(transport).history(),
                    InPipe::Completion,
                )
            },
            Err(error) => prepare_stopped_at(
                *policy,
                plan,
                before,
                final(transport).history(),
                error,
                old(transport).history().len() - before.len(),
            ),
        },
{
    let ghost now = transport.history();
    let timeout: u64 = ALGORITHM_VERIFY_TIMEOUT;
    let error = match read_bytes(
        transport,
        InPipe::Response,
        COMMAND_BYTES,
        TransferOptions { timeout, cancellation },
    ) {
        Ok(bytes) => match AlgorithmVerification::parse(bytes.as_slice()) {
            Ok(verification) => {
                if verification.matches(name) {
                    proof {
                        let event = transport.history().last();
                        lemma_on_course_push(policy_judge(*policy), plan, before, now, event);
                        lemma_received_push(before, now, event, InPipe::Completion);
                        assert(received(before, now, InPipe::Completion) + Seq::<u8>::empty()
                            =~= received(before, now, InPipe::Completion));
                    }
                    return Ok(());
                }
                PrepareError::PostDownloadVerification {
                    expected_name: name.to_owned(),
                    device_name: verification.device_name().to_owned(),
                    sentinel: verification.sentinel(),
                }
            },
            Err(error) => PrepareError::Protocol(error),
        },
        Err(source) => PrepareError::Transport { stage: TransferStage::VerifyResponseIn, source },
    };
    proof {
        lemma_prepare_stopped(*policy, plan, before, now, transport.history().last(), error);
    }
    Err(error)
}

/// Asks which algorithm is loaded.
fn verify_algorithm<T: Transport, P: CompletionPolicy>(
    transport: &mut T,
    policy: &P,
    cancellation: &dyn Cancellation,
) -> (result: Result<AlgorithmVerification, PrepareError<T::Error>>)
    ensures
        ({
            let before = old(transport).history();
            let after = final(transport).history();
            let complete = carried_out(policy_judge(*policy), check_plan(), before, after);
            let parsed = parsed_verification(reply(after.last(), InPipe::Response));
            match result {
                Ok(verification) => {
                    &&& complete
                    &&& parsed == Ok::<_, ProtocolError<Seq<char>>>(verification@)
                    &&& received(before, after, InPipe::Completion) == Seq::<u8>::empty()
                },
                Err(error) => {
                    ||| prepare_interrupted(*policy, check_plan(), before, after, error)
                    ||| {
                        &&& complete
                        &&& parsed matches Err(reason)
                        &&& error matches PrepareError::Protocol(protocol)
                        &&& protocol@ == reason
                    }
                },
            }
        }),
{
    let ghost before = transport.history();
    let ghost plan = check_plan();
    proof {
        lemma_on_course_start(policy_judge(*policy), plan, before);
        lemma_nothing_received(before, InPipe::Completion);
    }
    let command = CommandBlock::verify_device_algorithm();
    let bytes: &[u8] = command.as_bytes();
    send_step(
        transport,
        policy,
        cancellation,
        OutPipe::Command,
        bytes,
        COMMAND_TIMEOUT,
        TransferStage::VerifyCommandOut,
        Ghost(plan),
        Ghost(before),
    )?;
    let ghost now = transport.history();
    let timeout: u64 = ALGORITHM_VERIFY_TIMEOUT;
    match read_bytes(
        transport,
        InPipe::Response,
        COMMAND_BYTES,
        TransferOptions { timeout, cancellation },
    ) {
        Ok(bytes) => {
            proof {
                let event = transport.history().last();
                lemma_on_course_push(policy_judge(*policy), plan, before, now, event);
                lemma_received_push(before, now, event, InPipe::Completion);
                assert(received(before, transport.history(), InPipe::Completion) =~= Seq::<
                    u8,
                >::empty());
            }
            match AlgorithmVerification::parse(bytes.as_slice()) {
                Ok(verification) => Ok(verification),
                Err(error) => Err(PrepareError::Protocol(error)),
            }
        },
        Err(source) => {
            let error = PrepareError::Transport { stage: TransferStage::VerifyResponseIn, source };
            proof {
                lemma_prepare_stopped(
                    *policy,
                    plan,
                    before,
                    now,
                    transport.history().last(),
                    error,
                );
            }
            Err(error)
        },
    }
}

/// Sends an algorithm and asks whether it arrived: the first steps of a plan.
#[verifier::rlimit(50)]
pub(crate) fn install_algorithm<T: Transport, P: CompletionPolicy, D: Delay>(
    transport: &mut T,
    policy: &P,
    delay: &mut D,
    log: &mut WaitLog,
    cancellation: &dyn Cancellation,
    algorithm: &Algorithm,
    statuses: &mut Vec<u8>,
    Ghost(plan): Ghost<Seq<Step<TransferStage>>>,
) -> (result: Result<(), PrepareError<T::Error>>)
    requires
        policy.usable(),
        plan.len() >= installation_plan(algorithm@).len(),
        plan.take(installation_plan(algorithm@).len() as int) == installation_plan(algorithm@),
        old(statuses)@ == Seq::<u8>::empty(),
    ensures
        ({
            let before = old(transport).history();
            let after = final(transport).history();
            let waits = Waits { durations: old(delay).waits(), places: old(log)@ };
            let waits_after = Waits { durations: final(delay).waits(), places: final(log)@ };
            let waited = waits.then_wait(
                POST_DOWNLOAD_DELAY,
                before.len() + download_plan(algorithm@).len(),
            );
            match result {
                Ok(_) => {
                    &&& encodable_name(algorithm@.name)
                    &&& on_course(policy_judge(*policy), plan, before, after)
                    &&& after.len() == before.len() + installation_plan(algorithm@).len()
                    &&& final(statuses)@ == received(before, after, InPipe::Completion)
                    &&& waits_after == waited
                },
                Err(error) => if encodable_name(algorithm@.name) {
                    &&& prepare_interrupted(*policy, plan, before, after, error)
                    &&& after.len() <= before.len() + installation_plan(algorithm@).len()
                    &&& waits_after == if after.len() > before.len() + download_plan(
                        algorithm@,
                    ).len() {
                        waited
                    } else {
                        waits
                    }
                } else {
                    &&& after == before
                    &&& waits_after == waits
                    &&& error matches PrepareError::Protocol(protocol)
                    &&& protocol@ == (ProtocolError::<Seq<char>>::AlgorithmName {
                        name: algorithm@.name,
                        maximum_bytes: 15,
                    })
                },
            }
        }),
{
    let ghost before = transport.history();
    let ghost contents = algorithm@;
    let payload: &[u8] = algorithm.payload();
    let ghost count = chunk_count(payload@.len(), ALGORITHM_CHUNK_MAX_BYTES as nat);
    let ghost install = installation_plan(contents);
    proof {
        lemma_on_course_start(policy_judge(*policy), plan, before);
        lemma_nothing_received(before, InPipe::Completion);
        lemma_chunk_count(payload@.len(), ALGORITHM_CHUNK_MAX_BYTES as nat, 0);
        assert forall|i: int| 0 <= i < install.len() implies #[trigger] plan[i] == install[i] by {
            assert(plan[i] == plan.take(install.len() as int)[i]);
        }
    }
    let mut offset: usize = 0;
    let ghost mut index: int = 0;
    while offset < payload.len()
        invariant
            policy.usable(),
            contents == algorithm@,
            payload@ == contents.payload,
            1 <= payload@.len() <= 0x4000,
            before == old(transport).history(),
            count == chunk_count(payload@.len(), ALGORITHM_CHUNK_MAX_BYTES as nat),
            install == installation_plan(contents),
            plan.len() >= install.len(),
            forall|i: int| 0 <= i < install.len() ==> #[trigger] plan[i] == install[i],
            delay.waits() == old(delay).waits(),
            0 <= index <= count,
            offset == index * ALGORITHM_CHUNK_MAX_BYTES,
            index < count <==> index * ALGORITHM_CHUNK_MAX_BYTES < payload@.len(),
            index > 0 ==> encodable_name(contents.name),
            on_course(policy_judge(*policy), plan, before, transport.history()),
            transport.history().len() == before.len() + 3 * index,
            statuses@ == received(before, transport.history(), InPipe::Completion),
        decreases count - index,
    {
        let chunk = match AlgorithmChunk::new(algorithm, offset) {
            Ok(chunk) => chunk,
            Err(error) => {
                assert(transport.history() =~= before);
                return Err(PrepareError::Protocol(error));
            },
        };
        proof {
            assert((3 * index) / 3 == index && (3 * index) % 3 == 0);
            assert((3 * index + 1) / 3 == index && (3 * index + 1) % 3 == 1);
            assert((3 * index + 2) / 3 == index && (3 * index + 2) % 3 == 2);
            assert(plan[3 * index] == install[3 * index]);
            assert(plan[3 * index + 1] == install[3 * index + 1]);
            assert(plan[3 * index + 2] == install[3 * index + 2]);
        }
        let command: &[u8] = chunk.command().as_bytes();
        send_step(
            transport,
            policy,
            cancellation,
            OutPipe::Command,
            command,
            COMMAND_TIMEOUT,
            TransferStage::AlgorithmCommandOut { offset },
            Ghost(plan),
            Ghost(before),
        )?;
        send_step(
            transport,
            policy,
            cancellation,
            OutPipe::Payload,
            chunk.payload(),
            PAYLOAD_TIMEOUT,
            TransferStage::AlgorithmPayloadOut { offset },
            Ghost(plan),
            Ghost(before),
        )?;
        completion_step(
            transport,
            policy,
            cancellation,
            TransferStage::AlgorithmCompletionIn { offset },
            statuses,
            Ghost(plan),
            Ghost(before),
        )?;
        offset += ALGORITHM_CHUNK_MAX_BYTES;
        proof {
            lemma_chunk_count(payload@.len(), ALGORITHM_CHUNK_MAX_BYTES as nat, index + 1);
            index = index + 1;
        }
    }
    proof {
        assert(index == count);
        assert(plan[3 * index] == install[3 * index]);
        assert(plan[3 * index + 1] == install[3 * index + 1]);
    }
    log.wait(transport, delay, POST_DOWNLOAD_DELAY);
    let command = CommandBlock::verify_device_algorithm();
    let bytes: &[u8] = command.as_bytes();
    send_step(
        transport,
        policy,
        cancellation,
        OutPipe::Command,
        bytes,
        COMMAND_TIMEOUT,
        TransferStage::VerifyCommandOut,
        Ghost(plan),
        Ghost(before),
    )?;
    confirm_step(transport, policy, cancellation, algorithm.name(), Ghost(plan), Ghost(before))
}

/// Sends a device parameter image: the last steps of a plan.
fn send_parameters<T: Transport, P: CompletionPolicy>(
    transport: &mut T,
    policy: &P,
    cancellation: &dyn Cancellation,
    parameters: &DeviceParameterImage,
    statuses: &mut Vec<u8>,
    Ghost(plan): Ghost<Seq<Step<TransferStage>>>,
    Ghost(before): Ghost<Seq<Transfer<T::Error>>>,
) -> (result: Result<(), PrepareError<T::Error>>)
    requires
        policy.usable(),
        on_course(policy_judge(*policy), plan, before, old(transport).history()),
        plan.skip(old(transport).history().len() - before.len()) == parameters_plan(parameters@),
        old(statuses)@ == received(before, old(transport).history(), InPipe::Completion),
    ensures
        match result {
            Ok(_) => {
                &&& carried_out(policy_judge(*policy), plan, before, final(transport).history())
                &&& final(statuses)@ == received(
                    before,
                    final(transport).history(),
                    InPipe::Completion,
                )
            },
            Err(error) => {
                &&& prepare_interrupted(*policy, plan, before, final(transport).history(), error)
                &&& final(transport).history().len() > old(transport).history().len()
            },
        },
{
    let ghost done: int = transport.history().len() - before.len();
    let ghost last = parameters_plan(parameters@);
    proof {
        assert(last.len() == 3);
        assert(plan.len() == done + 3);
        assert(plan[done] == plan.skip(done)[0]);
        assert(plan[done + 1] == plan.skip(done)[1]);
        assert(plan[done + 2] == plan.skip(done)[2]);
    }
    let command = CommandBlock::download_device_parameters();
    let bytes: &[u8] = command.as_bytes();
    send_step(
        transport,
        policy,
        cancellation,
        OutPipe::Command,
        bytes,
        COMMAND_TIMEOUT,
        TransferStage::DeviceParameterCommandOut,
        Ghost(plan),
        Ghost(before),
    )?;
    let image: &[u8] = parameters.as_bytes();
    send_step(
        transport,
        policy,
        cancellation,
        OutPipe::Payload,
        image,
        PAYLOAD_TIMEOUT,
        TransferStage::DeviceParameterPayloadOut,
        Ghost(plan),
        Ghost(before),
    )?;
    completion_step(
        transport,
        policy,
        cancellation,
        TransferStage::DeviceParameterCompletionIn,
        statuses,
        Ghost(plan),
        Ghost(before),
    )
}

/// A failed transfer is not replayed: when a preparation is interrupted, every
/// transfer that it made before its last one has succeeded.
pub proof fn law_failed_preparation_steps_are_not_replayed<P: CompletionPolicy, E>(
    policy: P,
    plan: Seq<Step<TransferStage>>,
    before: Seq<Transfer<E>>,
    after: Seq<Transfer<E>>,
    error: PrepareError<E>,
    i: int,
)
    requires
        prepare_interrupted(policy, plan, before, after, error),
        before.len() <= i < after.len() - 1,
    ensures
        succeeded(after[i]),
{
    let k = choose|k: int|
        0 <= k < plan.len() && #[trigger] prepare_stopped_at(policy, plan, before, after, error, k);
    let course = after.take(before.len() + k);
    law_steps_on_course_succeeded(policy_judge(policy), plan, before, course, i);
    assert(course[i] == after[i]);
}

/// A preparation that succeeds has handed the payload pipe the whole algorithm,
/// unless the programmer confirmed that it was loaded, and always the whole
/// parameter image behind it.
#[verifier::rlimit(50)]
pub proof fn law_preparation_always_sends_parameters<P: CompletionPolicy, E>(
    policy: P,
    current: bool,
    algorithm: AlgorithmView,
    image: Seq<u8>,
    before: Seq<Transfer<E>>,
    after: Seq<Transfer<E>>,
    waits_before: Waits,
    waits_after: Waits,
    ready: AlgorithmReady,
)
    requires
        prepare_outcome(
            policy,
            current,
            algorithm,
            image,
            before,
            after,
            waits_before,
            waits_after,
            Ok(ready),
        ),
    ensures
        sent(before, after, OutPipe::Payload) == if ready.is_reused() {
            image
        } else {
            algorithm.payload + image
        },
{
    let last = parameters_plan(image);
    let judge = policy_judge(policy);
    let start = if current {
        after.take(before.len() as int + 2)
    } else {
        before
    };
    if current {
        assert(passes(judge, check_plan()[0], start[before.len() + 0int]));
        assert(passes(judge, check_plan()[1], start[before.len() + 1int]));
        lemma_sent_take(before, start, before.len() as int + 1, OutPipe::Payload);
        lemma_sent_take(before, start, before.len() as int + 2, OutPipe::Payload);
        assert(start.take(before.len() as int).skip(before.len() as int).len() == 0);
        assert(start.take(before.len() as int + 2) =~= start);
    } else {
        assert(before.skip(before.len() as int).len() == 0);
    }
    assert(sent(before, start, OutPipe::Payload) =~= Seq::<u8>::empty());
    let plan = if ready.is_reused() {
        last
    } else {
        installation_plan(algorithm) + last
    };
    assert(carried_out(judge, plan, start, after));
    let done: int = plan.len() - 3;
    let payload = if ready.is_reused() {
        Seq::<u8>::empty()
    } else {
        algorithm.payload
    };
    let base: int = start.len() + done;
    if ready.is_reused() {
        assert(after.take(base) =~= start);
        assert(start.skip(start.len() as int).len() == 0);
        assert(sent(start, after.take(base), OutPipe::Payload) =~= payload);
    } else {
        let count: int = chunk_count(algorithm.payload.len(), ALGORITHM_CHUNK_MAX_BYTES as nat) as int;
        lemma_chunk_count(algorithm.payload.len(), ALGORITHM_CHUNK_MAX_BYTES as nat, count);
        lemma_downloaded_prefix(judge, algorithm, plan, start, after, count);
        let verified: int = start.len() + 3 * count;
        assert(plan[3 * count] == confirm_plan(algorithm.name)[0]);
        assert(plan[3 * count + 1] == confirm_plan(algorithm.name)[1]);
        assert(passes(judge, plan[3 * count], after[start.len() + (3 * count)]));
        assert(passes(judge, plan[3 * count + 1], after[start.len() + (3 * count + 1)]));
        lemma_sent_take(start, after, verified + 1, OutPipe::Payload);
        lemma_sent_take(start, after, verified + 2, OutPipe::Payload);
        assert(algorithm.payload.take(algorithm.payload.len() as int) =~= algorithm.payload);
        assert(sent(start, after.take(base), OutPipe::Payload) =~= payload);
    }
    assert(plan[done] == last[0]);
    assert(plan[done + 1] == last[1]);
    assert(plan[done + 2] == last[2]);
    assert(passes(judge, plan[done], after[start.len() + done]));
    assert(passes(judge, plan[done + 1], after[start.len() + (done + 1)]));
    assert(passes(judge, plan[done + 2], after[start.len() + (done + 2)]));
    lemma_sent_take(start, after, base + 1, OutPipe::Payload);
    lemma_sent_take(start, after, base + 2, OutPipe::Payload);
    lemma_sent_take(start, after, base + 3, OutPipe::Payload);
    assert(after.take(base + 3) =~= after);
    assert(sent(start, after, OutPipe::Payload) =~= payload + image);
    lemma_sent_split(before, start, after, OutPipe::Payload);
    assert(sent(before, after, OutPipe::Payload) =~= payload + image);
    assert(Seq::<u8>::empty() + image =~= image);
}

/// A preparation that sent the algorithm waited once, for 100 ms: behind the
/// completion of the last chunk and directly before the command that asks
/// whether the algorithm arrived.
#[verifier::rlimit(50)]
pub proof fn law_the_wait_precedes_the_verification<P: CompletionPolicy, E>(
    policy: P,
    current: bool,
    algorithm: AlgorithmView,
    image: Seq<u8>,
    before: Seq<Transfer<E>>,
    after: Seq<Transfer<E>>,
    waits_before: Waits,
    waits_after: Waits,
    ready: AlgorithmReady,
)
    requires
        algorithm.valid(),
        prepare_outcome(
            policy,
            current,
            algorithm,
            image,
            before,
            after,
            waits_before,
            waits_after,
            Ok(ready),
        ),
        !ready.is_reused(),
    ensures
        waits_after.durations == waits_before.durations.push(100),
        ({
            let place = waits_after.places.last() as int;
            &&& waits_after.places == waits_before.places.push(place as nat)
            &&& before.len() < place < after.len()
            &&& replied(
                after[place - 1],
                InPipe::Completion,
                1,
                ALGORITHM_COMPLETION_TIMEOUT,
            ) is Some
            &&& written(
                after[place],
                OutPipe::Command,
                plain_frame(KnownCommand::VerifyDeviceAlgorithm, 0, 0, 0),
                COMMAND_TIMEOUT,
            )
        }),
{
    let judge = policy_judge(policy);
    let start = if current {
        after.take(before.len() as int + 2)
    } else {
        before
    };
    let plan = installation_plan(algorithm) + parameters_plan(image);
    assert(carried_out(judge, plan, start, after));
    let count: int = chunk_count(algorithm.payload.len(), ALGORITHM_CHUNK_MAX_BYTES as nat) as int;
    lemma_chunk_count(algorithm.payload.len(), ALGORITHM_CHUNK_MAX_BYTES as nat, 0);
    let done: int = 3 * count;
    assert((done - 1) % 3 == 2);
    assert(plan[done - 1] == download_plan(algorithm)[done - 1]);
    assert(plan[done] == confirm_plan(algorithm.name)[0]);
    assert(passes(judge, plan[done - 1], after[start.len() + (done - 1)]));
    assert(passes(judge, plan[done], after[start.len() + done]));
}

proof fn lemma_downloaded_prefix<E>(
    judge: spec_fn(TransferStage, u8) -> bool,
    algorithm: AlgorithmView,
    plan: Seq<Step<TransferStage>>,
    before: Seq<Transfer<E>>,
    after: Seq<Transfer<E>>,
    chunks: int,
)
    requires
        carried_out(judge, plan, before, after),
        plan.len() >= download_plan(algorithm).len(),
        forall|i: int|
            0 <= i < download_plan(algorithm).len() ==> #[trigger] plan[i] == download_plan(
                algorithm,
            )[i],
        0 <= chunks <= chunk_count(algorithm.payload.len(), ALGORITHM_CHUNK_MAX_BYTES as nat),
    ensures
        sent(before, after.take(before.len() + 3 * chunks), OutPipe::Payload)
            == algorithm.payload.take(
            if chunks * ALGORITHM_CHUNK_MAX_BYTES < algorithm.payload.len() {
                chunks * ALGORITHM_CHUNK_MAX_BYTES
            } else {
                algorithm.payload.len() as int
            },
        ),
    decreases chunks,
{
    let data = algorithm.payload;
    if chunks == 0 {
        assert(after.take(before.len() as int).skip(before.len() as int).len() == 0);
        assert(data.take(0) =~= Seq::<u8>::empty());
    } else {
        let index: int = chunks - 1;
        lemma_downloaded_prefix(judge, algorithm, plan, before, after, index);
        lemma_chunk_count(data.len(), ALGORITHM_CHUNK_MAX_BYTES as nat, index);
        let base: int = before.len() + 3 * index;
        lemma_sent_take(before, after, base + 1, OutPipe::Payload);
        lemma_sent_take(before, after, base + 2, OutPipe::Payload);
        lemma_sent_take(before, after, base + 3, OutPipe::Payload);
        assert((3 * index) / 3 == index && (3 * index) % 3 == 0);
        assert((3 * index + 1) / 3 == index && (3 * index + 1) % 3 == 1);
        assert((3 * index + 2) / 3 == index && (3 * index + 2) % 3 == 2);
        assert(plan[3 * index] == download_plan(algorithm)[3 * index]);
        assert(plan[3 * index + 1] == download_plan(algorithm)[3 * index + 1]);
        assert(plan[3 * index + 2] == download_plan(algorithm)[3 * index + 2]);
        assert(passes(judge, plan[3 * index], after[before.len() + (3 * index)]));
        assert(passes(judge, plan[3 * index + 1], after[before.len() + (3 * index + 1)]));
        assert(passes(judge, plan[3 * index + 2], after[before.len() + (3 * index + 2)]));
        let offset: int = index * ALGORITHM_CHUNK_MAX_BYTES;
        let piece = chunk_payload(algorithm, offset);
        assert(sent_by(after[base + 1], OutPipe::Payload) == piece);
        assert(sent(before, after.take(base + 3), OutPipe::Payload) =~= data.take(offset) + piece);
        assert(data.take(offset) + piece =~= data.take(offset + piece.len()));
    }
}

/// Two algorithms have the same identity if and only if they have the same name, the
/// same timestamp, and payloads of the same length and CRC32.
pub proof fn law_identities_tell_algorithms_apart(left: AlgorithmView, right: AlgorithmView)
    ensures
        identity_of(left) == identity_of(right) <==> left.name == right.name && left.timestamp
            == right.timestamp && left.payload.len() == right.payload.len() && left.payload_crc32
            == right.payload_crc32,
{
}

/// An algorithm is used again without being sent only if the session knew it and the
/// programmer confirmed it: the answer to the question which algorithm is loaded
/// holds its name up to case with a zero behind it, and ends with four bytes 0x55. A
/// session that knew it sends it again only if that was not the answer.
#[verifier::rlimit(50)]
pub proof fn law_reuse_needs_confirmation<P: CompletionPolicy, E>(
    policy: P,
    current: bool,
    algorithm: AlgorithmView,
    image: Seq<u8>,
    before: Seq<Transfer<E>>,
    after: Seq<Transfer<E>>,
    waits_before: Waits,
    waits_after: Waits,
    ready: AlgorithmReady,
)
    requires
        algorithm.valid(),
        algorithm.name.len() < 16,
        prepare_outcome(
            policy,
            current,
            algorithm,
            image,
            before,
            after,
            waits_before,
            waits_after,
            Ok(ready),
        ),
    ensures
        ready.is_reused() ==> current,
        current ==> {
            let answer = reply(after[before.len() as int + 1], InPipe::Response);
            let name = algorithm.name;
            &&& answer.len() == 64
            &&& ready.is_reused() <==> {
                &&& answer[60] == 0x55 && answer[61] == 0x55 && answer[62] == 0x55 && answer[63]
                    == 0x55
                &&& answer[name.len() as int] == 0
                &&& forall|i: int|
                    0 <= i < name.len() ==> answer[i] != 0 && answer[i] < 0x80 && same_letter(
                        (#[trigger] answer[i]) as char,
                        name[i],
                    )
            }
        },
{
    if current {
        let base = before.len() as int;
        let asked = after.take(base + 2);
        let judge = policy_judge(policy);
        assert(carried_out(judge, check_plan(), before, asked));
        assert(passes(judge, check_plan()[1], asked[base + 1]));
        assert(asked[base + 1] == after[base + 1]);
        assert(asked.last() == after[base + 1]);
        let answer = reply(after[base + 1], InPipe::Response);
        law_responses_confirm_by_name_and_mark(answer, algorithm.name);
    }
}

} // verus!
