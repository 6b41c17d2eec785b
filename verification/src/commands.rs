//! Commands on a resolved target: making it ready, and moving its project.

use vstd::prelude::*;

use crate::assets::algorithm::AlgorithmView;
use crate::bytes::u32_at;
use crate::checksum::crc32;
use crate::exchange::{carried_out, passes, received, sent, written};
use crate::operations::{
    adapter_check_plan, chunk_bucket, chunk_size, interrupted, law_programming_sends_the_whole_data,
    program_outcome, program_plan, read_outcome, read_plan, static_judge, target_probe_plan,
    verify_outcome, AdapterCheckResult, OperationError, OperationReceipt, OperationSession,
    OperationTimings, ReadResult, TargetProbeResult, DIAGNOSTIC_TIMEOUT, VERIFY_DATA_TIMEOUT,
};
use crate::protocol::{plain_frame, KnownCommand, DEVICE_PARAMETER_BYTES};
use crate::session::{
    identity_of, prepare_outcome, AlgorithmReady, AlgorithmSession, PrepareError,
    StaticCompletionPolicy,
};
use crate::target::{
    compared_length, ensure_flash_readback, law_resolved_images_describe_the_project,
    readback_error, region_error, resolution, validate_region_length, ReadbackError, RequestError,
    ResolvedTarget, TargetAssets, TargetRequest,
};
use crate::transport::{
    Cancellation, Delay, InPipe, OutPipe, Transfer, Transport, Waits, COMMAND_TIMEOUT,
};

verus! {

/// The deadlines of a session that was given none.
pub open spec fn usual_timings() -> OperationTimings {
    OperationTimings { completion: 600, diagnostic: DIAGNOSTIC_TIMEOUT }
}

/// A target whose algorithm is loaded and whose adapter and chip answered.
#[derive(Debug, Clone, PartialEq, Eq)]
pub struct TargetReady {
    pub algorithm: AlgorithmReady,
    pub adapter: AdapterCheckResult,
    pub probe: TargetProbeResult,
}

/// Where making a target ready ended, with what was done before.
#[allow(inconsistent_fields)]
#[derive(Debug)]
pub enum ReadyError<E> {
    Preparation(PrepareError<E>),
    AdapterCheck { algorithm: AlgorithmReady, error: OperationError<E> },
    TargetProbe { algorithm: AlgorithmReady, adapter: AdapterCheckResult, error: OperationError<E> },
}

/// A session prepared the algorithm and sent the parameter image.
pub open spec fn is_prepared<E>(
    current: bool,
    algorithm: AlgorithmView,
    image: Seq<u8>,
    before: Seq<Transfer<E>>,
    prepared: Seq<Transfer<E>>,
    waits_before: Waits,
    waits_after: Waits,
    ready: AlgorithmReady,
) -> bool {
    &&& prepare_outcome(
        StaticCompletionPolicy,
        current,
        algorithm,
        image,
        before,
        prepared,
        waits_before,
        waits_after,
        Ok(ready),
    )
    &&& ready.prepared() == identity_of(algorithm)
    &&& ready.statuses() == received(before, prepared, InPipe::Completion)
}

/// The adapter check succeeded.
pub open spec fn is_checked<E>(
    before: Seq<Transfer<E>>,
    after: Seq<Transfer<E>>,
    adapter: AdapterCheckResult,
) -> bool {
    &&& carried_out(static_judge(), adapter_check_plan(), before, after)
    &&& adapter.receipt@ == received(before, after, InPipe::Completion)
}

/// The target probe succeeded.
pub open spec fn is_probed<E>(
    before: Seq<Transfer<E>>,
    after: Seq<Transfer<E>>,
    probe: TargetProbeResult,
) -> bool {
    &&& carried_out(static_judge(), target_probe_plan(), before, after)
    &&& probe.receipt@ == received(before, after, InPipe::Completion)
}

/// A target was made ready, or that ended behind the preparation: the algorithm
/// was prepared until `prepared`, and where the adapter check succeeded, it did
/// until `checked`.
pub open spec fn ready_through<E>(
    current: bool,
    algorithm: AlgorithmView,
    image: Seq<u8>,
    before: Seq<Transfer<E>>,
    prepared: Seq<Transfer<E>>,
    checked: Seq<Transfer<E>>,
    after: Seq<Transfer<E>>,
    waits_before: Waits,
    waits_after: Waits,
    result: Result<TargetReady, ReadyError<E>>,
) -> bool {
    match result {
        Err(ReadyError::Preparation(_)) => false,
        Err(ReadyError::AdapterCheck { algorithm: ready, error }) => {
            &&& is_prepared(current, algorithm, image, before, prepared, waits_before, waits_after, ready)
            &&& interrupted(DIAGNOSTIC_TIMEOUT, adapter_check_plan(), prepared, after, error)
        },
        Err(ReadyError::TargetProbe { algorithm: ready, adapter, error }) => {
            &&& is_prepared(current, algorithm, image, before, prepared, waits_before, waits_after, ready)
            &&& is_checked(prepared, checked, adapter)
            &&& interrupted(DIAGNOSTIC_TIMEOUT, target_probe_plan(), checked, after, error)
        },
        Ok(ready) => {
            &&& is_prepared(
                current,
                algorithm,
                image,
                before,
                prepared,
                waits_before,
                waits_after,
                ready.algorithm,
            )
            &&& is_checked(prepared, checked, ready.adapter)
            &&& is_probed(checked, after, ready.probe)
        },
    }
}

/// What making a target ready does and returns: the algorithm is prepared, then
/// the adapter is checked, then the target is probed, and the first failure ends
/// it.
pub open spec fn ready_outcome<E>(
    current: bool,
    algorithm: AlgorithmView,
    image: Seq<u8>,
    before: Seq<Transfer<E>>,
    after: Seq<Transfer<E>>,
    waits_before: Waits,
    waits_after: Waits,
    result: Result<TargetReady, ReadyError<E>>,
) -> bool {
    match result {
        Err(ReadyError::Preparation(error)) => prepare_outcome(
            StaticCompletionPolicy,
            current,
            algorithm,
            image,
            before,
            after,
            waits_before,
            waits_after,
            Err(error),
        ),
        _ => exists|prepared: Seq<Transfer<E>>, checked: Seq<Transfer<E>>| #[trigger]
            ready_through(
                current,
                algorithm,
                image,
                before,
                prepared,
                checked,
                after,
                waits_before,
                waits_after,
                result,
            ),
    }
}

proof fn lemma_ready<E>(
    current: bool,
    algorithm: AlgorithmView,
    image: Seq<u8>,
    before: Seq<Transfer<E>>,
    prepared: Seq<Transfer<E>>,
    checked: Seq<Transfer<E>>,
    after: Seq<Transfer<E>>,
    waits_before: Waits,
    waits_after: Waits,
    result: Result<TargetReady, ReadyError<E>>,
)
    requires
        ready_through(
            current,
            algorithm,
            image,
            before,
            prepared,
            checked,
            after,
            waits_before,
            waits_after,
            result,
        ),
    ensures
        ready_outcome(current, algorithm, image, before, after, waits_before, waits_after, result),
{
}

/// Makes a target ready for an operation: loads its algorithm and parameters,
/// checks the adapter and probes the chip.
///
/// # Errors
///
/// Returns [`ReadyError`] for the first step that fails.
pub fn make_ready<T, D>(
    session: &mut AlgorithmSession,
    transport: &mut T,
    delay: &mut D,
    cancellation: &dyn Cancellation,
    target: &ResolvedTarget,
) -> (result: Result<TargetReady, ReadyError<T::Error>>) where T: Transport, D: Delay
    ensures
        ready_outcome(
            old(session).ready() == Some(identity_of(target.algorithm@)),
            target.algorithm@,
            target.parameters@,
            old(transport).history(),
            final(transport).history(),
            (Waits { durations: old(delay).waits(), places: old(session).wait_places() }),
            (Waits { durations: final(delay).waits(), places: final(session).wait_places() }),
            result,
        ),
        final(session).ready() == match result {
            Err(ReadyError::Preparation(_)) => None,
            _ => Some(identity_of(target.algorithm@)),
        },
{
    let ghost before = transport.history();
    let ghost waits = Waits { durations: delay.waits(), places: session.wait_places() };
    let ghost current = session.ready() == Some(identity_of(target.algorithm@));
    let algorithm: AlgorithmReady = match session.prepare(
        transport,
        &StaticCompletionPolicy,
        delay,
        cancellation,
        &target.algorithm,
        &target.parameters,
    ) {
        Ok(ready) => ready,
        Err(error) => { return Err(ReadyError::Preparation(error)) },
    };
    let ghost prepared = transport.history();
    let ghost waits_after = Waits {
        durations: delay.waits(),
        places: session.wait_places(),
    };
    let mut checking = OperationSession::new(transport, cancellation);
    let outcome = checking.adapter_check();
    let ghost checked = transport.history();
    let adapter: AdapterCheckResult = match outcome {
        Ok(adapter) => adapter,
        Err(error) => {
            let result = Err(ReadyError::AdapterCheck { algorithm, error });
            proof {
                lemma_ready(
                    current,
                    target.algorithm@,
                    target.parameters@,
                    before,
                    prepared,
                    checked,
                    checked,
                    waits,
                    waits_after,
                    result,
                );
            }
            return result;
        },
    };
    let mut probing = OperationSession::new(transport, cancellation);
    let outcome = probing.target_probe();
    let result = match outcome {
        Ok(probe) => Ok(TargetReady { algorithm, adapter, probe }),
        Err(error) => Err(ReadyError::TargetProbe { algorithm, adapter, error }),
    };
    proof {
        lemma_ready(
            current,
            target.algorithm@,
            target.parameters@,
            before,
            prepared,
            checked,
            transport.history(),
            waits,
            waits_after,
            result,
        );
    }
    result
}

/// Why the project of a target cannot be transferred to a region.
pub open spec fn project_error(
    target: ResolvedTarget,
    region: u32,
    length: usize,
) -> Option<RequestError> {
    match region_error(target.region_lengths@, region, length) {
        Some(error) => Some(error),
        None => if target.prepared_project@.start == target.prepared_project@.end {
            Some(RequestError::NoEffectiveRange)
        } else {
            None
        },
    }
}

/// Checks that the project of a target, with data of a length, can be
/// transferred to a region.
///
/// # Errors
///
/// Rejects data that the region cannot hold, and then a project of nothing but
/// the erased value.
pub fn validate_project(target: &ResolvedTarget, region: u32, length: usize) -> (result: Result<
    (),
    RequestError,
>)
    ensures
        match result {
            Ok(_) => project_error(*target, region, length) is None,
            Err(error) => project_error(*target, region, length) == Some(error),
        },
{
    validate_region_length(&target.region_lengths, region, length)?;
    let range = target.prepared_project.range();
    if range.start >= range.end {
        return Err(RequestError::NoEffectiveRange);
    }
    Ok(())
}

/// Programs the aligned range of a target's project.
///
/// # Errors
///
/// Fails as [`OperationSession::program_range`] does.
pub fn program_project<T: Transport>(
    transport: &mut T,
    cancellation: &dyn Cancellation,
    target: &ResolvedTarget,
    region: u32,
    minimum_primary_chunk: u16,
) -> (result: Result<OperationReceipt, OperationError<T::Error>>)
    ensures
        program_outcome(
            region,
            target.prepared_project@.start as usize,
            target.prepared_project@.selected(),
            minimum_primary_chunk,
            usual_timings(),
            old(transport).history(),
            final(transport).history(),
            result,
        ),
{
    let start: usize = target.prepared_project.range().start;
    OperationSession::new(transport, cancellation).program_range(
        region,
        start,
        target.prepared_project.operation_bytes(),
        minimum_primary_chunk,
    )
}

/// Compares the aligned range of a target's project with what the chip holds.
///
/// # Errors
///
/// Fails as [`OperationSession::verify_range`] does.
pub fn verify_project<T: Transport>(
    transport: &mut T,
    cancellation: &dyn Cancellation,
    target: &ResolvedTarget,
    region: u32,
    minimum_primary_chunk: u16,
) -> (result: Result<OperationReceipt, OperationError<T::Error>>)
    ensures
        verify_outcome(
            region,
            target.prepared_project@.start as usize,
            target.prepared_project@.selected(),
            minimum_primary_chunk,
            usual_timings(),
            old(transport).history(),
            final(transport).history(),
            result,
        ),
{
    let start: usize = target.prepared_project.range().start;
    OperationSession::new(transport, cancellation).verify_range(
        region,
        start,
        target.prepared_project.operation_bytes(),
        minimum_primary_chunk,
    )
}

/// Why there is no backup.
#[allow(inconsistent_fields)]
#[derive(Debug)]
pub enum BackupError<E> {
    Operation(OperationError<E>),
    /// What was read is not known to be Flash data.
    Refused { receipt: OperationReceipt, reason: ReadbackError },
}

/// Reads a region of a target, and keeps the data only if it cannot be the
/// parameter image.
///
/// # Errors
///
/// Fails as [`OperationSession::read`] does, and then refuses data as
/// [`ensure_flash_readback`] does.
pub fn read_backup<T: Transport>(
    transport: &mut T,
    cancellation: &dyn Cancellation,
    target: &ResolvedTarget,
    region: u32,
    length: usize,
    minimum_primary_chunk: u16,
) -> (result: Result<ReadResult, BackupError<T::Error>>)
    ensures
        backup_outcome(
            target.parameters@,
            region,
            length,
            minimum_primary_chunk,
            old(transport).history(),
            final(transport).history(),
            result,
        ),
{
    let mut session = OperationSession::new(transport, cancellation);
    let outcome = session.read(region, length, minimum_primary_chunk);
    let read: ReadResult = match outcome {
        Ok(read) => read,
        Err(error) => { return Err(BackupError::Operation(error)) },
    };
    assert(read_outcome(
        region,
        length,
        minimum_primary_chunk,
        usual_timings(),
        old(transport).history(),
        transport.history(),
        Ok::<ReadResult, OperationError<T::Error>>(read),
    ));
    match ensure_flash_readback(read.data.as_slice(), &target.parameters) {
        Ok(()) => Ok(read),
        Err(reason) => Err(BackupError::Refused { receipt: read.receipt, reason }),
    }
}

/// What reading a backup does and returns. Data that was read is refused or
/// kept.
pub open spec fn backup_outcome<E>(
    image: Seq<u8>,
    region: u32,
    length: usize,
    minimum_primary_chunk: u16,
    before: Seq<Transfer<E>>,
    after: Seq<Transfer<E>>,
    result: Result<ReadResult, BackupError<E>>,
) -> bool {
    match result {
        Ok(read) => {
            &&& read_outcome(
                region,
                length,
                minimum_primary_chunk,
                usual_timings(),
                before,
                after,
                Ok(read),
            )
            &&& readback_error(read.data@, image) is None
        },
        Err(BackupError::Operation(error)) => read_outcome(
            region,
            length,
            minimum_primary_chunk,
            usual_timings(),
            before,
            after,
            Err(error),
        ),
        Err(BackupError::Refused { receipt, reason }) => exists|read: ReadResult|
            {
                &&& #[trigger] read_outcome(
                    region,
                    length,
                    minimum_primary_chunk,
                    usual_timings(),
                    before,
                    after,
                    Ok(read),
                )
                &&& receipt == read.receipt
                &&& readback_error(read.data@, image) == Some(reason)
            },
    }
}

/// A project is programmed over the range that its derived parameter image
/// states: the first command names the start and the length in the image, and
/// the bytes that are sent have the length and the CRC32 in the image.
#[verifier::rlimit(50)]
pub proof fn law_programming_follows_the_image<E>(
    request: TargetRequest<'_>,
    assets: TargetAssets<'_>,
    target: ResolvedTarget,
    region: u32,
    minimum_primary_chunk: u16,
    before: Seq<Transfer<E>>,
    after: Seq<Transfer<E>>,
    receipt: OperationReceipt,
)
    requires
        assets.database@.valid(),
        resolution(request, assets, Ok(target)),
        request.parameters is None,
        program_outcome(
            region,
            target.prepared_project@.start as usize,
            target.prepared_project@.selected(),
            minimum_primary_chunk,
            usual_timings(),
            before,
            after,
            Ok(receipt),
        ),
    ensures
        ({
            let data = sent(before, after, OutPipe::Payload);
            let start = u32_at(target.parameters@, 0x56c);
            let length = u32_at(target.parameters@, 0x570);
            &&& data == target.prepared_project@.selected()
            &&& data.len() == length
            &&& crc32(data) == u32_at(target.parameters@, 0x574)
            &&& written(
                after[before.len() as int],
                OutPipe::Command,
                plain_frame(KnownCommand::ProgramInitialize, region, start, length),
                COMMAND_TIMEOUT,
            )
        }),
{
    let project = target.prepared_project@;
    let data = project.selected();
    law_resolved_images_describe_the_project(request, assets, target);
    let chunk = chunk_size(region, data.len() as int, minimum_primary_chunk) as nat;
    reveal(chunk_bucket);
    let plan = program_plan(region, project.start as nat, data, chunk);
    law_programming_sends_the_whole_data(
        region,
        project.start as nat,
        data,
        chunk,
        before,
        after,
    );
    assert(passes(static_judge(), plan[0], after[before.len() as int]));
}

/// A project is verified over the range that its derived parameter image states:
/// the first command names the start and the length in the image, and where the
/// verification succeeds, the bytes that were read have the length and the CRC32
/// in the image.
#[verifier::rlimit(50)]
pub proof fn law_verification_follows_the_image<E>(
    request: TargetRequest<'_>,
    assets: TargetAssets<'_>,
    target: ResolvedTarget,
    region: u32,
    minimum_primary_chunk: u16,
    before: Seq<Transfer<E>>,
    after: Seq<Transfer<E>>,
    receipt: OperationReceipt,
)
    requires
        assets.database@.valid(),
        resolution(request, assets, Ok(target)),
        request.parameters is None,
        verify_outcome(
            region,
            target.prepared_project@.start as usize,
            target.prepared_project@.selected(),
            minimum_primary_chunk,
            usual_timings(),
            before,
            after,
            Ok(receipt),
        ),
    ensures
        ({
            let data = received(before, after, InPipe::Response);
            let start = u32_at(target.parameters@, 0x56c);
            let length = u32_at(target.parameters@, 0x570);
            &&& data == target.prepared_project@.selected()
            &&& data.len() == length
            &&& crc32(data) == u32_at(target.parameters@, 0x574)
            &&& written(
                after[before.len() as int],
                OutPipe::Command,
                plain_frame(KnownCommand::ReadInitialize, region, start, length),
                COMMAND_TIMEOUT,
            )
        }),
{
    let project = target.prepared_project@;
    let data = project.selected();
    law_resolved_images_describe_the_project(request, assets, target);
    let chunk = chunk_size(region, data.len() as int, minimum_primary_chunk) as nat;
    let plan = read_plan(
        region,
        project.start as nat,
        data.len(),
        chunk,
        VERIFY_DATA_TIMEOUT,
    );
    assert(passes(static_judge(), plan[0], after[before.len() as int]));
}

/// A backup that was kept is data of the length that was asked for, read from
/// the response pipe, and does not begin as the parameter image does.
pub proof fn law_kept_backups_are_not_the_image<E>(
    image: Seq<u8>,
    region: u32,
    length: usize,
    minimum_primary_chunk: u16,
    before: Seq<Transfer<E>>,
    after: Seq<Transfer<E>>,
    read: ReadResult,
)
    requires
        image.len() == DEVICE_PARAMETER_BYTES,
        backup_outcome(image, region, length, minimum_primary_chunk, before, after, Ok(read)),
    ensures
        read.data@ == received(before, after, InPipe::Response),
        read.data@.len() == length,
        !read.data@.is_prefix_of(image),
        !image.is_prefix_of(read.data@),
{
    let compared = compared_length(read.data@);
    if read.data@.is_prefix_of(image) {
        assert(read.data@.take(compared) =~= image.take(compared));
    }
    if image.is_prefix_of(read.data@) {
        assert(read.data@.take(compared) =~= image.take(compared));
    }
}

/// The deadlines of a command: 600 ms for a completion byte, half a second for a
/// diagnostic.
pub proof fn law_usual_deadlines()
    ensures
        usual_timings().completion == 600,
        usual_timings().diagnostic == 500,
{
}

/// A project is transferred if and only if the device has the region, the region holds
/// the data, and the project has a byte other than the erased value.
pub proof fn law_transferable_projects(target: ResolvedTarget, region: u32, length: usize)
    ensures
        project_error(target, region, length) is None <==> {
            &&& region == 0 || region == 1
            &&& target.region_lengths@[region as int] matches Some(capacity)
            &&& length <= capacity
            &&& target.prepared_project@.start != target.prepared_project@.end
        },
{
}

} // verus!
