//! Decisions of the USB backend: which interface to claim, when a transfer may
//! start, how long to wait for it, and what its end means.

use vstd::prelude::*;

use crate::usb::{required_addresses, EndpointTransferType, REQUIRED_PIPE_ADDRESSES};

verus! {

/// Longest wait between two looks at the cancellation source, in nanoseconds.
pub const CANCELLATION_POLL: u64 = 20_000_000;

/// How long an aborted transfer may take to come back, in nanoseconds.
pub const CANCELLATION_DRAIN_LIMIT: u64 = 5_000_000_000;

/// One endpoint of an interface setting.
#[derive(Debug, Clone, Copy, PartialEq, Eq, Structural)]
pub struct EndpointSlot {
    pub address: u8,
    pub transfer_type: EndpointTransferType,
}

/// One interface setting of the active configuration.
#[derive(Debug, Clone, PartialEq, Eq)]
pub struct InterfaceSetting {
    pub interface_number: u8,
    pub alternate_setting: u8,
    pub endpoints: Vec<EndpointSlot>,
}

/// Where the first endpoint with an address stands, or the number of endpoints.
pub open spec fn slot_of(endpoints: Seq<EndpointSlot>, address: u8) -> nat
    decreases endpoints.len(),
{
    if endpoints.len() == 0 || endpoints[0].address == address {
        0
    } else {
        1 + slot_of(endpoints.skip(1), address)
    }
}

/// An interface setting has all required endpoints.
pub open spec fn is_complete(endpoints: Seq<EndpointSlot>) -> bool {
    forall|i: int|
        0 <= i < 6 ==> slot_of(endpoints, #[trigger] required_addresses()[i]) < endpoints.len()
}

/// The setting to claim, and the required endpoints in the order of their
/// addresses.
#[derive(Debug, Clone, Copy, PartialEq, Eq)]
pub struct InterfaceCandidate {
    interface_number: u8,
    alternate_setting: u8,
    endpoints: [EndpointSlot; 6],
}

impl InterfaceCandidate {
    /// The number of the interface.
    pub closed spec fn number(&self) -> u8 {
        self.interface_number
    }

    /// The alternate setting.
    pub closed spec fn setting(&self) -> u8 {
        self.alternate_setting
    }

    /// The required endpoints.
    pub closed spec fn slots(&self) -> Seq<EndpointSlot> {
        self.endpoints@
    }

    /// The candidate is taken from a setting.
    pub open spec fn taken_from(&self, setting: InterfaceSetting) -> bool {
        &&& self.number() == setting.interface_number
        &&& self.setting() == setting.alternate_setting
        &&& self.slots().len() == 6
        &&& forall|i: int|
            0 <= i < 6 ==> #[trigger] self.slots()[i] == setting.endpoints@[slot_of(
                setting.endpoints@,
                required_addresses()[i],
            ) as int]
    }

    #[must_use]
    pub fn interface_number(&self) -> (number: u8)
        ensures
            number == self.number(),
    {
        self.interface_number
    }

    #[must_use]
    pub fn alternate_setting(&self) -> (setting: u8)
        ensures
            setting == self.setting(),
    {
        self.alternate_setting
    }

    /// The transfer type of the endpoint with an address, if it is among the
    /// required ones.
    #[must_use]
    pub fn transfer_type(&self, address: u8) -> (transfer_type: Option<EndpointTransferType>)
        ensures
            match transfer_type {
                Some(found) => slot_of(self.slots(), address) < self.slots().len() && found
                    == self.slots()[slot_of(self.slots(), address) as int].transfer_type,
                None => slot_of(self.slots(), address) == self.slots().len(),
            },
    {
        let at: usize = find_slot(&self.endpoints, address);
        if at < 6 {
            Some(self.endpoints[at].transfer_type)
        } else {
            None
        }
    }
}

fn find_slot(endpoints: &[EndpointSlot], address: u8) -> (at: usize)
    ensures
        at == slot_of(endpoints@, address),
        at <= endpoints@.len(),
        at < endpoints@.len() ==> endpoints@[at as int].address == address,
{
    let mut at: usize = 0;
    assert(endpoints@.skip(0) =~= endpoints@);
    while at < endpoints.len() && endpoints[at].address != address
        invariant
            at <= endpoints@.len(),
            slot_of(endpoints@, address) == at + slot_of(endpoints@.skip(at as int), address),
        decreases endpoints@.len() - at,
    {
        assert(endpoints@.skip(at as int).skip(1) =~= endpoints@.skip(at + 1));
        at += 1;
    }
    at
}

/// The candidate of one interface setting, if it has all required endpoints.
#[must_use]
pub fn interface_candidate(setting: &InterfaceSetting) -> (candidate: Option<InterfaceCandidate>)
    ensures
        candidate is Some <==> is_complete(setting.endpoints@),
        candidate matches Some(found) ==> found.taken_from(*setting),
{
    let required: [u8; 6] = REQUIRED_PIPE_ADDRESSES;
    assert(required@ =~= required_addresses());
    let ghost endpoints = setting.endpoints@;
    let mut slots: [EndpointSlot; 6] = [EndpointSlot {
        address: 0,
        transfer_type: EndpointTransferType::Control,
    };6];
    let mut i: usize = 0;
    while i < 6
        invariant
            i <= 6,
            required@ == required_addresses(),
            endpoints == setting.endpoints@,
            forall|j: int|
                0 <= j < i ==> slot_of(endpoints, #[trigger] required_addresses()[j])
                    < endpoints.len(),
            forall|j: int|
                0 <= j < i ==> #[trigger] slots@[j] == endpoints[slot_of(
                    endpoints,
                    required_addresses()[j],
                ) as int],
        decreases 6 - i,
    {
        let at: usize = find_slot(setting.endpoints.as_slice(), required[i]);
        if at >= setting.endpoints.len() {
            assert(slot_of(endpoints, required_addresses()[i as int]) >= endpoints.len());
            return None;
        }
        slots[i] = setting.endpoints[at];
        i += 1;
    }
    Some(
        InterfaceCandidate {
            interface_number: setting.interface_number,
            alternate_setting: setting.alternate_setting,
            endpoints: slots,
        },
    )
}

/// The candidate of the first interface setting that has all required endpoints.
#[must_use]
pub fn select_interface(settings: &[InterfaceSetting]) -> (candidate: Option<InterfaceCandidate>)
    ensures
        match candidate {
            Some(found) => exists|i: int|
                0 <= i < settings@.len() && #[trigger] is_complete(settings@[i].endpoints@)
                    && found.taken_from(settings@[i]) && forall|j: int|
                    0 <= j < i ==> !is_complete(#[trigger] settings@[j].endpoints@),
            None => forall|i: int|
                0 <= i < settings@.len() ==> !is_complete(#[trigger] settings@[i].endpoints@),
        },
{
    let mut i: usize = 0;
    while i < settings.len()
        invariant
            i <= settings@.len(),
            forall|j: int| 0 <= j < i ==> !is_complete(#[trigger] settings@[j].endpoints@),
        decreases settings@.len() - i,
    {
        let candidate: Option<InterfaceCandidate> = interface_candidate(&settings[i]);
        if candidate.is_some() {
            assert(is_complete(settings@[i as int].endpoints@));
            return candidate;
        }
        i += 1;
    }
    None
}

/// Whether the backend can transfer with an endpoint of a type.
#[must_use]
pub fn is_supported(transfer_type: EndpointTransferType) -> (supported: bool)
    ensures
        supported == (transfer_type is Bulk || transfer_type is Interrupt),
{
    matches!(transfer_type, EndpointTransferType::Bulk | EndpointTransferType::Interrupt)
}

/// Why a transfer did not take place or did not succeed.
#[allow(inconsistent_fields)]
#[derive(Debug, Clone, Copy, PartialEq, Eq, Structural)]
pub enum TransferFault {
    SessionUnusable,
    ZeroLength { pipe: u8 },
    Cancelled { pipe: u8 },
    InvalidPacketSize { pipe: u8 },
    /// The deadline in milliseconds has passed.
    Timeout { pipe: u8, timeout: u64 },
    ShortTransfer { pipe: u8, expected: usize, actual: usize },
    CancellationRecovery { pipe: u8 },
}

/// The smallest multiple of the packet size that is not below a length.
pub open spec fn rounded_length(length: int, packet_size: int) -> int {
    (length + packet_size - 1) / packet_size * packet_size
}

/// The number of bytes to ask an IN endpoint for: whole packets.
///
/// # Errors
///
/// Returns [`TransferFault::InvalidPacketSize`] for a packet size of zero.
pub fn request_length(pipe: u8, length: usize, packet_size: usize) -> (result: Result<
    usize,
    TransferFault,
>)
    requires
        packet_size > 0 ==> rounded_length(length as int, packet_size as int) <= usize::MAX,
    ensures
        match result {
            Ok(rounded) => packet_size > 0 && rounded == rounded_length(
                length as int,
                packet_size as int,
            ) && length <= rounded < length + packet_size && rounded % packet_size == 0,
            Err(fault) => packet_size == 0 && fault == (TransferFault::InvalidPacketSize { pipe }),
        },
{
    if packet_size == 0 {
        return Err(TransferFault::InvalidPacketSize { pipe });
    }
    let whole: usize = length / packet_size;
    let rest: usize = length % packet_size;
    proof {
        let n: int = length as int;
        let p: int = packet_size as int;
        let w: int = whole as int;
        let r: int = rest as int;
        vstd::arithmetic::div_mod::lemma_fundamental_div_mod(n, p);
        assert(p * w == w * p) by (nonlinear_arith);
        assert((w + 1) * p == w * p + p) by (nonlinear_arith);
        if r == 0 {
            vstd::arithmetic::div_mod::lemma_fundamental_div_mod_converse(n + p - 1, p, w, p - 1);
            vstd::arithmetic::div_mod::lemma_mod_multiples_basic(w, p);
        } else {
            vstd::arithmetic::div_mod::lemma_fundamental_div_mod_converse(
                n + p - 1,
                p,
                w + 1,
                r - 1,
            );
            vstd::arithmetic::div_mod::lemma_mod_multiples_basic(w + 1, p);
        }
    }
    if rest == 0 {
        Ok(whole * packet_size)
    } else {
        Ok((whole + 1) * packet_size)
    }
}

/// What to do about a pending transfer.
#[derive(Debug, Clone, Copy, PartialEq, Eq, Structural)]
pub enum WaitStep {
    /// Wait for completion, at most this many nanoseconds.
    Poll { nanoseconds: u64 },
    /// Abort the transfer because it was cancelled, and drain the pipe.
    AbortCancelled,
    /// Abort the transfer because its deadline has passed, and drain the pipe.
    AbortExpired,
}

/// The next step for a transfer that is pending since `elapsed` nanoseconds.
pub open spec fn wait_step(cancelled: bool, elapsed: u128, timeout: u64) -> WaitStep {
    if cancelled {
        WaitStep::AbortCancelled
    } else if elapsed >= timeout * 1_000_000 {
        WaitStep::AbortExpired
    } else if timeout * 1_000_000 - elapsed < CANCELLATION_POLL {
        WaitStep::Poll { nanoseconds: (timeout * 1_000_000 - elapsed) as u64 }
    } else {
        WaitStep::Poll { nanoseconds: CANCELLATION_POLL }
    }
}

/// Decides the next step for a transfer that is pending since `elapsed`
/// nanoseconds and has a deadline of `timeout` milliseconds.
#[must_use]
pub fn next_wait(cancelled: bool, elapsed: u128, timeout: u64) -> (step: WaitStep)
    ensures
        step == wait_step(cancelled, elapsed, timeout),
{
    if cancelled {
        return WaitStep::AbortCancelled;
    }
    let limit: u128 = timeout as u128 * 1_000_000;
    if elapsed >= limit {
        return WaitStep::AbortExpired;
    }
    let remaining: u128 = limit - elapsed;
    if remaining < CANCELLATION_POLL as u128 {
        WaitStep::Poll { nanoseconds: remaining as u64 }
    } else {
        WaitStep::Poll { nanoseconds: CANCELLATION_POLL }
    }
}

/// Decides whether to wait on for a transfer that was aborted `elapsed`
/// nanoseconds ago, and how long.
#[must_use]
pub fn next_drain(elapsed: u128) -> (nanoseconds: Option<u64>)
    ensures
        nanoseconds == if elapsed < CANCELLATION_DRAIN_LIMIT {
            Some(CANCELLATION_POLL)
        } else {
            None
        },
{
    if elapsed < CANCELLATION_DRAIN_LIMIT as u128 {
        Some(CANCELLATION_POLL)
    } else {
        None
    }
}

/// What an aborted transfer is reported as.
pub open spec fn abort_fault(
    pipe: u8,
    timeout: u64,
    cancelled: bool,
    drained: bool,
) -> TransferFault {
    if !drained {
        TransferFault::CancellationRecovery { pipe }
    } else if cancelled {
        TransferFault::Cancelled { pipe }
    } else {
        TransferFault::Timeout { pipe, timeout }
    }
}

/// What an aborted transfer is reported as: the reason for the abort, unless the
/// transfer never came back.
#[must_use]
pub fn aborted(pipe: u8, timeout: u64, cancelled: bool, drained: bool) -> (fault: TransferFault)
    ensures
        fault == abort_fault(pipe, timeout, cancelled, drained),
{
    if !drained {
        TransferFault::CancellationRecovery { pipe }
    } else if cancelled {
        TransferFault::Cancelled { pipe }
    } else {
        TransferFault::Timeout { pipe, timeout }
    }
}

/// Checks that a completed transfer moved what was asked for.
///
/// # Errors
///
/// Returns [`TransferFault::ShortTransfer`] for any other number of bytes.
pub fn check_length(pipe: u8, expected: usize, actual: usize) -> (result: Result<
    (),
    TransferFault,
>)
    ensures
        match result {
            Ok(_) => actual == expected,
            Err(fault) => actual != expected && fault == (TransferFault::ShortTransfer {
                pipe,
                expected,
                actual,
            }),
        },
{
    if actual != expected {
        return Err(TransferFault::ShortTransfer { pipe, expected, actual });
    }
    Ok(())
}

/// A transfer that a caller asks for.
#[derive(Debug, Clone, Copy, PartialEq, Eq, Structural)]
pub struct TransferRequest {
    /// The endpoint address of the pipe.
    pub pipe: u8,
    /// The exact number of bytes to move.
    pub length: usize,
    /// The deadline in milliseconds.
    pub timeout: u64,
    /// The largest packet of an IN endpoint; an OUT endpoint needs none.
    pub packet_size: Option<usize>,
}

impl TransferRequest {
    /// The number of bytes to submit can be addressed.
    pub open spec fn fits(self) -> bool {
        match self.packet_size {
            Some(size) => size > 0 ==> rounded_length(self.length as int, size as int)
                <= usize::MAX,
            None => true,
        }
    }
}

/// A submitted transfer.
#[derive(Debug, Clone, Copy, PartialEq, Eq, Structural)]
pub struct PendingTransfer {
    pub pipe: u8,
    pub expected: usize,
    pub timeout: u64,
    /// Whether the transfer was aborted, and if so, whether because it was
    /// cancelled.
    pub aborted: Option<bool>,
}

/// What the backend observes of a submitted transfer.
#[allow(inconsistent_fields)]
#[derive(Debug, Clone, Copy, PartialEq, Eq, Structural)]
pub enum TransferEvent {
    /// No completion yet. So many nanoseconds have passed since the transfer was
    /// submitted, or since it was aborted.
    Pending { cancelled: bool, elapsed: u128 },
    /// The transfer came back.
    Completed { succeeded: bool, actual: usize },
}

/// How a submitted transfer ended.
#[derive(Debug, Clone, Copy, PartialEq, Eq, Structural)]
pub enum TransferEnd {
    /// Exactly the bytes that were asked for were moved.
    Done,
    /// The completion reported a failure of the backend.
    Failed,
    Fault(TransferFault),
}

/// What the backend does next.
#[derive(Debug, Clone, Copy, PartialEq, Eq, Structural)]
pub enum TransferAction {
    /// No transfer is pending.
    Idle,
    /// Wait for the completion, at most this many nanoseconds.
    Poll { nanoseconds: u64 },
    /// Cancel what is pending on the pipe, and restart the clock.
    Abort,
    End(TransferEnd),
}

/// What a session knows: whether it can be used, and the transfer that is
/// pending.
pub struct SessionState {
    pub usable: bool,
    pub pending: Option<PendingTransfer>,
}

impl SessionState {
    /// The state in which a session begins.
    pub open spec fn fresh() -> SessionState {
        SessionState { usable: true, pending: None }
    }

    /// The session ends its pending transfer, and can be used on only if that was
    /// done.
    pub open spec fn ended(self, end: TransferEnd) -> SessionState {
        SessionState { usable: self.usable && end is Done, pending: None }
    }
}

/// Why a request is refused, or how many bytes are submitted for it. Rules apply
/// in the order of the tests.
pub open spec fn admission(usable: bool, request: TransferRequest, cancelled: bool) -> Result<
    int,
    TransferFault,
> {
    let pipe = request.pipe;
    if !usable {
        Err(TransferFault::SessionUnusable)
    } else if request.length == 0 {
        Err(TransferFault::ZeroLength { pipe })
    } else if cancelled {
        Err(TransferFault::Cancelled { pipe })
    } else {
        match request.packet_size {
            None => Ok(request.length as int),
            Some(size) => if size == 0 {
                Err(TransferFault::InvalidPacketSize { pipe })
            } else {
                Ok(rounded_length(request.length as int, size as int))
            },
        }
    }
}

/// The state of a session after a request. One that was cancelled makes the
/// session unusable.
pub open spec fn after_request(
    state: SessionState,
    request: TransferRequest,
    cancelled: bool,
) -> SessionState {
    match admission(state.usable, request, cancelled) {
        Err(TransferFault::Cancelled { .. }) => SessionState { usable: false, ..state },
        Err(_) => state,
        Ok(_) => SessionState {
            usable: true,
            pending: Some(
                PendingTransfer {
                    pipe: request.pipe,
                    expected: request.length,
                    timeout: request.timeout,
                    aborted: None,
                },
            ),
        },
    }
}

/// What to do about a pending transfer after an event. A transfer that was
/// aborted is only waited for, and ends with the reason for the abort.
pub open spec fn action_for(transfer: PendingTransfer, event: TransferEvent) -> TransferAction {
    let pipe = transfer.pipe;
    match (transfer.aborted, event) {
        (None, TransferEvent::Pending { cancelled, elapsed }) => match wait_step(
            cancelled,
            elapsed,
            transfer.timeout,
        ) {
            WaitStep::Poll { nanoseconds } => TransferAction::Poll { nanoseconds },
            _ => TransferAction::Abort,
        },
        (None, TransferEvent::Completed { succeeded, actual }) => TransferAction::End(
            if !succeeded {
                TransferEnd::Failed
            } else if actual != transfer.expected {
                TransferEnd::Fault(
                    TransferFault::ShortTransfer { pipe, expected: transfer.expected, actual },
                )
            } else {
                TransferEnd::Done
            },
        ),
        (Some(_), TransferEvent::Pending { elapsed, .. }) => if elapsed
            < CANCELLATION_DRAIN_LIMIT {
            TransferAction::Poll { nanoseconds: CANCELLATION_POLL }
        } else {
            TransferAction::End(TransferEnd::Fault(TransferFault::CancellationRecovery { pipe }))
        },
        (Some(cancelled), TransferEvent::Completed { .. }) => TransferAction::End(
            TransferEnd::Fault(
                if cancelled {
                    TransferFault::Cancelled { pipe }
                } else {
                    TransferFault::Timeout { pipe, timeout: transfer.timeout }
                },
            ),
        ),
    }
}

/// What a session does after an event.
pub open spec fn reaction(state: SessionState, event: TransferEvent) -> TransferAction {
    match state.pending {
        None => TransferAction::Idle,
        Some(transfer) => action_for(transfer, event),
    }
}

/// The state of a session after an event.
pub open spec fn after_event(state: SessionState, event: TransferEvent) -> SessionState {
    match (state.pending, reaction(state, event)) {
        (Some(transfer), TransferAction::Abort) => SessionState {
            usable: state.usable,
            pending: Some(
                PendingTransfer {
                    aborted: Some(event matches TransferEvent::Pending { cancelled: true, .. }),
                    ..transfer
                },
            ),
        },
        (_, TransferAction::End(end)) => state.ended(end),
        _ => state,
    }
}

/// The session of a claimed interface: which transfers may be submitted, how long
/// they are waited for, and how they end. After a transfer that did not complete
/// it cannot be used again: late data could reach the next transaction.
#[derive(Debug, Clone, Copy, PartialEq, Eq, Structural)]
pub struct TransferSession {
    usable: bool,
    pending: Option<PendingTransfer>,
}

impl View for TransferSession {
    type V = SessionState;

    closed spec fn view(&self) -> SessionState {
        SessionState { usable: self.usable, pending: self.pending }
    }
}

impl TransferSession {
    #[must_use]
    pub fn new() -> (session: Self)
        ensures
            session@ == SessionState::fresh(),
    {
        TransferSession { usable: true, pending: None }
    }

    #[must_use]
    pub fn is_usable(&self) -> (usable: bool)
        ensures
            usable == self@.usable,
    {
        self.usable
    }

    /// Decides whether a transfer may be submitted, and with how many bytes.
    ///
    /// # Errors
    ///
    /// Returns [`TransferFault`] for an unusable session, an empty transfer, a
    /// cancelled one, or a packet size of zero, in this order. In these cases
    /// nothing is submitted.
    pub fn begin(&mut self, request: TransferRequest, cancelled: bool) -> (result: Result<
        usize,
        TransferFault,
    >)
        requires
            request.fits(),
        ensures
            final(self)@ == after_request(old(self)@, request, cancelled),
            match (result, admission(old(self)@.usable, request, cancelled)) {
                (Ok(length), Ok(expected)) => length == expected,
                (Err(fault), Err(reason)) => fault == reason,
                _ => false,
            },
    {
        let pipe: u8 = request.pipe;
        if !self.usable {
            return Err(TransferFault::SessionUnusable);
        }
        if request.length == 0 {
            return Err(TransferFault::ZeroLength { pipe });
        }
        if cancelled {
            self.usable = false;
            return Err(TransferFault::Cancelled { pipe });
        }
        let length: usize = match request.packet_size {
            Some(size) => match request_length(pipe, request.length, size) {
                Ok(length) => length,
                Err(fault) => { return Err(fault) },
            },
            None => request.length,
        };
        self.pending = Some(
            PendingTransfer {
                pipe,
                expected: request.length,
                timeout: request.timeout,
                aborted: None,
            },
        );
        Ok(length)
    }

    /// Decides what to do about the pending transfer after an event.
    pub fn step(&mut self, event: TransferEvent) -> (action: TransferAction)
        ensures
            final(self)@ == after_event(old(self)@, event),
            action == reaction(old(self)@, event),
    {
        let transfer: PendingTransfer = match self.pending {
            Some(transfer) => transfer,
            None => { return TransferAction::Idle },
        };
        let pipe: u8 = transfer.pipe;
        let end: TransferEnd = match (transfer.aborted, event) {
            (None, TransferEvent::Pending { cancelled, elapsed }) => {
                match next_wait(cancelled, elapsed, transfer.timeout) {
                    WaitStep::Poll { nanoseconds } => {
                        return TransferAction::Poll { nanoseconds };
                    },
                    _ => {
                        self.pending = Some(
                            PendingTransfer { aborted: Some(cancelled), ..transfer },
                        );
                        return TransferAction::Abort;
                    },
                }
            },
            (None, TransferEvent::Completed { succeeded, actual }) => if !succeeded {
                TransferEnd::Failed
            } else {
                match check_length(pipe, transfer.expected, actual) {
                    Ok(()) => TransferEnd::Done,
                    Err(fault) => TransferEnd::Fault(fault),
                }
            },
            (Some(cancelled), TransferEvent::Pending { elapsed, .. }) => match next_drain(elapsed) {
                Some(nanoseconds) => {
                    return TransferAction::Poll { nanoseconds };
                },
                None => TransferEnd::Fault(aborted(pipe, transfer.timeout, cancelled, false)),
            },
            (Some(cancelled), TransferEvent::Completed { .. }) => TransferEnd::Fault(
                aborted(pipe, transfer.timeout, cancelled, true),
            ),
        };
        self.pending = None;
        if !matches!(end, TransferEnd::Done) {
            self.usable = false;
        }
        TransferAction::End(end)
    }
}

/// Hands the bytes of a transfer to the caller's buffer, which stays as it is
/// unless the transfer was done.
pub fn deliver(end: TransferEnd, data: &[u8], bytes: &mut [u8])
    ensures
        final(bytes)@ == if end is Done && data@.len() >= old(bytes)@.len() {
            data@.take(old(bytes)@.len() as int)
        } else {
            old(bytes)@
        },
{
    let length: usize = bytes.len();
    if !matches!(end, TransferEnd::Done) || data.len() < length {
        return ;
    }
    let ghost before = bytes@;
    let mut i: usize = 0;
    while i < length
        invariant
            i <= length == bytes@.len() == before.len(),
            length <= data@.len(),
            forall|j: int| 0 <= j < i ==> bytes@[j] == data@[j],
        decreases length - i,
    {
        bytes[i] = data[i];
        i += 1;
    }
    assert(bytes@ =~= data@.take(length as int));
}

/// What a session is given.
#[allow(inconsistent_fields)]
pub enum SessionInput {
    Request { request: TransferRequest, cancelled: bool },
    Event(TransferEvent),
}

/// What a session answers.
pub enum SessionOutput {
    Admission(Result<int, TransferFault>),
    Action(TransferAction),
}

/// The state of a fresh session after inputs.
pub open spec fn state_after(inputs: Seq<SessionInput>) -> SessionState
    decreases inputs.len(),
{
    if inputs.len() == 0 {
        SessionState::fresh()
    } else {
        let state = state_after(inputs.drop_last());
        match inputs.last() {
            SessionInput::Request { request, cancelled } => after_request(
                state,
                request,
                cancelled,
            ),
            SessionInput::Event(event) => after_event(state, event),
        }
    }
}

/// What a fresh session answers to one of its inputs.
pub open spec fn output_at(inputs: Seq<SessionInput>, index: int) -> SessionOutput {
    let state = state_after(inputs.take(index));
    match inputs[index] {
        SessionInput::Request { request, cancelled } => SessionOutput::Admission(
            admission(state.usable, request, cancelled),
        ),
        SessionInput::Event(event) => SessionOutput::Action(reaction(state, event)),
    }
}

/// A transfer was cancelled before it was submitted, or was submitted and ended in
/// any other way than that it was done.
pub open spec fn reports_failure(output: SessionOutput) -> bool {
    match output {
        SessionOutput::Admission(Err(TransferFault::Cancelled { .. })) => true,
        SessionOutput::Action(TransferAction::End(end)) => !(end is Done),
        _ => false,
    }
}

/// A failed session is never used again: after a transfer that was cancelled, ran
/// out of time, failed, came short or never came back, the session is unusable
/// for good, every later request is answered with that, and nothing is submitted
/// for it.
pub proof fn law_failed_sessions_are_never_used_again(
    inputs: Seq<SessionInput>,
    failure: int,
    later: int,
)
    requires
        0 <= failure < later < inputs.len(),
        reports_failure(output_at(inputs, failure)),
    ensures
        !state_after(inputs.take(later)).usable,
        !state_after(inputs.take(later + 1)).usable,
        inputs[later] is Request ==> output_at(inputs, later) == SessionOutput::Admission(
            Err(TransferFault::SessionUnusable),
        ) && state_after(inputs.take(later + 1)) == state_after(inputs.take(later)),
{
    lemma_unusable_from(inputs, failure, later);
    lemma_unusable_from(inputs, failure, later + 1);
    assert(inputs.take(later + 1).drop_last() =~= inputs.take(later));
}

proof fn lemma_unusable_from(inputs: Seq<SessionInput>, failure: int, count: int)
    requires
        0 <= failure < count <= inputs.len(),
        reports_failure(output_at(inputs, failure)),
    ensures
        !state_after(inputs.take(count)).usable,
    decreases count,
{
    assert(inputs.take(count).drop_last() =~= inputs.take(count - 1));
    if count > failure + 1 {
        lemma_unusable_from(inputs, failure, count - 1);
    }
}

/// A session can be used as long as no transfer failed.
pub proof fn law_sessions_are_usable_until_a_failure(inputs: Seq<SessionInput>)
    requires
        forall|i: int|
            0 <= i < inputs.len() ==> !reports_failure(#[trigger] output_at(inputs, i)),
    ensures
        state_after(inputs).usable,
    decreases inputs.len(),
{
    if inputs.len() > 0 {
        let earlier = inputs.drop_last();
        assert forall|i: int| 0 <= i < earlier.len() implies !reports_failure(
            #[trigger] output_at(earlier, i),
        ) by {
            assert(earlier.take(i) =~= inputs.take(i));
            assert(!reports_failure(output_at(inputs, i)));
        }
        law_sessions_are_usable_until_a_failure(earlier);
        assert(inputs.take(inputs.len() - 1) =~= earlier);
        assert(!reports_failure(output_at(inputs, inputs.len() - 1)));
    }
}

proof fn lemma_slot(endpoints: Seq<EndpointSlot>, address: u8)
    ensures
        slot_of(endpoints, address) <= endpoints.len(),
        forall|i: int|
            0 <= i < slot_of(endpoints, address) ==> (#[trigger] endpoints[i]).address != address,
        slot_of(endpoints, address) < endpoints.len() ==> endpoints[slot_of(
            endpoints,
            address,
        ) as int].address == address,
    decreases endpoints.len(),
{
    if endpoints.len() > 0 && endpoints[0].address != address {
        let rest = endpoints.skip(1);
        lemma_slot(rest, address);
        assert forall|i: int| 0 <= i < slot_of(endpoints, address) implies (
        #[trigger] endpoints[i]).address != address by {
            if i > 0 {
                assert(rest[i - 1] == endpoints[i]);
            }
        }
    }
}

/// An interface setting is complete if and only if it has an endpoint for each of the
/// six pipes, and a candidate that is taken from it holds for each of them the first
/// endpoint with its address, in the order 2, 3, 130, 131, 132, 133.
pub proof fn law_candidates_hold_the_six_pipes(
    setting: InterfaceSetting,
    candidate: InterfaceCandidate,
    place: int,
)
    requires
        0 <= place < 6,
    ensures
        ({
            let endpoints = setting.endpoints@;
            let has = |address: u8|
                exists|i: int|
                    0 <= i < endpoints.len() && (#[trigger] endpoints[i]).address == address;
            is_complete(endpoints) <==> has(2) && has(3) && has(130) && has(131) && has(132) && has(
                133,
            )
        }),
        is_complete(setting.endpoints@) && candidate.taken_from(setting) ==> {
            &&& candidate.number() == setting.interface_number
            &&& candidate.setting() == setting.alternate_setting
            &&& candidate.slots()[place].address == if place < 2 {
                2 + place
            } else {
                128 + place
            }
            &&& setting.endpoints@.contains(candidate.slots()[place])
        },
{
    let endpoints = setting.endpoints@;
    let known = required_addresses();
    assert(known[0] == 2 && known[1] == 3 && known[2] == 130 && known[3] == 131 && known[4] == 132
        && known[5] == 133);
    assert forall|address: u8| #[trigger]
        slot_of(endpoints, address) < endpoints.len() <==> (exists|i: int|
            0 <= i < endpoints.len() && (#[trigger] endpoints[i]).address == address) by {
        lemma_slot(endpoints, address);
    }
    lemma_slot(endpoints, known[place]);
    if is_complete(endpoints) {
        assert(slot_of(endpoints, known[0]) < endpoints.len());
        assert(slot_of(endpoints, known[1]) < endpoints.len());
        assert(slot_of(endpoints, known[2]) < endpoints.len());
        assert(slot_of(endpoints, known[3]) < endpoints.len());
        assert(slot_of(endpoints, known[4]) < endpoints.len());
        assert(slot_of(endpoints, known[5]) < endpoints.len());
        if candidate.taken_from(setting) {
            let at = slot_of(endpoints, known[place]) as int;
            assert(candidate.slots()[place] == endpoints[at]);
        }
    }
}

/// A pending transfer is never waited for beyond its deadline nor for more than 20 ms
/// at once. It is aborted exactly if it was cancelled or its deadline has passed, and
/// an aborted one is given up exactly when it has not come back after five seconds.
pub proof fn law_waiting_is_bounded(transfer: PendingTransfer, cancelled: bool, elapsed: u128)
    ensures
        ({
            let deadline = transfer.timeout * 1_000_000;
            let action = action_for(transfer, TransferEvent::Pending { cancelled, elapsed });
            match transfer.aborted {
                None => {
                    &&& action is Abort <==> cancelled || elapsed >= deadline
                    &&& !(action is Abort) ==> (action matches TransferAction::Poll { nanoseconds }
                        && 0 < nanoseconds <= 20_000_000 && elapsed + nanoseconds <= deadline && (
                    nanoseconds == 20_000_000 || elapsed + nanoseconds == deadline))
                },
                Some(_) => if elapsed < 5_000_000_000 {
                    action == (TransferAction::Poll { nanoseconds: 20_000_000 })
                } else {
                    action matches TransferAction::End(TransferEnd::Fault(fault)) && fault == (
                    TransferFault::CancellationRecovery { pipe: transfer.pipe })
                },
            }
        }),
{
}

/// A transfer that comes back is done exactly if it was not aborted, did not fail and
/// moved the bytes that were asked for. One that was aborted is reported as cancelled
/// or late, whatever it brought.
pub proof fn law_ends_of_transfers(transfer: PendingTransfer, succeeded: bool, actual: usize)
    ensures
        ({
            let action = action_for(transfer, TransferEvent::Completed { succeeded, actual });
            &&& action matches TransferAction::End(end)
            &&& end is Done <==> transfer.aborted is None && succeeded && actual
                == transfer.expected
            &&& end is Failed <==> transfer.aborted is None && !succeeded
            &&& transfer.aborted == Some(true) ==> end == TransferEnd::Fault(
                TransferFault::Cancelled { pipe: transfer.pipe },
            )
            &&& transfer.aborted == Some(false) ==> end == TransferEnd::Fault(
                TransferFault::Timeout { pipe: transfer.pipe, timeout: transfer.timeout },
            )
            &&& transfer.aborted is None && succeeded && actual != transfer.expected ==> end
                == TransferEnd::Fault(
                TransferFault::ShortTransfer {
                    pipe: transfer.pipe,
                    expected: transfer.expected,
                    actual,
                },
            )
        }),
{
}

/// What is asked of an IN endpoint is the smallest number of whole packets that holds
/// the bytes.
pub proof fn law_requests_are_whole_packets(length: int, packet_size: int, packets: int)
    requires
        0 <= length,
        0 < packet_size,
        0 <= packets,
    ensures
        rounded_length(length, packet_size) % packet_size == 0,
        rounded_length(length, packet_size) >= length,
        packets * packet_size >= length ==> rounded_length(length, packet_size) <= packets
            * packet_size,
{
    let total = length + packet_size - 1;
    let whole = total / packet_size;
    vstd::arithmetic::div_mod::lemma_fundamental_div_mod(total, packet_size);
    assert(packet_size * whole == whole * packet_size) by (nonlinear_arith);
    vstd::arithmetic::div_mod::lemma_mod_multiples_basic(whole, packet_size);
    if packets * packet_size >= length && packets < whole {
        assert((packets + 1) * packet_size <= whole * packet_size) by (nonlinear_arith)
            requires
                packets + 1 <= whole,
                packet_size > 0,
        ;
        assert((packets + 1) * packet_size == packets * packet_size + packet_size)
            by (nonlinear_arith);
    } else if packets >= whole {
        assert(whole * packet_size <= packets * packet_size) by (nonlinear_arith)
            requires
                whole <= packets,
                packet_size > 0,
        ;
    }
}

/// An aborted transfer that never came back is reported as such, whatever it was
/// aborted for. One that came back is reported as cancelled or as late, and the pipe is
/// the one that it was meant for.
pub proof fn law_aborts_are_told_apart(
    pipe: u8,
    timeout: u64,
    cancelled: bool,
    drained: bool,
)
    ensures
        ({
            let fault = abort_fault(pipe, timeout, cancelled, drained);
            &&& fault is CancellationRecovery <==> !drained
            &&& fault is Cancelled <==> drained && cancelled
            &&& fault is Timeout <==> drained && !cancelled
            &&& fault matches TransferFault::CancellationRecovery { pipe: named } ==> named == pipe
            &&& fault matches TransferFault::Cancelled { pipe: named } ==> named == pipe
            &&& fault matches TransferFault::Timeout { pipe: named, timeout: limit } ==> named
                == pipe && limit == timeout
        }),
{
}

} // verus!
