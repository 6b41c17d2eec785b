//! Platform-independent staged transport.
//!
//! Every transfer names its pipe, moves an exact number of bytes and has one
//! deadline. Durations are whole milliseconds.

use vstd::prelude::*;

verus! {

/// Deadline of a command block.
pub const COMMAND_TIMEOUT: u64 = 100;

/// Deadline of a payload that has no deadline of its own.
pub const PAYLOAD_TIMEOUT: u64 = 500;

/// Deadline of a completion byte while an algorithm or its parameters are sent.
pub const ALGORITHM_COMPLETION_TIMEOUT: u64 = 600;

/// Deadline of the algorithm verification response.
pub const ALGORITHM_VERIFY_TIMEOUT: u64 = 1_000;

/// Wait between the last algorithm chunk and its verification.
pub const POST_DOWNLOAD_DELAY: u64 = 100;

/// Pipes that carry bytes to the programmer.
#[derive(Debug, Clone, Copy, PartialEq, Eq, Structural)]
pub enum OutPipe {
    Command,
    Payload,
}

impl OutPipe {
    /// The endpoint address of an OUT pipe.
    pub open spec fn endpoint(self) -> u8 {
        match self {
            OutPipe::Command => 0x02,
            OutPipe::Payload => 0x03,
        }
    }

    /// The endpoint address; its direction bit is clear.
    #[must_use]
    pub fn address(self) -> (address: u8)
        ensures
            address == self.endpoint(),
            address < 0x80,
    {
        match self {
            OutPipe::Command => 0x02,
            OutPipe::Payload => 0x03,
        }
    }
}

/// Pipes that carry bytes from the programmer.
#[derive(Debug, Clone, Copy, PartialEq, Eq, Structural)]
pub enum InPipe {
    Completion,
    Response,
    AuxiliaryResult,
    Specialized,
}

impl InPipe {
    /// The endpoint address of an IN pipe.
    pub open spec fn endpoint(self) -> u8 {
        match self {
            InPipe::Completion => 0x82,
            InPipe::Response => 0x83,
            InPipe::AuxiliaryResult => 0x84,
            InPipe::Specialized => 0x85,
        }
    }

    /// The endpoint address; its direction bit is set.
    #[must_use]
    pub fn address(self) -> (address: u8)
        ensures
            address == self.endpoint(),
            address >= 0x80,
    {
        match self {
            InPipe::Completion => 0x82,
            InPipe::Response => 0x83,
            InPipe::AuxiliaryResult => 0x84,
            InPipe::Specialized => 0x85,
        }
    }
}

/// Cancellation source consulted by a transport while a transfer is pending.
pub trait Cancellation {
    #[must_use]
    fn is_cancelled(&self) -> bool;
}

/// Cancellation source for callers that do not need cancellation.
#[derive(Debug, Default, Clone, Copy)]
pub struct NeverCancelled;

impl Cancellation for NeverCancelled {
    fn is_cancelled(&self) -> (cancelled: bool)
        ensures
            !cancelled,
    {
        false
    }
}

/// Options attached to one indivisible transport stage.
#[derive(Clone, Copy)]
pub struct TransferOptions<'a> {
    /// Deadline in milliseconds.
    pub timeout: u64,
    pub cancellation: &'a dyn Cancellation,
}

/// One finished transfer, as a transport remembers it.
#[allow(inconsistent_fields)]
pub enum Transfer<E> {
    /// Bytes were handed to an OUT pipe.
    Write { pipe: OutPipe, bytes: Seq<u8>, timeout: u64, result: Result<(), E> },
    /// A number of bytes was asked of an IN pipe.
    Read { pipe: InPipe, length: nat, timeout: u64, result: Result<Seq<u8>, E> },
}

/// Exact-length I/O boundary implemented by a platform backend.
///
/// Implementations must treat a short read or write as an error, abort the
/// corresponding pipe after timeout or cancellation, and prevent late data from
/// leaking into the next transaction.
pub trait Transport {
    type Error;

    /// Every transfer made so far, oldest first.
    ///
    /// A verified backend defines its own history. The default only lets
    /// backends that are not verified leave it out; what is proved of sessions
    /// over such a backend rests on its keeping the contracts below.
    closed spec fn history(&self) -> Seq<Transfer<Self::Error>> {
        arbitrary()
    }

    /// Writes all bytes to an OUT pipe.
    ///
    /// # Errors
    ///
    /// Returns the backend error for submission, timeout, cancellation,
    /// short transfer, device removal, or recovery failure.
    fn write_exact(&mut self, pipe: OutPipe, bytes: &[u8], options: TransferOptions<'_>) -> (result:
        Result<(), Self::Error>)
        ensures
            final(self).history() == old(self).history().push(
                Transfer::Write { pipe, bytes: bytes@, timeout: options.timeout, result },
            ),
    ;

    /// Fills the entire buffer from an IN pipe.
    ///
    /// # Errors
    ///
    /// Returns the backend error for submission, timeout, cancellation,
    /// short transfer, device removal, or recovery failure.
    fn read_exact(
        &mut self,
        pipe: InPipe,
        bytes: &mut [u8],
        options: TransferOptions<'_>,
    ) -> (result: Result<(), Self::Error>)
        ensures
            final(bytes)@.len() == old(bytes)@.len(),
            final(self).history() == old(self).history().push(
                Transfer::Read {
                    pipe,
                    length: old(bytes)@.len(),
                    timeout: options.timeout,
                    result: match result {
                        Ok(_) => Ok(final(bytes)@),
                        Err(source) => Err(source),
                    },
                },
            ),
    ;
}

/// Injectable delay boundary used for the wait after a download.
pub trait Delay {
    /// Every wait so far in milliseconds, oldest first.
    ///
    /// As with a transport's history, the default is for implementations that
    /// are not verified.
    closed spec fn waits(&self) -> Seq<u64> {
        arbitrary()
    }

    /// Waits for a number of milliseconds.
    fn delay(&mut self, duration: u64)
        ensures
            final(self).waits() == old(self).waits().push(duration),
    ;
}

/// The waits of a session: how long each one was, and how many transfers the
/// transport had made when it began.
pub struct Waits {
    pub durations: Seq<u64>,
    pub places: Seq<nat>,
}

impl Waits {
    /// These waits and one more.
    pub open spec fn then_wait(self, duration: u64, place: nat) -> Waits {
        Waits { durations: self.durations.push(duration), places: self.places.push(place) }
    }
}

/// Remembers where the waits of a session fall between its transfers. Only
/// [`WaitLog::wait`] adds to it.
pub struct WaitLog {
    places: Ghost<Seq<nat>>,
}

impl View for WaitLog {
    type V = Seq<nat>;

    closed spec fn view(&self) -> Seq<nat> {
        self.places@
    }
}

impl WaitLog {
    #[must_use]
    pub fn new() -> (log: Self)
        ensures
            log@ == Seq::<nat>::empty(),
    {
        WaitLog { places: Ghost(Seq::empty()) }
    }

    /// Waits for a number of milliseconds, behind the transfers that a transport
    /// has made.
    pub fn wait<T: Transport, D: Delay>(&mut self, transport: &T, delay: &mut D, duration: u64)
        ensures
            final(delay).waits() == old(delay).waits().push(duration),
            final(self)@ == old(self)@.push(transport.history().len()),
    {
        delay.delay(duration);
        self.places = Ghost(self.places@.push(transport.history().len()));
    }
}

impl Default for WaitLog {
    fn default() -> (log: Self)
        ensures
            log@ == Seq::<nat>::empty(),
    {
        WaitLog::new()
    }
}

/// No two pipes share an endpoint address, and the direction bit of an
/// address tells the two kinds of pipe apart.
pub proof fn law_pipe_addresses_are_distinct(
    out_left: OutPipe,
    out_right: OutPipe,
    in_left: InPipe,
    in_right: InPipe,
)
    ensures
        out_left.endpoint() == out_right.endpoint() <==> out_left == out_right,
        in_left.endpoint() == in_right.endpoint() <==> in_left == in_right,
        out_left.endpoint() < 0x80 <= in_left.endpoint(),
{
}

/// Reads `length` bytes from an IN pipe into a fresh buffer.
pub(crate) fn read_bytes<T: Transport>(
    transport: &mut T,
    pipe: InPipe,
    length: usize,
    options: TransferOptions<'_>,
) -> (result: Result<Vec<u8>, T::Error>)
    ensures
        result matches Ok(bytes) ==> bytes@.len() == length,
        final(transport).history() == old(transport).history().push(
            Transfer::Read {
                pipe,
                length: length as nat,
                timeout: options.timeout,
                result: match result {
                    Ok(bytes) => Ok(bytes@),
                    Err(source) => Err(source),
                },
            },
        ),
{
    let mut buffer: Vec<u8> = Vec::new();
    crate::bytes::extend_zeros(&mut buffer, length);
    match transport.read_exact(pipe, buffer.as_mut_slice(), options) {
        Ok(()) => Ok(buffer),
        Err(source) => Err(source),
    }
}

} // verus!
