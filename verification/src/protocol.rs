//! Command blocks, payloads and replies of the programmer.

use vstd::prelude::*;
use vstd::slice::slice_subrange;

use crate::assets::algorithm::{Algorithm, AlgorithmView};
use crate::bytes::{
    extend, extend_u16, extend_u32, extend_zeros, half, law_fields_are_low_byte_first, le16, le32,
    lemma_changed_word, lemma_until_nul, lemma_until_nul_prefix, nul_terminated, read_u16, read_u32,
    same_bytes, to_array, u16_at, u32_at, until_nul, word, zeros,
};
use crate::checksum::{crc32, hash, law_a_changed_byte_changes_the_crc32};
use crate::text::{
    ascii_bytes, ascii_codes, bytes_of_chars, chars_of_bytes, decimal, decimal_text, decode_lossy,
    eq_ignoring_case, hex_list, hex_list_text, is_ascii_bytes, is_ascii_text,
    law_case_is_ignored_letter_by_letter, lossy_text, prefixed_hex, prefixed_hex_text,
    same_ignoring_case, same_letter, text_of_bytes,
};

verus! {

pub const COMMAND_BYTES: usize = 64;

pub const ALGORITHM_CHUNK_MAX_BYTES: usize = 0x800;

pub const DEVICE_PARAMETER_BYTES: usize = 0x800;

pub const CONFIGURATION_WRITE_BYTES: usize = 0x100;

pub const CONFIGURATION_READ_BYTES: usize = 0x40;

pub const ADAPTER_CHECK_RESPONSE_BYTES: usize = 0x38;

pub const DIAGNOSTIC_BYTES: usize = 0x40;

pub const VERIFY_SENTINEL: u32 = 0x5555_5555;

/// Bytes of a device parameter image that its CRC32 covers.
pub const DEVICE_PARAMETER_COVERED_BYTES: usize = 0x7fc;

/// Format word of a device parameter image.
pub const DEVICE_PARAMETER_FORMAT: u32 = 0x0161_0001;

/// Layout version of a device parameter image.
pub const DEVICE_PARAMETER_LAYOUT: u16 = 0x0100;

/// Commands whose meaning is known.
#[derive(Debug, Clone, Copy, PartialEq, Eq, Structural)]
pub enum KnownCommand {
    VerifyDeviceAlgorithm,
    AdapterCheck,
    TargetProbe,
    ReadIdentificationResult,
    Erase,
    BlankCheckChunk,
    BlankCheckInitialize,
    BlankCheckFinish,
    ProgramInitialize,
    ProgramFinish,
    ReadInitialize,
    ReadData,
    ReadFinish,
    ReadConfiguration,
    ProgressEvents,
    DownloadAlgorithmChunk,
    DownloadDeviceParameters,
    ProgramChunk,
    WriteConfiguration,
}

/// The number that stands at the start of a command block.
pub open spec fn command_code(command: KnownCommand) -> u16 {
    match command {
        KnownCommand::VerifyDeviceAlgorithm => 0x0008,
        KnownCommand::AdapterCheck => 0x000c,
        KnownCommand::TargetProbe => 0x000f,
        KnownCommand::ReadIdentificationResult => 0x0012,
        KnownCommand::Erase => 0x0013,
        KnownCommand::BlankCheckChunk => 0x0014,
        KnownCommand::BlankCheckInitialize => 0x0015,
        KnownCommand::BlankCheckFinish => 0x0016,
        KnownCommand::ProgramInitialize => 0x0019,
        KnownCommand::ProgramFinish => 0x001a,
        KnownCommand::ReadInitialize => 0x001b,
        KnownCommand::ReadData => 0x001d,
        KnownCommand::ReadFinish => 0x001e,
        KnownCommand::ReadConfiguration => 0x0025,
        KnownCommand::ProgressEvents => 0x003a,
        KnownCommand::DownloadAlgorithmChunk => 0x0087,
        KnownCommand::DownloadDeviceParameters => 0x008a,
        KnownCommand::ProgramChunk => 0x0098,
        KnownCommand::WriteConfiguration => 0x00a3,
    }
}

impl From<KnownCommand> for u16 {
    fn from(value: KnownCommand) -> (code: Self) {
        match value {
            KnownCommand::VerifyDeviceAlgorithm => 0x0008,
            KnownCommand::AdapterCheck => 0x000c,
            KnownCommand::TargetProbe => 0x000f,
            KnownCommand::ReadIdentificationResult => 0x0012,
            KnownCommand::Erase => 0x0013,
            KnownCommand::BlankCheckChunk => 0x0014,
            KnownCommand::BlankCheckInitialize => 0x0015,
            KnownCommand::BlankCheckFinish => 0x0016,
            KnownCommand::ProgramInitialize => 0x0019,
            KnownCommand::ProgramFinish => 0x001a,
            KnownCommand::ReadInitialize => 0x001b,
            KnownCommand::ReadData => 0x001d,
            KnownCommand::ReadFinish => 0x001e,
            KnownCommand::ReadConfiguration => 0x0025,
            KnownCommand::ProgressEvents => 0x003a,
            KnownCommand::DownloadAlgorithmChunk => 0x0087,
            KnownCommand::DownloadDeviceParameters => 0x008a,
            KnownCommand::ProgramChunk => 0x0098,
            KnownCommand::WriteConfiguration => 0x00a3,
        }
    }
}

impl vstd::std_specs::convert::FromSpecImpl<KnownCommand> for u16 {
    open spec fn obeys_from_spec() -> bool {
        true
    }

    open spec fn from_spec(value: KnownCommand) -> u16 {
        command_code(value)
    }
}

/// A command block: the code, three words from offset 4, and 48 further bytes.
pub open spec fn frame(
    command: KnownCommand,
    word_04: u32,
    word_08: u32,
    word_0c: u32,
    tail: Seq<u8>,
) -> Seq<u8> {
    le16(command_code(command)) + zeros(2) + le32(word_04) + le32(word_08) + le32(word_0c) + tail
}

/// A command block whose last 48 bytes are zero.
pub open spec fn plain_frame(
    command: KnownCommand,
    word_04: u32,
    word_08: u32,
    word_0c: u32,
) -> Seq<u8> {
    frame(command, word_04, word_08, word_0c, zeros(48))
}

/// The erase block: its mode stands at offset 16.
pub open spec fn erase_frame(path_selector: u32, mode: EraseMode) -> Seq<u8> {
    frame(KnownCommand::Erase, path_selector, 0, 0, seq![erase_mode_byte(mode)] + zeros(47))
}

/// The byte of an erase mode.
pub open spec fn erase_mode_byte(mode: EraseMode) -> u8 {
    match mode {
        EraseMode::Chip => 0,
        EraseMode::Automatic => 1,
    }
}

/// Where each field of a command block stands.
pub proof fn lemma_frame_fields(
    command: KnownCommand,
    word_04: u32,
    word_08: u32,
    word_0c: u32,
    tail: Seq<u8>,
)
    requires
        tail.len() == 48,
    ensures
        ({
            let block = frame(command, word_04, word_08, word_0c, tail);
            &&& block.len() == COMMAND_BYTES
            &&& u16_at(block, 0) == command_code(command)
            &&& block[2] == 0 && block[3] == 0
            &&& u32_at(block, 0x04) == word_04
            &&& u32_at(block, 0x08) == word_08
            &&& u32_at(block, 0x0c) == word_0c
            &&& block.skip(0x10) == tail
        }),
{
    let block = frame(command, word_04, word_08, word_0c, tail);
    crate::bytes::lemma_le16_reads_back(command_code(command));
    crate::bytes::lemma_le32_reads_back(word_04);
    crate::bytes::lemma_le32_reads_back(word_08);
    crate::bytes::lemma_le32_reads_back(word_0c);
    assert(u16_at(block, 0) == u16_at(le16(command_code(command)), 0));
    assert(u32_at(block, 0x04) == u32_at(le32(word_04), 0));
    assert(u32_at(block, 0x08) == u32_at(le32(word_08), 0));
    assert(u32_at(block, 0x0c) == u32_at(le32(word_0c), 0));
    assert(block.skip(0x10) =~= tail);
}

/// Blocks of different commands, or with different fields, differ: a block
/// determines its command, its three words and its tail.
pub proof fn law_command_blocks_are_unambiguous(
    left: KnownCommand,
    left_words: (u32, u32, u32),
    left_tail: Seq<u8>,
    right: KnownCommand,
    right_words: (u32, u32, u32),
    right_tail: Seq<u8>,
)
    requires
        left_tail.len() == 48,
        right_tail.len() == 48,
        frame(left, left_words.0, left_words.1, left_words.2, left_tail) == frame(
            right,
            right_words.0,
            right_words.1,
            right_words.2,
            right_tail,
        ),
    ensures
        left == right,
        left_words == right_words,
        left_tail == right_tail,
{
    lemma_frame_fields(left, left_words.0, left_words.1, left_words.2, left_tail);
    lemma_frame_fields(right, right_words.0, right_words.1, right_words.2, right_tail);
}

/// A zero-initialized, exactly 64-byte command block.
#[derive(Debug, Clone, PartialEq, Eq)]
pub struct CommandBlock {
    command: KnownCommand,
    bytes: [u8; COMMAND_BYTES],
}

impl View for CommandBlock {
    type V = Seq<u8>;

    /// The bytes that are sent. Which command they hold is
    /// [`CommandBlock::known_command`].
    closed spec fn view(&self) -> Seq<u8> {
        self.bytes@
    }
}

impl CommandBlock {
    /// The command that the block was made for.
    pub closed spec fn known_command(&self) -> KnownCommand {
        self.command
    }

    fn framed(
        command: KnownCommand,
        word_04: u32,
        word_08: u32,
        word_0c: u32,
        tail: &[u8],
    ) -> (block: Self)
        requires
            tail@.len() == 48,
        ensures
            block.known_command() == command,
            block@ == frame(command, word_04, word_08, word_0c, tail@),
            block@.len() == COMMAND_BYTES,
    {
        let mut bytes: Vec<u8> = Vec::new();
        extend_u16(&mut bytes, u16::from(command));
        extend_zeros(&mut bytes, 2);
        extend_u32(&mut bytes, word_04);
        extend_u32(&mut bytes, word_08);
        extend_u32(&mut bytes, word_0c);
        extend(&mut bytes, tail);
        proof {
            assert(bytes@ =~= frame(command, word_04, word_08, word_0c, tail@));
        }
        CommandBlock { command, bytes: to_array(bytes.as_slice()) }
    }

    fn operation(
        command: KnownCommand,
        region_or_mode: u32,
        offset_or_start: u32,
        length: u32,
    ) -> (block: Self)
        ensures
            block.known_command() == command,
            block@ == plain_frame(command, region_or_mode, offset_or_start, length),
            block@.len() == COMMAND_BYTES,
    {
        let mut tail: Vec<u8> = Vec::new();
        extend_zeros(&mut tail, 48);
        assert(tail@ =~= zeros(48));
        Self::framed(command, region_or_mode, offset_or_start, length, tail.as_slice())
    }

    fn new(command: KnownCommand) -> (block: Self)
        ensures
            block.known_command() == command,
            block@ == plain_frame(command, 0, 0, 0),
            block@.len() == COMMAND_BYTES,
    {
        Self::operation(command, 0, 0, 0)
    }

    #[must_use]
    pub fn verify_device_algorithm() -> (block: Self)
        ensures
            block.known_command() == KnownCommand::VerifyDeviceAlgorithm,
            block@ == plain_frame(KnownCommand::VerifyDeviceAlgorithm, 0, 0, 0),
    {
        Self::new(KnownCommand::VerifyDeviceAlgorithm)
    }

    /// The socket and adapter check made after the parameter image is installed
    /// and before the selected operation is dispatched.
    #[must_use]
    pub fn adapter_check() -> (block: Self)
        ensures
            block.known_command() == KnownCommand::AdapterCheck,
            block@ == plain_frame(KnownCommand::AdapterCheck, 2, 0, 0x38),
    {
        Self::operation(KnownCommand::AdapterCheck, 2, 0, 0x38)
    }

    /// The target probe of a normal operation: the block is otherwise zero,
    /// since the socket context already carries the target voltage.
    #[must_use]
    pub fn target_probe() -> (block: Self)
        ensures
            block.known_command() == KnownCommand::TargetProbe,
            block@ == plain_frame(KnownCommand::TargetProbe, 0, 0, 0),
    {
        Self::new(KnownCommand::TargetProbe)
    }

    /// The target probe of automatic identification, which carries the selected
    /// voltage in centivolts.
    #[must_use]
    pub fn spi_flash_identification_probe(voltage_centivolts: u32) -> (block: Self)
        ensures
            block.known_command() == KnownCommand::TargetProbe,
            block@ == plain_frame(KnownCommand::TargetProbe, 0, voltage_centivolts, 0),
    {
        Self::operation(KnownCommand::TargetProbe, 0, voltage_centivolts, 0)
    }

    /// Requests the eight-byte identification result.
    #[must_use]
    pub fn read_spi_flash_identification() -> (block: Self)
        ensures
            block.known_command() == KnownCommand::ReadIdentificationResult,
            block@ == plain_frame(KnownCommand::ReadIdentificationResult, 0, 0, 8),
    {
        Self::operation(KnownCommand::ReadIdentificationResult, 0, 0, 8)
    }

    #[must_use]
    pub fn download_device_parameters() -> (block: Self)
        ensures
            block.known_command() == KnownCommand::DownloadDeviceParameters,
            block@ == plain_frame(KnownCommand::DownloadDeviceParameters, 0, 0, 0x800),
    {
        Self::operation(KnownCommand::DownloadDeviceParameters, 0, 0, 0x800)
    }

    #[must_use]
    pub fn blank_check_initialize(region: u32, region_length: u32) -> (block: Self)
        ensures
            block.known_command() == KnownCommand::BlankCheckInitialize,
            block@ == plain_frame(KnownCommand::BlankCheckInitialize, region, 0, region_length),
    {
        Self::operation(KnownCommand::BlankCheckInitialize, region, 0, region_length)
    }

    #[must_use]
    pub fn blank_check_chunk(region: u32, offset: u32, chunk_length: u32) -> (block: Self)
        ensures
            block.known_command() == KnownCommand::BlankCheckChunk,
            block@ == plain_frame(KnownCommand::BlankCheckChunk, region, offset, chunk_length),
    {
        Self::operation(KnownCommand::BlankCheckChunk, region, offset, chunk_length)
    }

    #[must_use]
    pub fn blank_check_finish(region: u32) -> (block: Self)
        ensures
            block.known_command() == KnownCommand::BlankCheckFinish,
            block@ == plain_frame(KnownCommand::BlankCheckFinish, region, 0, 0),
    {
        Self::operation(KnownCommand::BlankCheckFinish, region, 0, 0)
    }

    #[must_use]
    pub fn program_initialize(region: u32, start: u32, total_length: u32) -> (block: Self)
        ensures
            block.known_command() == KnownCommand::ProgramInitialize,
            block@ == plain_frame(KnownCommand::ProgramInitialize, region, start, total_length),
    {
        Self::operation(KnownCommand::ProgramInitialize, region, start, total_length)
    }

    #[must_use]
    pub fn program_chunk(region: u32, offset: u32, chunk_length: u32) -> (block: Self)
        ensures
            block.known_command() == KnownCommand::ProgramChunk,
            block@ == plain_frame(KnownCommand::ProgramChunk, region, offset, chunk_length),
    {
        Self::operation(KnownCommand::ProgramChunk, region, offset, chunk_length)
    }

    #[must_use]
    pub fn program_finish(region: u32) -> (block: Self)
        ensures
            block.known_command() == KnownCommand::ProgramFinish,
            block@ == plain_frame(KnownCommand::ProgramFinish, region, 0, 0),
    {
        Self::operation(KnownCommand::ProgramFinish, region, 0, 0)
    }

    #[must_use]
    pub fn read_initialize(region: u32, start: u32, total_length: u32) -> (block: Self)
        ensures
            block.known_command() == KnownCommand::ReadInitialize,
            block@ == plain_frame(KnownCommand::ReadInitialize, region, start, total_length),
    {
        Self::operation(KnownCommand::ReadInitialize, region, start, total_length)
    }

    #[must_use]
    pub fn read_data(region: u32, start: u32, total_length: u32) -> (block: Self)
        ensures
            block.known_command() == KnownCommand::ReadData,
            block@ == plain_frame(KnownCommand::ReadData, region, start, total_length),
    {
        Self::operation(KnownCommand::ReadData, region, start, total_length)
    }

    #[must_use]
    pub fn read_finish(region: u32) -> (block: Self)
        ensures
            block.known_command() == KnownCommand::ReadFinish,
            block@ == plain_frame(KnownCommand::ReadFinish, region, 0, 0),
    {
        Self::operation(KnownCommand::ReadFinish, region, 0, 0)
    }

    #[must_use]
    pub fn write_configuration() -> (block: Self)
        ensures
            block.known_command() == KnownCommand::WriteConfiguration,
            block@ == plain_frame(KnownCommand::WriteConfiguration, 0, 0, 0x100),
    {
        Self::operation(KnownCommand::WriteConfiguration, 0, 0, 0x100)
    }

    #[must_use]
    pub fn read_configuration() -> (block: Self)
        ensures
            block.known_command() == KnownCommand::ReadConfiguration,
            block@ == plain_frame(KnownCommand::ReadConfiguration, 0, 0, 0x40),
    {
        Self::operation(KnownCommand::ReadConfiguration, 0, 0, 0x40)
    }

    /// The erase command. `path_selector` stays raw: the meaning of its single
    /// bits is not known.
    #[must_use]
    pub fn erase(path_selector: u32, mode: EraseMode) -> (block: Self)
        ensures
            block.known_command() == KnownCommand::Erase,
            block@ == erase_frame(path_selector, mode),
            block@.len() == COMMAND_BYTES,
    {
        let mode_byte: u8 = match mode {
            EraseMode::Chip => 0,
            EraseMode::Automatic => 1,
        };
        let mut tail: Vec<u8> = Vec::new();
        tail.push(mode_byte);
        extend_zeros(&mut tail, 47);
        assert(tail@ =~= seq![erase_mode_byte(mode)] + zeros(47));
        Self::framed(KnownCommand::Erase, path_selector, 0, 0, tail.as_slice())
    }

    #[must_use]
    pub fn progress_events() -> (block: Self)
        ensures
            block.known_command() == KnownCommand::ProgressEvents,
            block@ == plain_frame(KnownCommand::ProgressEvents, 0, 0, 0),
    {
        Self::new(KnownCommand::ProgressEvents)
    }

    #[must_use]
    pub fn command(&self) -> (command: KnownCommand)
        ensures
            command == self.known_command(),
    {
        self.command
    }

    #[must_use]
    pub fn as_bytes(&self) -> (bytes: &[u8; COMMAND_BYTES])
        ensures
            bytes@ == self@,
    {
        &self.bytes
    }

    #[must_use]
    pub fn into_bytes(self) -> (bytes: [u8; COMMAND_BYTES])
        ensures
            bytes@ == self@,
    {
        self.bytes
    }
}

/// Mode byte of the shared erase command.
#[derive(Debug, Clone, Copy, PartialEq, Eq, Structural)]
pub enum EraseMode {
    Chip,
    Automatic,
}

/// The payload of a configuration write: the data, its mask at offset 128, and
/// zeros behind each.
pub open spec fn configuration_payload_bytes(data: Seq<u8>, mask: Seq<u8>) -> Seq<u8> {
    data + zeros(0x40) + mask + zeros(0x40)
}

/// Exact 256-byte payload of a configuration write.
#[derive(Debug, Clone, PartialEq, Eq)]
pub struct ConfigurationWritePayload([u8; CONFIGURATION_WRITE_BYTES]);

impl View for ConfigurationWritePayload {
    type V = Seq<u8>;

    closed spec fn view(&self) -> Seq<u8> {
        self.0@
    }
}

impl ConfigurationWritePayload {
    #[must_use]
    pub fn new(
        data: &[u8; CONFIGURATION_READ_BYTES],
        mask: &[u8; CONFIGURATION_READ_BYTES],
    ) -> (payload: Self)
        ensures
            payload@ == configuration_payload_bytes(data@, mask@),
    {
        let mut bytes: Vec<u8> = Vec::new();
        extend(&mut bytes, data);
        extend_zeros(&mut bytes, 0x40);
        extend(&mut bytes, mask);
        extend_zeros(&mut bytes, 0x40);
        assert(bytes@ =~= configuration_payload_bytes(data@, mask@));
        ConfigurationWritePayload(to_array(bytes.as_slice()))
    }

    #[must_use]
    pub fn as_bytes(&self) -> (bytes: &[u8; CONFIGURATION_WRITE_BYTES])
        ensures
            bytes@ == self@,
    {
        &self.0
    }
}

/// A completion byte that lets an operation go on.
pub open spec fn completion_accepted(status: u8) -> bool {
    status & 0xa0 != 0 && status & 0x40 == 0
}

/// Branch selected by one raw completion byte.
#[derive(Debug, Clone, Copy, PartialEq, Eq, Structural)]
pub enum CompletionDisposition {
    Accepted,
    /// The operation owns a command-specific response or diagnostic branch.
    AuxiliaryResult,
}

/// Classifies one raw completion byte.
#[must_use]
pub fn classify_completion_status(status: u8) -> (disposition: CompletionDisposition)
    ensures
        disposition == if completion_accepted(status) {
            CompletionDisposition::Accepted
        } else {
            CompletionDisposition::AuxiliaryResult
        },
{
    if status & 0xa0 != 0 && status & 0x40 == 0 {
        CompletionDisposition::Accepted
    } else {
        CompletionDisposition::AuxiliaryResult
    }
}

/// Whether a raw completion byte is accepted.
#[must_use]
pub fn completion_status_accepted(status: u8) -> (accepted: bool)
    ensures
        accepted == completion_accepted(status),
{
    matches!(classify_completion_status(status), CompletionDisposition::Accepted)
}

/// First masked difference in a configuration readback.
#[derive(Debug, Clone, Copy, PartialEq, Eq, Structural)]
pub struct ConfigurationMismatch {
    pub offset: usize,
    pub expected: u8,
    pub actual: u8,
    pub mask: u8,
}

/// A byte differs in a bit that the mask selects.
pub open spec fn differs_under_mask(expected: u8, actual: u8, mask: u8) -> bool {
    (expected ^ actual) & mask != 0
}

/// A result is the first masked difference of two configurations.
pub open spec fn first_masked_difference(
    expected: Seq<u8>,
    actual: Seq<u8>,
    mask: Seq<u8>,
    found: Option<ConfigurationMismatch>,
) -> bool {
    match found {
        None => forall|i: int|
            0 <= i < expected.len() ==> !differs_under_mask(
                #[trigger] expected[i],
                actual[i],
                mask[i],
            ),
        Some(mismatch) => {
            &&& mismatch.offset < expected.len()
            &&& mismatch.expected == expected[mismatch.offset as int]
            &&& mismatch.actual == actual[mismatch.offset as int]
            &&& mismatch.mask == mask[mismatch.offset as int]
            &&& differs_under_mask(mismatch.expected, mismatch.actual, mismatch.mask)
            &&& forall|i: int|
                0 <= i < mismatch.offset ==> !differs_under_mask(
                    #[trigger] expected[i],
                    actual[i],
                    mask[i],
                )
        },
    }
}

/// Compares two configurations in the bits that the mask selects.
#[must_use]
pub fn configuration_mismatch(
    expected: &[u8; CONFIGURATION_READ_BYTES],
    actual: &[u8; CONFIGURATION_READ_BYTES],
    mask: &[u8; CONFIGURATION_READ_BYTES],
) -> (found: Option<ConfigurationMismatch>)
    ensures
        first_masked_difference(expected@, actual@, mask@, found),
{
    let mut i: usize = 0;
    while i < CONFIGURATION_READ_BYTES
        invariant
            i <= CONFIGURATION_READ_BYTES,
            forall|j: int|
                0 <= j < i ==> !differs_under_mask(#[trigger] expected@[j], actual@[j], mask@[j]),
        decreases CONFIGURATION_READ_BYTES - i,
    {
        if (expected[i] ^ actual[i]) & mask[i] != 0 {
            return Some(
                ConfigurationMismatch {
                    offset: i,
                    expected: expected[i],
                    actual: actual[i],
                    mask: mask[i],
                },
            );
        }
        i += 1;
    }
    None
}

/// Equal configurations have no difference, whatever the mask, and with an empty
/// mask no two configurations have one.
pub proof fn law_masked_comparison(
    expected: Seq<u8>,
    actual: Seq<u8>,
    mask: Seq<u8>,
    found: Option<ConfigurationMismatch>,
)
    requires
        expected.len() == actual.len() == mask.len(),
        first_masked_difference(expected, actual, mask, found),
        expected == actual || mask == zeros(mask.len()),
    ensures
        found is None,
{
    if let Some(mismatch) = found {
        let e = mismatch.expected;
        let a = mismatch.actual;
        let m = mismatch.mask;
        assert(e == a || m == 0);
        assert(e == a || m == 0 ==> (e ^ a) & m == 0) by (bit_vector);
    }
}

/// What a diagnostic block reports.
pub open spec fn diagnostic_kind(raw: Seq<u8>) -> DiagnosticKind {
    let code = raw[0];
    if code == 0x01 {
        DiagnosticKind::FirmwareSystemError
    } else if code == 0x02 {
        DiagnosticKind::CustomProgrammerProductRequired
    } else if code == 0x04 {
        DiagnosticKind::ProgrammerDisabled
    } else if code == 0x0b {
        DiagnosticKind::ChipInitializationFailed
    } else if code == 0x0d {
        DiagnosticKind::VerifyMismatch {
            details: [
                u32_at(raw, 0x10),
                u32_at(raw, 0x14),
                u32_at(raw, 0x18),
                u32_at(raw, 0x1c),
            ],
        }
    } else if code == 0x0e {
        DiagnosticKind::BlankCheckFailed {
            address: u32_at(raw, 0x10),
            chip_data: u32_at(raw, 0x14),
        }
    } else if code == 0x0f {
        DiagnosticKind::ProgramFailed
    } else if code == 0x10 {
        DiagnosticKind::ChipReadFailed
    } else if code == 0x14 {
        DiagnosticKind::CurrentLimitProtection
    } else if code == 0x15 {
        DiagnosticKind::TargetVoltageNotDetected
    } else if code == 0x16 {
        DiagnosticKind::IspSupplyConflict
    } else if code == 0x1e {
        DiagnosticKind::AdapterNotDetected
    } else if code == 0x20 {
        DiagnosticKind::DriverAlgorithmNotMatched
    } else if code == 0x22 {
        DiagnosticKind::AdapterMismatch
    } else if code == 0x24 {
        DiagnosticKind::AdapterMaximumUseCount
    } else if code == 0x34 {
        DiagnosticKind::ChipEccFailure { packed_block_page: u32_at(raw, 0x10) }
    } else {
        DiagnosticKind::Generic { code }
    }
}

/// Parsed, lossless 64-byte operation diagnostic.
#[derive(Debug, Clone, PartialEq, Eq)]
pub struct OperationDiagnostic {
    kind: DiagnosticKind,
    raw: [u8; DIAGNOSTIC_BYTES],
}

impl View for OperationDiagnostic {
    type V = Seq<u8>;

    /// The bytes that were received. What they report is
    /// [`OperationDiagnostic::reported`].
    closed spec fn view(&self) -> Seq<u8> {
        self.raw@
    }
}

impl OperationDiagnostic {
    /// The kind that was read from the block.
    pub closed spec fn reported(&self) -> DiagnosticKind {
        self.kind
    }

    /// The diagnostic holds the given block and what it reports.
    pub open spec fn describes(&self, raw: Seq<u8>) -> bool {
        self@ == raw && self.reported() == diagnostic_kind(raw)
    }

    /// Parses an exact diagnostic block while retaining every raw byte.
    ///
    /// # Errors
    ///
    /// Returns [`ProtocolError::DiagnosticLength`] unless `bytes` contains
    /// exactly 64 bytes.
    pub fn parse(bytes: &[u8]) -> (result: Result<Self, ProtocolError>)
        ensures
            match result {
                Ok(diagnostic) => bytes@.len() == DIAGNOSTIC_BYTES && diagnostic.describes(bytes@),
                Err(error) => bytes@.len() != DIAGNOSTIC_BYTES && error@ == (
                ProtocolError::<Seq<char>>::DiagnosticLength {
                    actual: bytes@.len() as usize,
                    expected: DIAGNOSTIC_BYTES,
                }),
            },
    {
        if bytes.len() != DIAGNOSTIC_BYTES {
            return Err(
                ProtocolError::DiagnosticLength {
                    actual: bytes.len(),
                    expected: DIAGNOSTIC_BYTES,
                },
            );
        }
        Ok(Self::from_block(bytes))
    }

    /// Reads a block of the right length.
    pub(crate) fn from_block(bytes: &[u8]) -> (diagnostic: Self)
        requires
            bytes@.len() == DIAGNOSTIC_BYTES,
        ensures
            diagnostic.describes(bytes@),
    {
        let raw: [u8; DIAGNOSTIC_BYTES] = to_array(bytes);
        let kind: DiagnosticKind = match bytes[0] {
            0x01 => DiagnosticKind::FirmwareSystemError,
            0x02 => DiagnosticKind::CustomProgrammerProductRequired,
            0x04 => DiagnosticKind::ProgrammerDisabled,
            0x0b => DiagnosticKind::ChipInitializationFailed,
            0x0d => DiagnosticKind::VerifyMismatch {
                details: [
                    read_u32(bytes, 0x10),
                    read_u32(bytes, 0x14),
                    read_u32(bytes, 0x18),
                    read_u32(bytes, 0x1c),
                ],
            },
            0x0e => DiagnosticKind::BlankCheckFailed {
                address: read_u32(bytes, 0x10),
                chip_data: read_u32(bytes, 0x14),
            },
            0x0f => DiagnosticKind::ProgramFailed,
            0x10 => DiagnosticKind::ChipReadFailed,
            0x14 => DiagnosticKind::CurrentLimitProtection,
            0x15 => DiagnosticKind::TargetVoltageNotDetected,
            0x16 => DiagnosticKind::IspSupplyConflict,
            0x1e => DiagnosticKind::AdapterNotDetected,
            0x20 => DiagnosticKind::DriverAlgorithmNotMatched,
            0x22 => DiagnosticKind::AdapterMismatch,
            0x24 => DiagnosticKind::AdapterMaximumUseCount,
            0x34 => DiagnosticKind::ChipEccFailure { packed_block_page: read_u32(bytes, 0x10) },
            code => DiagnosticKind::Generic { code },
        };
        OperationDiagnostic { kind, raw }
    }

    #[must_use]
    pub fn code(&self) -> (code: u8)
        ensures
            code == self@[0],
    {
        self.raw[0]
    }

    #[must_use]
    pub fn kind(&self) -> (kind: &DiagnosticKind)
        ensures
            *kind == self.reported(),
    {
        &self.kind
    }

    #[must_use]
    pub fn raw(&self) -> (raw: &[u8; DIAGNOSTIC_BYTES])
        ensures
            raw@ == self@,
    {
        &self.raw
    }
}

/// What an operation diagnostic reports.
#[derive(Debug, Clone, PartialEq, Eq)]
pub enum DiagnosticKind {
    FirmwareSystemError,
    CustomProgrammerProductRequired,
    ProgrammerDisabled,
    ChipInitializationFailed,
    VerifyMismatch { details: [u32; 4] },
    BlankCheckFailed { address: u32, chip_data: u32 },
    ProgramFailed,
    ChipReadFailed,
    CurrentLimitProtection,
    TargetVoltageNotDetected,
    IspSupplyConflict,
    AdapterNotDetected,
    DriverAlgorithmNotMatched,
    AdapterMismatch,
    AdapterMaximumUseCount,
    ChipEccFailure { packed_block_page: u32 },
    Generic { code: u8 },
}

/// A name that a chunk header can carry: 1 to 15 ASCII characters.
pub open spec fn encodable_name(name: Seq<char>) -> bool {
    0 < name.len() < 16 && is_ascii_text(name)
}

/// A name in a 16-byte field, filled up with zeros.
pub open spec fn name_field(name: Seq<char>) -> Seq<u8> {
    bytes_of_chars(name) + zeros((16 - name.len()) as nat)
}

/// The number of payload bytes in the chunk at an offset.
pub open spec fn chunk_length(algorithm: AlgorithmView, offset: int) -> int {
    if algorithm.payload.len() - offset < ALGORITHM_CHUNK_MAX_BYTES {
        algorithm.payload.len() - offset
    } else {
        ALGORITHM_CHUNK_MAX_BYTES as int
    }
}

/// The payload bytes of the chunk at an offset.
pub open spec fn chunk_payload(algorithm: AlgorithmView, offset: int) -> Seq<u8> {
    algorithm.payload.subrange(offset, offset + chunk_length(algorithm, offset))
}

/// The command block of the chunk at an offset.
pub open spec fn chunk_frame(algorithm: AlgorithmView, offset: int) -> Seq<u8> {
    frame(
        KnownCommand::DownloadAlgorithmChunk,
        0,
        offset as u32,
        chunk_length(algorithm, offset) as u32,
        name_field(algorithm.name) + algorithm.timestamp + zeros(24),
    )
}

/// One algorithm download command and its matching payload slice.
#[derive(Debug, Clone, PartialEq, Eq)]
pub struct AlgorithmChunk<'a> {
    offset: usize,
    command: CommandBlock,
    payload: &'a [u8],
}

impl<'a> AlgorithmChunk<'a> {
    /// Where the chunk begins in the payload.
    pub closed spec fn position(&self) -> usize {
        self.offset
    }

    /// The command block of the chunk.
    pub closed spec fn block(&self) -> CommandBlock {
        self.command
    }

    /// The payload bytes of the chunk.
    pub closed spec fn contents(&self) -> Seq<u8> {
        self.payload@
    }

    /// Builds the chunk beginning at `offset` and caps it at 2048 bytes.
    ///
    /// # Errors
    ///
    /// Returns [`ProtocolError`] when the offset is outside the payload, or
    /// else when the algorithm name cannot be encoded.
    pub fn new(algorithm: &'a Algorithm, offset: usize) -> (result: Result<Self, ProtocolError>)
        ensures
            match result {
                Ok(chunk) => {
                    &&& offset < algorithm@.payload.len()
                    &&& encodable_name(algorithm@.name)
                    &&& chunk.position() == offset
                    &&& chunk.block()@ == chunk_frame(algorithm@, offset as int)
                    &&& chunk.block().known_command() == KnownCommand::DownloadAlgorithmChunk
                    &&& chunk.contents() == chunk_payload(algorithm@, offset as int)
                },
                Err(error) => if offset >= algorithm@.payload.len() {
                    error@ == (ProtocolError::<Seq<char>>::ChunkOffset {
                        offset,
                        payload_length: algorithm@.payload.len() as usize,
                    })
                } else {
                    &&& !encodable_name(algorithm@.name)
                    &&& error@ == (ProtocolError::<Seq<char>>::AlgorithmName {
                        name: algorithm@.name,
                        maximum_bytes: 15,
                    })
                },
            },
    {
        let payload: &'a [u8] = algorithm.payload();
        if offset >= payload.len() {
            return Err(ProtocolError::ChunkOffset { offset, payload_length: payload.len() });
        }
        let name: [u8; 16] = match encode_algorithm_name(algorithm.name()) {
            Some(name) => name,
            None => {
                return Err(
                    ProtocolError::AlgorithmName {
                        name: algorithm.name().to_owned(),
                        maximum_bytes: 15,
                    },
                );
            },
        };
        let length: usize = if payload.len() - offset < ALGORITHM_CHUNK_MAX_BYTES {
            payload.len() - offset
        } else {
            ALGORITHM_CHUNK_MAX_BYTES
        };
        let timestamp: [u8; 8] = algorithm.timestamp();
        let mut tail: Vec<u8> = Vec::new();
        extend(&mut tail, &name);
        extend(&mut tail, &timestamp);
        extend_zeros(&mut tail, 24);
        assert(tail@ =~= name_field(algorithm@.name) + algorithm@.timestamp + zeros(24));
        let command = CommandBlock::framed(
            KnownCommand::DownloadAlgorithmChunk,
            0,
            offset as u32,
            length as u32,
            tail.as_slice(),
        );
        Ok(AlgorithmChunk { offset, command, payload: slice_subrange(payload, offset, offset + length) })
    }

    #[must_use]
    pub fn offset(&self) -> (offset: usize)
        ensures
            offset == self.position(),
    {
        self.offset
    }

    #[must_use]
    pub fn command(&self) -> (command: &CommandBlock)
        ensures
            *command == self.block(),
    {
        &self.command
    }

    #[must_use]
    pub fn payload(&self) -> (payload: &'a [u8])
        ensures
            payload@ == self.contents(),
    {
        self.payload
    }
}

/// All chunks of an algorithm, in order.
///
/// # Errors
///
/// Returns [`ProtocolError::AlgorithmName`] when the name cannot be encoded.
#[verifier::rlimit(50)]
pub fn algorithm_chunks(algorithm: &Algorithm) -> (result: Result<
    Vec<AlgorithmChunk<'_>>,
    ProtocolError,
>)
    ensures
        match result {
            Ok(chunks) => {
                &&& encodable_name(algorithm@.name)
                &&& chunks@.len() == (algorithm@.payload.len() + 0x7ff) / 0x800
                &&& forall|i: int|
                    0 <= i < chunks@.len() ==> {
                        &&& (#[trigger] chunks@[i]).position() == i * 0x800
                        &&& chunks@[i].block()@ == chunk_frame(algorithm@, i * 0x800)
                        &&& chunks@[i].contents() == chunk_payload(algorithm@, i * 0x800)
                    }
            },
            Err(error) => !encodable_name(algorithm@.name) && error@ == (
            ProtocolError::<Seq<char>>::AlgorithmName {
                name: algorithm@.name,
                maximum_bytes: 15,
            }),
        },
{
    let length: usize = algorithm.payload().len();
    let mut chunks: Vec<AlgorithmChunk<'_>> = Vec::new();
    let mut offset: usize = 0;
    while offset < length
        invariant
            length == algorithm@.payload.len(),
            1 <= length <= 0x4000,
            offset == chunks@.len() * 0x800,
            offset < length + 0x800,
            offset > 0 ==> encodable_name(algorithm@.name),
            forall|i: int|
                0 <= i < chunks@.len() ==> {
                    &&& (#[trigger] chunks@[i]).position() == i * 0x800
                    &&& chunks@[i].block()@ == chunk_frame(algorithm@, i * 0x800)
                    &&& chunks@[i].contents() == chunk_payload(algorithm@, i * 0x800)
                },
        decreases length + 0x800 - offset,
    {
        let chunk = AlgorithmChunk::new(algorithm, offset)?;
        chunks.push(chunk);
        offset += ALGORITHM_CHUNK_MAX_BYTES;
    }
    Ok(chunks)
}

/// A name in a 16-byte field, if it fits with a zero behind it.
fn encode_algorithm_name(name: &str) -> (field: Option<[u8; 16]>)
    ensures
        field.is_some() <==> encodable_name(name@),
        field matches Some(bytes) ==> bytes@ == name_field(name@),
{
    match ascii_codes(name) {
        None => None,
        Some(codes) => {
            if codes.len() == 0 || codes.len() >= 16 {
                return None;
            }
            let mut field: Vec<u8> = Vec::new();
            extend(&mut field, codes.as_slice());
            extend_zeros(&mut field, 16 - codes.len());
            assert(field@ =~= name_field(name@));
            Some(to_array(field.as_slice()))
        },
    }
}

/// Why an image is not a valid parameter image, given the CRC32 of its first
/// 2044 bytes. Rules apply in the order of the tests.
pub open spec fn sprj_error(bytes: Seq<u8>, computed: u32) -> Option<ProtocolError<Seq<char>>> {
    if bytes.len() != DEVICE_PARAMETER_BYTES {
        Some(
            ProtocolError::DeviceParameterLength {
                actual: bytes.len() as usize,
                expected: DEVICE_PARAMETER_BYTES,
            },
        )
    } else if bytes.take(4) != seq![0x53u8, 0x50, 0x52, 0x4a] {
        Some(ProtocolError::DeviceParameterMagic)
    } else if u32_at(bytes, 0x04) != DEVICE_PARAMETER_FORMAT {
        Some(ProtocolError::DeviceParameterFormat { actual: u32_at(bytes, 0x04) })
    } else if u16_at(bytes, 0x08) != DEVICE_PARAMETER_LAYOUT {
        Some(ProtocolError::DeviceParameterLayout { actual: u16_at(bytes, 0x08) })
    } else if u32_at(bytes, 0x7fc) != computed {
        Some(ProtocolError::DeviceParameterCrc { stored: u32_at(bytes, 0x7fc), computed })
    } else {
        None
    }
}

/// A valid parameter image in which one byte was changed is refused, wherever
/// the byte lies.
pub proof fn law_changed_images_are_refused(image: Seq<u8>, index: int, value: u8)
    requires
        sprj_error(image, crc32(image.take(DEVICE_PARAMETER_COVERED_BYTES as int))) is None,
        0 <= index < image.len(),
        value != image[index],
    ensures
        ({
            let changed = image.update(index, value);
            sprj_error(
                changed,
                crc32(changed.take(DEVICE_PARAMETER_COVERED_BYTES as int)),
            ) is Some
        }),
{
    let changed = image.update(index, value);
    let end: int = DEVICE_PARAMETER_COVERED_BYTES as int;
    if index < end {
        law_a_changed_byte_changes_the_crc32(image.take(end), index, value);
        assert(changed.take(end) =~= image.take(end).update(index, value));
        assert(u32_at(changed, end) == u32_at(image, end));
    } else {
        assert(changed.take(end) =~= image.take(end));
        lemma_changed_word(image, end, index, value);
    }
}

/// The first identity field in which an image and an algorithm disagree.
pub open spec fn metadata_error(image: Seq<u8>, algorithm: AlgorithmView) -> Option<
    ProtocolError<Seq<char>>,
> {
    let name = until_nul(image.subrange(0x540, 0x550));
    let timestamp = image.subrange(0x550, 0x558);
    let length = u32_at(image, 0x558);
    let crc = u32_at(image, 0x55c);
    if !same_ignoring_case(chars_of_bytes(name), algorithm.name) {
        Some(
            ProtocolError::DeviceParameterAlgorithmMetadata {
                field: "name",
                expected: algorithm.name,
                actual: lossy_text(name),
            },
        )
    } else if timestamp != algorithm.timestamp {
        Some(
            ProtocolError::DeviceParameterAlgorithmMetadata {
                field: "timestamp",
                expected: hex_list(algorithm.timestamp),
                actual: hex_list(timestamp),
            },
        )
    } else if length != algorithm.payload.len() {
        Some(
            ProtocolError::DeviceParameterAlgorithmMetadata {
                field: "payload length",
                expected: decimal(algorithm.payload.len()),
                actual: decimal(length as nat),
            },
        )
    } else if crc != algorithm.payload_crc32 {
        Some(
            ProtocolError::DeviceParameterAlgorithmMetadata {
                field: "payload CRC32",
                expected: prefixed_hex(algorithm.payload_crc32),
                actual: prefixed_hex(crc),
            },
        )
    } else {
        None
    }
}

/// Exactly 2048-byte device parameter context.
#[derive(Debug, Clone, PartialEq, Eq)]
pub struct DeviceParameterImage(Box<[u8; DEVICE_PARAMETER_BYTES]>);

impl View for DeviceParameterImage {
    type V = Seq<u8>;

    closed spec fn view(&self) -> Seq<u8> {
        self.0@
    }
}

impl DeviceParameterImage {
    #[must_use]
    pub fn from_bytes(bytes: [u8; DEVICE_PARAMETER_BYTES]) -> (image: Self)
        ensures
            image@ == bytes@,
    {
        DeviceParameterImage(Box::new(bytes))
    }

    /// Copies an exact-length raw parameter image.
    ///
    /// # Errors
    ///
    /// Returns [`ProtocolError::DeviceParameterLength`] unless the slice is
    /// exactly 2048 bytes.
    pub fn try_from_slice(bytes: &[u8]) -> (result: Result<Self, ProtocolError>)
        ensures
            match result {
                Ok(image) => bytes@.len() == DEVICE_PARAMETER_BYTES && image@ == bytes@,
                Err(error) => bytes@.len() != DEVICE_PARAMETER_BYTES && error@ == (
                ProtocolError::<Seq<char>>::DeviceParameterLength {
                    actual: bytes@.len() as usize,
                    expected: DEVICE_PARAMETER_BYTES,
                }),
            },
    {
        if bytes.len() != DEVICE_PARAMETER_BYTES {
            return Err(
                ProtocolError::DeviceParameterLength {
                    actual: bytes.len(),
                    expected: DEVICE_PARAMETER_BYTES,
                },
            );
        }
        Ok(Self::from_bytes(to_array(bytes)))
    }

    /// Validates the header and the whole-image CRC32 before accepting an
    /// externally supplied parameter image.
    ///
    /// # Errors
    ///
    /// Returns [`ProtocolError`] for an invalid length, magic, format value,
    /// layout version, or final CRC32.
    pub fn try_from_sprj(bytes: &[u8]) -> (result: Result<Self, ProtocolError>)
        ensures
            match (result, sprj_error(
                bytes@,
                crc32(bytes@.take(DEVICE_PARAMETER_COVERED_BYTES as int)),
            )) {
                (Ok(image), None) => image@ == bytes@,
                (Err(error), Some(reason)) => error@ == reason,
                _ => false,
            },
    {
        if bytes.len() != DEVICE_PARAMETER_BYTES {
            return Self::try_from_sprj_with_crc(bytes, 0);
        }
        assert(bytes@.subrange(0, DEVICE_PARAMETER_COVERED_BYTES as int) =~= bytes@.take(
            DEVICE_PARAMETER_COVERED_BYTES as int,
        ));
        let computed: u32 = hash(slice_subrange(bytes, 0, DEVICE_PARAMETER_COVERED_BYTES));
        Self::try_from_sprj_with_crc(bytes, computed)
    }

    /// Validates an image when the CRC32 of its first 2044 bytes is known.
    ///
    /// # Errors
    ///
    /// Returns [`ProtocolError`] as [`Self::try_from_sprj`] does.
    pub fn try_from_sprj_with_crc(bytes: &[u8], computed: u32) -> (result: Result<
        Self,
        ProtocolError,
    >)
        ensures
            match (result, sprj_error(bytes@, computed)) {
                (Ok(image), None) => image@ == bytes@,
                (Err(error), Some(reason)) => error@ == reason,
                _ => false,
            },
    {
        let image = Self::try_from_slice(bytes)?;
        if bytes[0] != 0x53 || bytes[1] != 0x50 || bytes[2] != 0x52 || bytes[3] != 0x4a {
            proof {
                let expected = seq![0x53u8, 0x50, 0x52, 0x4a];
                assert(bytes@.take(4)[0] != expected[0] || bytes@.take(4)[1] != expected[1]
                    || bytes@.take(4)[2] != expected[2] || bytes@.take(4)[3] != expected[3]);
            }
            return Err(ProtocolError::DeviceParameterMagic);
        }
        assert(bytes@.take(4) =~= seq![0x53u8, 0x50, 0x52, 0x4a]);
        let format: u32 = read_u32(bytes, 0x04);
        if format != DEVICE_PARAMETER_FORMAT {
            return Err(ProtocolError::DeviceParameterFormat { actual: format });
        }
        let layout: u16 = read_u16(bytes, 0x08);
        if layout != DEVICE_PARAMETER_LAYOUT {
            return Err(ProtocolError::DeviceParameterLayout { actual: layout });
        }
        let stored: u32 = read_u32(bytes, 0x7fc);
        if stored != computed {
            return Err(ProtocolError::DeviceParameterCrc { stored, computed });
        }
        Ok(image)
    }

    /// Checks that the algorithm identity in the image is that of the algorithm
    /// that will be downloaded in the same session.
    ///
    /// # Errors
    ///
    /// Returns [`ProtocolError::DeviceParameterAlgorithmMetadata`] for the
    /// first mismatching identity field.
    pub fn validate_for_algorithm(&self, algorithm: &Algorithm) -> (result: Result<
        (),
        ProtocolError,
    >)
        ensures
            match (result, metadata_error(self@, algorithm@)) {
                (Ok(_), None) => true,
                (Err(error), Some(reason)) => error@ == reason,
                _ => false,
            },
    {
        let raw: &[u8] = self.as_bytes();
        let name: &[u8] = nul_terminated(slice_subrange(raw, 0x540, 0x550));
        if !eq_ignoring_case(text_of_bytes(name).as_str(), algorithm.name()) {
            return Err(
                ProtocolError::DeviceParameterAlgorithmMetadata {
                    field: "name",
                    expected: algorithm.name().to_owned(),
                    actual: decode_lossy(name),
                },
            );
        }
        let expected_timestamp: [u8; 8] = algorithm.timestamp();
        let timestamp: &[u8] = slice_subrange(raw, 0x550, 0x558);
        if !same_bytes(timestamp, &expected_timestamp) {
            return Err(
                ProtocolError::DeviceParameterAlgorithmMetadata {
                    field: "timestamp",
                    expected: hex_list_text(&expected_timestamp),
                    actual: hex_list_text(timestamp),
                },
            );
        }
        let expected_length: u32 = algorithm.payload().len() as u32;
        let length: u32 = read_u32(raw, 0x558);
        if length != expected_length {
            return Err(
                ProtocolError::DeviceParameterAlgorithmMetadata {
                    field: "payload length",
                    expected: decimal_text(expected_length as u64),
                    actual: decimal_text(length as u64),
                },
            );
        }
        let crc: u32 = read_u32(raw, 0x55c);
        if crc != algorithm.payload_crc32() {
            return Err(
                ProtocolError::DeviceParameterAlgorithmMetadata {
                    field: "payload CRC32",
                    expected: prefixed_hex_text(algorithm.payload_crc32()),
                    actual: prefixed_hex_text(crc),
                },
            );
        }
        Ok(())
    }

    #[must_use]
    pub fn as_bytes(&self) -> (bytes: &[u8; DEVICE_PARAMETER_BYTES])
        ensures
            bytes@ == self@,
            bytes@.len() == DEVICE_PARAMETER_BYTES,
    {
        &self.0
    }
}

/// The contents of an algorithm verification response.
pub struct AlgorithmVerificationView {
    pub device_name: Seq<char>,
    pub sentinel: u32,
    pub raw: Seq<u8>,
}

impl AlgorithmVerificationView {
    /// The device reports the expected algorithm and the sentinel.
    pub open spec fn confirms(self, expected_name: Seq<char>) -> bool {
        same_ignoring_case(self.device_name, expected_name) && self.sentinel == VERIFY_SENTINEL
    }
}

/// What an algorithm verification response parses to.
pub open spec fn parsed_verification(bytes: Seq<u8>) -> Result<
    AlgorithmVerificationView,
    ProtocolError<Seq<char>>,
> {
    let name = until_nul(bytes.take(16));
    if bytes.len() != COMMAND_BYTES {
        Err(
            ProtocolError::VerificationResponseLength {
                actual: bytes.len() as usize,
                expected: COMMAND_BYTES,
            },
        )
    } else if name.len() == 16 || name.len() == 0 || !is_ascii_bytes(name) {
        Err(ProtocolError::InvalidVerificationName)
    } else {
        Ok(
            AlgorithmVerificationView {
                device_name: chars_of_bytes(name),
                sentinel: u32_at(bytes, 0x3c),
                raw: bytes,
            },
        )
    }
}

/// Parsed result of the device-side algorithm identity check.
#[derive(Debug, Clone, PartialEq, Eq)]
pub struct AlgorithmVerification {
    device_name: String,
    sentinel: u32,
    raw: [u8; COMMAND_BYTES],
}

impl View for AlgorithmVerification {
    type V = AlgorithmVerificationView;

    closed spec fn view(&self) -> AlgorithmVerificationView {
        AlgorithmVerificationView {
            device_name: self.device_name@,
            sentinel: self.sentinel,
            raw: self.raw@,
        }
    }
}

impl AlgorithmVerification {
    /// Parses an exact 64-byte response without treating the sentinel as a
    /// global success code.
    ///
    /// # Errors
    ///
    /// Returns [`ProtocolError`] for a short or long response or an invalid name.
    pub fn parse(bytes: &[u8]) -> (result: Result<Self, ProtocolError>)
        ensures
            match (result, parsed_verification(bytes@)) {
                (Ok(verification), Ok(contents)) => verification@ == contents,
                (Err(error), Err(reason)) => error@ == reason,
                _ => false,
            },
    {
        if bytes.len() != COMMAND_BYTES {
            return Err(
                ProtocolError::VerificationResponseLength {
                    actual: bytes.len(),
                    expected: COMMAND_BYTES,
                },
            );
        }
        assert(bytes@.subrange(0, 16) =~= bytes@.take(16));
        let name: &[u8] = nul_terminated(slice_subrange(bytes, 0, 16));
        if name.len() == 16 || name.len() == 0 || !ascii_bytes(name) {
            return Err(ProtocolError::InvalidVerificationName);
        }
        Ok(
            AlgorithmVerification {
                device_name: text_of_bytes(name),
                sentinel: read_u32(bytes, 0x3c),
                raw: to_array(bytes),
            },
        )
    }

    #[must_use]
    pub fn device_name(&self) -> (name: &str)
        ensures
            name@ == self@.device_name,
    {
        self.device_name.as_str()
    }

    #[must_use]
    pub fn sentinel(&self) -> (sentinel: u32)
        ensures
            sentinel == self@.sentinel,
    {
        self.sentinel
    }

    #[must_use]
    pub fn matches(&self, expected_name: &str) -> (confirmed: bool)
        ensures
            confirmed == self@.confirms(expected_name@),
    {
        eq_ignoring_case(self.device_name.as_str(), expected_name) && self.sentinel
            == VERIFY_SENTINEL
    }

    #[must_use]
    pub fn raw(&self) -> (raw: &[u8; COMMAND_BYTES])
        ensures
            raw@ == self@.raw,
    {
        &self.raw
    }
}

/// Failures to encode a command or to decode a reply.
#[allow(inconsistent_fields)]
#[derive(Debug, Clone, PartialEq, Eq)]
pub enum ProtocolError<S = String> {
    AlgorithmName { name: S, maximum_bytes: usize },
    ChunkOffset { offset: usize, payload_length: usize },
    DeviceParameterLength { actual: usize, expected: usize },
    DeviceParameterMagic,
    DeviceParameterFormat { actual: u32 },
    DeviceParameterLayout { actual: u16 },
    DeviceParameterCrc { stored: u32, computed: u32 },
    DeviceParameterAlgorithmMetadata { field: &'static str, expected: S, actual: S },
    VerificationResponseLength { actual: usize, expected: usize },
    InvalidVerificationName,
    DiagnosticLength { actual: usize, expected: usize },
}

impl View for ProtocolError<String> {
    type V = ProtocolError<Seq<char>>;

    open spec fn view(&self) -> ProtocolError<Seq<char>> {
        match *self {
            ProtocolError::AlgorithmName { name, maximum_bytes } => ProtocolError::AlgorithmName {
                name: name@,
                maximum_bytes,
            },
            ProtocolError::ChunkOffset { offset, payload_length } => ProtocolError::ChunkOffset {
                offset,
                payload_length,
            },
            ProtocolError::DeviceParameterLength { actual, expected } => {
                ProtocolError::DeviceParameterLength { actual, expected }
            },
            ProtocolError::DeviceParameterMagic => ProtocolError::DeviceParameterMagic,
            ProtocolError::DeviceParameterFormat { actual } => {
                ProtocolError::DeviceParameterFormat { actual }
            },
            ProtocolError::DeviceParameterLayout { actual } => {
                ProtocolError::DeviceParameterLayout { actual }
            },
            ProtocolError::DeviceParameterCrc { stored, computed } => {
                ProtocolError::DeviceParameterCrc { stored, computed }
            },
            ProtocolError::DeviceParameterAlgorithmMetadata { field, expected, actual } => {
                ProtocolError::DeviceParameterAlgorithmMetadata {
                    field,
                    expected: expected@,
                    actual: actual@,
                }
            },
            ProtocolError::VerificationResponseLength { actual, expected } => {
                ProtocolError::VerificationResponseLength { actual, expected }
            },
            ProtocolError::InvalidVerificationName => ProtocolError::InvalidVerificationName,
            ProtocolError::DiagnosticLength { actual, expected } => {
                ProtocolError::DiagnosticLength { actual, expected }
            },
        }
    }
}

/// A diagnostic names what its first byte stands for. Details are read from the four
/// words behind the first sixteen bytes, and a byte without a meaning of its own is
/// kept.
pub proof fn law_diagnostics_name_their_code(raw: Seq<u8>)
    requires
        raw.len() == 64,
    ensures
        match diagnostic_kind(raw) {
            DiagnosticKind::FirmwareSystemError => raw[0] == 1,
            DiagnosticKind::CustomProgrammerProductRequired => raw[0] == 2,
            DiagnosticKind::ProgrammerDisabled => raw[0] == 4,
            DiagnosticKind::ChipInitializationFailed => raw[0] == 11,
            DiagnosticKind::VerifyMismatch { details } => {
                &&& raw[0] == 13
                &&& details[0] == word(raw, 16)
                &&& details[1] == word(raw, 20)
                &&& details[2] == word(raw, 24)
                &&& details[3] == word(raw, 28)
            },
            DiagnosticKind::BlankCheckFailed { address, chip_data } => {
                &&& raw[0] == 14
                &&& address == word(raw, 16)
                &&& chip_data == word(raw, 20)
            },
            DiagnosticKind::ProgramFailed => raw[0] == 15,
            DiagnosticKind::ChipReadFailed => raw[0] == 16,
            DiagnosticKind::CurrentLimitProtection => raw[0] == 20,
            DiagnosticKind::TargetVoltageNotDetected => raw[0] == 21,
            DiagnosticKind::IspSupplyConflict => raw[0] == 22,
            DiagnosticKind::AdapterNotDetected => raw[0] == 30,
            DiagnosticKind::DriverAlgorithmNotMatched => raw[0] == 32,
            DiagnosticKind::AdapterMismatch => raw[0] == 34,
            DiagnosticKind::AdapterMaximumUseCount => raw[0] == 36,
            DiagnosticKind::ChipEccFailure { packed_block_page } => raw[0] == 52
                && packed_block_page == word(raw, 16),
            DiagnosticKind::Generic { code } => code == raw[0] && !(seq![
                1u8,
                2,
                4,
                11,
                13,
                14,
                15,
                16,
                20,
                21,
                22,
                30,
                32,
                34,
                36,
                52,
            ].contains(code)),
        },
{
    law_fields_are_low_byte_first(raw, 16);
    law_fields_are_low_byte_first(raw, 20);
    law_fields_are_low_byte_first(raw, 24);
    law_fields_are_low_byte_first(raw, 28);
}

/// A verification response confirms an algorithm if and only if its first sixteen
/// bytes hold the name up to case, with a zero behind it, and its last four bytes
/// are all 0x55.
pub proof fn law_responses_confirm_by_name_and_mark(bytes: Seq<u8>, name: Seq<char>)
    requires
        bytes.len() == 64,
        0 < name.len() < 16,
        is_ascii_text(name),
        forall|i: int| 0 <= i < name.len() ==> #[trigger] name[i] != '\0',
    ensures
        (parsed_verification(bytes) matches Ok(verification) && verification.confirms(name)) <==> {
            &&& bytes[60] == 0x55 && bytes[61] == 0x55 && bytes[62] == 0x55 && bytes[63] == 0x55
            &&& bytes[name.len() as int] == 0
            &&& forall|i: int|
                0 <= i < name.len() ==> bytes[i] != 0 && bytes[i] < 0x80 && same_letter(
                    (#[trigger] bytes[i]) as char,
                    name[i],
                )
        },
{
    let field = bytes.take(16);
    let codes = until_nul(field);
    let letters = chars_of_bytes(codes);
    let length = name.len() as int;
    lemma_until_nul_prefix(field);
    law_fields_are_low_byte_first(bytes, 60);
    law_case_is_ignored_letter_by_letter(letters, name);
    assert(forall|i: int| 0 <= i < codes.len() ==> #[trigger] codes[i] == bytes[i]);
    if parsed_verification(bytes) is Ok && same_ignoring_case(letters, name) {
        assert(field[length] == bytes[length]);
        assert forall|i: int| 0 <= i < name.len() implies bytes[i] != 0 && bytes[i] < 0x80
            && same_letter((#[trigger] bytes[i]) as char, name[i]) by {
            assert(codes[i] == bytes[i]);
            assert(same_letter(letters[i], name[i]));
        }
    }
    if bytes[length] == 0 && (forall|i: int|
        0 <= i < name.len() ==> bytes[i] != 0 && bytes[i] < 0x80 && same_letter(
            (#[trigger] bytes[i]) as char,
            name[i],
        )) {
        assert forall|i: int| 0 <= i < length implies field[i] != 0 by {
            assert(bytes[i] != 0);
        }
        lemma_until_nul(field, length);
        assert(codes.len() == length);
        assert forall|i: int| 0 <= i < letters.len() implies same_letter(
            #[trigger] letters[i],
            name[i],
        ) by {
            assert(bytes[i] as char == letters[i]);
        }
        assert forall|i: int| 0 <= i < codes.len() implies #[trigger] codes[i] < 0x80 by {
            assert(bytes[i] < 0x80);
        }
    }
    let sentinel = word(bytes, 60);
    assert(sentinel == 0x5555_5555 <==> bytes[60] == 0x55 && bytes[61] == 0x55 && bytes[62] == 0x55
        && bytes[63] == 0x55);
}

/// An image that is accepted as it is begins with its mark, its format and its
/// layout, and ends with the CRC32 of all bytes before. One that is accepted for an
/// algorithm states its name up to case, its timestamp, and the length and the CRC32
/// of its payload.
pub proof fn law_accepted_images(image: Seq<u8>, algorithm: AlgorithmView)
    requires
        image.len() == 2048,
        algorithm.valid(),
        algorithm.name.len() < 16,
    ensures
        sprj_error(image, crc32(image.take(2044))) is None <==> {
            &&& image[0] == 0x53 && image[1] == 0x50 && image[2] == 0x52 && image[3] == 0x4a
            &&& word(image, 4) == 0x0161_0001
            &&& half(image, 8) == 0x0100
            &&& word(image, 2044) == crc32(image.take(2044))
        },
        metadata_error(image, algorithm) is None ==> {
            &&& forall|i: int|
                0 <= i < algorithm.name.len() ==> same_letter(
                    (#[trigger] image[0x540 + i]) as char,
                    algorithm.name[i],
                )
            &&& image[0x540 + algorithm.name.len() as int] == 0
            &&& forall|i: int| 0 <= i < 8 ==> #[trigger] image[0x550 + i] == algorithm.timestamp[i]
            &&& word(image, 0x558) == algorithm.payload.len()
            &&& word(image, 0x55c) == algorithm.payload_crc32
        },
{
    law_fields_are_low_byte_first(image, 4);
    law_fields_are_low_byte_first(image, 8);
    law_fields_are_low_byte_first(image, 2044);
    law_fields_are_low_byte_first(image, 0x558);
    law_fields_are_low_byte_first(image, 0x55c);
    let magic = image.take(4);
    let mark = seq![0x53u8, 0x50, 0x52, 0x4a];
    assert(magic[0] == image[0] && magic[1] == image[1] && magic[2] == image[2] && magic[3]
        == image[3]);
    assert(magic == mark <==> magic =~= mark);
    if magic == mark {
        assert(mark[0] == magic[0] && mark[1] == magic[1] && mark[2] == magic[2] && mark[3]
            == magic[3]);
    }
    if metadata_error(image, algorithm) is None {
        let field = image.subrange(0x540, 0x550);
        lemma_until_nul_prefix(field);
        let codes = until_nul(field);
        let letters = chars_of_bytes(codes);
        law_case_is_ignored_letter_by_letter(letters, algorithm.name);
        assert forall|i: int| 0 <= i < algorithm.name.len() implies same_letter(
            (#[trigger] image[0x540 + i]) as char,
            algorithm.name[i],
        ) by {
            assert(codes[i] == field[i]);
            assert(same_letter(letters[i], algorithm.name[i]));
        }
        assert(field[algorithm.name.len() as int] == image[0x540 + algorithm.name.len() as int]);
        let timestamp = image.subrange(0x550, 0x558);
        assert forall|i: int| 0 <= i < 8 implies #[trigger] image[0x550 + i]
            == algorithm.timestamp[i] by {
            assert(timestamp[i] == image[0x550 + i]);
        }
    }
}

/// A block names its command, and every command has a code of its own.
pub proof fn law_commands_have_codes_of_their_own(left: KnownCommand, right: KnownCommand)
    ensures
        command_code(left) == command_code(right) <==> left == right,
{
}

} // verus!
