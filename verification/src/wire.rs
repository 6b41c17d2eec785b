//! What operations put on the wire, byte by byte: where the code, the region, the
//! addresses and the lengths of a request stand in the blocks that were written.

use vstd::prelude::*;

use crate::assets::algorithm::AlgorithmView;
use crate::auto_identify::{
    identification_outcome, probe_plan, IdentificationResult, IdentificationVoltage,
};
use crate::bytes::{half, law_fields_are_low_byte_first, word, zeros};
use crate::commands::{ready_outcome, ready_through, usual_timings, TargetReady};
use crate::exchange::{carried_out, passes, received, replied, reply, Step};
use crate::operations::{
    adapter_check_outcome, adapter_check_plan, blank_check_outcome, blank_check_plan,
    chunk_bucket, chunk_count, chunk_size, erase_plan, erase_result, interrupted,
    lemma_chunk_count, piece_length, program_outcome, program_plan, progress_outcome,
    progress_plan, read_configuration_outcome, read_configuration_plan, read_outcome, read_plan,
    record_at, static_judge, stopped_at, target_probe_outcome, target_probe_plan,
    verify_configuration_outcome, verify_outcome, write_configuration_outcome,
    write_configuration_plan, AdapterCheckResult, ConfigurationReadResult, EraseOutcome,
    EraseRequest, EraseResult, OperationError, OperationReceipt, OperationStage, OperationTimings,
    ProgressResult, ReadResult, TargetProbeResult, VerifyMismatch, READ_DATA_TIMEOUT,
    VERIFY_DATA_TIMEOUT,
};
use crate::protocol::{
    chunk_frame, command_code, completion_accepted, erase_frame, frame, lemma_frame_fields,
    name_field, plain_frame, EraseMode, KnownCommand, ALGORITHM_CHUNK_MAX_BYTES,
};
use crate::session::{
    check_plan, confirm_plan, download_plan, installation_plan, parameters_plan, policy_judge,
    prepare_outcome, AlgorithmReady, CompletionPolicy, StaticCompletionPolicy,
};
use crate::text::bytes_of_chars;
use crate::transport::{InPipe, OutPipe, Transfer, Waits};

verus! {

/// A block of 64 bytes with a code, words at offsets 4, 8 and 12, a byte at offset
/// 16, and zeros everywhere else.
pub open spec fn is_block(
    bytes: Seq<u8>,
    code: int,
    at_04: int,
    at_08: int,
    at_0c: int,
    at_10: int,
) -> bool {
    &&& bytes.len() == 64
    &&& half(bytes, 0) == code
    &&& half(bytes, 2) == 0
    &&& word(bytes, 4) == at_04
    &&& word(bytes, 8) == at_08
    &&& word(bytes, 12) == at_0c
    &&& bytes[16] == at_10
    &&& forall|i: int| 17 <= i < 64 ==> #[trigger] bytes[i] == 0
}

/// The bytes that an event wrote to a pipe, if it succeeded within a deadline.
pub open spec fn wrote<E>(event: Transfer<E>, pipe: OutPipe, timeout: int) -> Option<Seq<u8>> {
    match event {
        Transfer::Write { pipe: on, bytes, timeout: within, result: Ok(_) } => if on == pipe
            && within == timeout {
            Some(bytes)
        } else {
            None
        },
        _ => None,
    }
}

/// The bytes that an event read from a pipe, if it succeeded within a deadline.
pub open spec fn read_from<E>(event: Transfer<E>, pipe: InPipe, timeout: int) -> Option<
    Seq<u8>,
> {
    match event {
        Transfer::Read { pipe: on, length, timeout: within, result: Ok(bytes) } => if on == pipe
            && within == timeout && length == bytes.len() {
            Some(bytes)
        } else {
            None
        },
        _ => None,
    }
}

/// An event wrote a plain block to the command pipe within 100 ms.
pub open spec fn sends_block<E>(
    event: Transfer<E>,
    code: int,
    at_04: int,
    at_08: int,
    at_0c: int,
) -> bool {
    &&& wrote(event, OutPipe::Command, 100) matches Some(bytes)
    &&& is_block(bytes, code, at_04, at_08, at_0c, 0)
}

/// A completion byte has its highest or its third highest bit, and not the second
/// highest one.
pub open spec fn is_good(status: u8) -> bool {
    (status / 128 == 1 || status / 32 % 2 == 1) && status / 64 % 2 == 0
}

/// An event read one good completion byte within a deadline.
pub open spec fn completes<E>(event: Transfer<E>, timeout: int) -> bool {
    &&& read_from(event, InPipe::Completion, timeout) matches Some(bytes)
    &&& bytes.len() == 1
    &&& is_good(bytes[0])
}

/// The length that an event announces in a block with a code.
pub open spec fn announced_by<E>(event: Transfer<E>, code: int) -> int {
    match event {
        Transfer::Write { pipe: OutPipe::Command, bytes, .. } => if half(bytes, 0) == code {
            word(bytes, 12)
        } else {
            0
        },
        _ => 0,
    }
}

/// What the events of a part of a history announce in blocks with a code.
pub open spec fn announced<E>(history: Seq<Transfer<E>>, from: int, to: int, code: int) -> int
    decreases to - from,
{
    if to <= from {
        0
    } else {
        announced(history, from, to - 1, code) + announced_by(history[to - 1], code)
    }
}

/// The smaller of two numbers.
pub open spec fn smaller(left: int, right: int) -> int {
    if left < right {
        left
    } else {
        right
    }
}

/// Which completion bytes are accepted: the rule in terms of single bits.
pub proof fn law_accepted_completion_bits(status: u8)
    ensures
        completion_accepted(status) <==> is_good(status),
{
    assert((status & 0xa0 != 0 && status & 0x40 == 0) == ((status / 128 == 1 || status / 32 % 2
        == 1) && status / 64 % 2 == 0)) by (bit_vector);
}

proof fn lemma_block(command: KnownCommand, at_04: u32, at_08: u32, at_0c: u32, at_10: u8)
    ensures
        is_block(
            frame(command, at_04, at_08, at_0c, seq![at_10] + zeros(47)),
            command_code(command) as int,
            at_04 as int,
            at_08 as int,
            at_0c as int,
            at_10 as int,
        ),
        is_block(
            plain_frame(command, at_04, at_08, at_0c),
            command_code(command) as int,
            at_04 as int,
            at_08 as int,
            at_0c as int,
            0,
        ),
{
    let tail = seq![at_10] + zeros(47);
    lemma_frame_fields(command, at_04, at_08, at_0c, tail);
    lemma_frame_fields(command, at_04, at_08, at_0c, zeros(48));
    let block = frame(command, at_04, at_08, at_0c, tail);
    let plain = plain_frame(command, at_04, at_08, at_0c);
    law_fields_are_low_byte_first(block, 0);
    law_fields_are_low_byte_first(block, 4);
    law_fields_are_low_byte_first(block, 8);
    law_fields_are_low_byte_first(block, 12);
    law_fields_are_low_byte_first(plain, 0);
    law_fields_are_low_byte_first(plain, 4);
    law_fields_are_low_byte_first(plain, 8);
    law_fields_are_low_byte_first(plain, 12);
    assert forall|i: int| 16 <= i < 64 implies #[trigger] block[i] == tail[i - 16] by {
        assert(block.skip(16)[i - 16] == block[i]);
    }
    assert forall|i: int| 16 <= i < 64 implies #[trigger] plain[i] == 0 by {
        assert(plain.skip(16)[i - 16] == plain[i]);
    }
}

/// One step that was carried out, in terms of the event.
proof fn lemma_step<S, E>(
    plan: Seq<Step<S>>,
    before: Seq<Transfer<E>>,
    after: Seq<Transfer<E>>,
    k: int,
)
    requires
        carried_out(static_judge(), plan, before, after),
        0 <= k < plan.len(),
    ensures
        passes(static_judge(), plan[k], after[before.len() + k]),
        plan[k] matches Step::Complete { timeout, .. } ==> completes(
            after[before.len() + k],
            timeout as int,
        ),
        plan[k] matches Step::Send { pipe, bytes, timeout, .. } ==> wrote(
            after[before.len() + k],
            pipe,
            timeout as int,
        ) == Some(bytes),
        plan[k] matches Step::Receive { pipe, length, timeout, .. } ==> {
            &&& read_from(after[before.len() + k], pipe, timeout as int) matches Some(bytes)
            &&& bytes.len() == length
            &&& reply(after[before.len() + k], pipe) == bytes
        },
{
    assert(passes(static_judge(), plan[k], after[before.len() + k]));
    if let Step::Complete { timeout, .. } = plan[k] {
        let status = replied(after[before.len() + k], InPipe::Completion, 1, timeout).unwrap();
        law_accepted_completion_bits(status[0]);
    }
}

/// An adapter check asks with code `0x0c`, mode 2 and a response length of 56
/// bytes, and ends with a good completion byte within a second.
pub proof fn law_adapter_check_on_the_wire<E>(
    timings: OperationTimings,
    before: Seq<Transfer<E>>,
    after: Seq<Transfer<E>>,
    checked: AdapterCheckResult,
)
    requires
        adapter_check_outcome(timings, before, after, Ok(checked)),
    ensures
        after.len() == before.len() + 2,
        sends_block(after[before.len() as int], 0x0c, 2, 0, 56),
        completes(after[before.len() as int + 1], 1000),
        checked.receipt@.len() == 1,
{
    let plan = adapter_check_plan();
    lemma_step(plan, before, after, 0);
    lemma_step(plan, before, after, 1);
    lemma_block(KnownCommand::AdapterCheck, 2, 0, 0x38, 0);
    lemma_received_two(before, after, InPipe::Completion);
}

/// What two events brought.
proof fn lemma_received_two<E>(before: Seq<Transfer<E>>, after: Seq<Transfer<E>>, pipe: InPipe)
    requires
        after.len() == before.len() + 2,
    ensures
        received(before, after, pipe) == reply(after[before.len() as int], pipe) + reply(
            after[before.len() as int + 1],
            pipe,
        ),
{
    let events = after.skip(before.len() as int);
    assert(events.len() == 2);
    assert(events.drop_last().len() == 1);
    assert(events.drop_last().drop_last().len() == 0);
    assert(events.last() == after[before.len() as int + 1]);
    assert(events.drop_last().last() == after[before.len() as int]);
    reveal_with_fuel(crate::exchange::replies, 3);
    assert(Seq::<u8>::empty() + reply(after[before.len() as int], pipe) =~= reply(
        after[before.len() as int],
        pipe,
    ));
}

/// A target probe asks with code `0x0f` and no arguments, and ends with a good
/// completion byte within half a second.
pub proof fn law_target_probe_on_the_wire<E>(
    timings: OperationTimings,
    before: Seq<Transfer<E>>,
    after: Seq<Transfer<E>>,
    probed: TargetProbeResult,
)
    requires
        target_probe_outcome(timings, before, after, Ok(probed)),
    ensures
        after.len() == before.len() + 2,
        sends_block(after[before.len() as int], 0x0f, 0, 0, 0),
        completes(after[before.len() as int + 1], 500),
        probed.receipt@.len() == 1,
{
    let plan = target_probe_plan();
    lemma_step(plan, before, after, 0);
    lemma_step(plan, before, after, 1);
    lemma_block(KnownCommand::TargetProbe, 0, 0, 0, 0);
    lemma_received_two(before, after, InPipe::Completion);
}

/// A blank check announces the whole region length in its first block, then the
/// pieces of the region one behind the other, each beginning where the one before
/// it ends, of the asked size but for the last, and then ends the check of the
/// region. The lengths of the pieces add up to the region length.
#[verifier::rlimit(50)]
pub proof fn law_blank_check_on_the_wire<E>(
    region: u32,
    region_length: usize,
    chunk_bytes: usize,
    timings: OperationTimings,
    before: Seq<Transfer<E>>,
    after: Seq<Transfer<E>>,
    receipt: OperationReceipt,
)
    requires
        blank_check_outcome(
            region,
            region_length,
            chunk_bytes,
            timings,
            before,
            after,
            Ok(receipt),
        ),
    ensures
        ({
            let base = before.len() as int;
            let pieces = (after.len() - base - 4) / 2;
            &&& 0 < region_length <= 0xffff_ffff
            &&& 0x800 <= chunk_bytes <= 0x1_0000
            &&& pieces >= 1
            &&& after.len() == base + 4 + 2 * pieces
            &&& (pieces - 1) * chunk_bytes < region_length <= pieces * chunk_bytes
            &&& sends_block(after[base], 0x15, region as int, 0, region_length as int)
            &&& completes(after[base + 1], 2000)
            &&& forall|i: int|
                #![trigger after[base + 2 + 2 * i]]
                0 <= i < pieces ==> sends_block(
                    after[base + 2 + 2 * i],
                    0x14,
                    region as int,
                    i * chunk_bytes,
                    smaller(chunk_bytes as int, region_length - i * chunk_bytes),
                ) && completes(after[base + 3 + 2 * i], 5000)
            &&& announced(after, base, after.len() as int, 0x14) == region_length
            &&& sends_block(after[base + 2 + 2 * pieces], 0x16, region as int, 0, 0)
            &&& completes(after[base + 3 + 2 * pieces], 1000)
        }),
{
    let base = before.len() as int;
    let length = region_length as nat;
    let chunk = chunk_bytes as nat;
    let plan = blank_check_plan(region, length, chunk);
    let count: int = chunk_count(length, chunk) as int;
    lemma_chunk_count(length, chunk, 0);
    lemma_chunk_count(length, chunk, count);
    lemma_chunk_count(length, chunk, count - 1);
    lemma_block(KnownCommand::BlankCheckInitialize, region, 0, length as u32, 0);
    lemma_block(KnownCommand::BlankCheckFinish, region, 0, 0, 0);
    lemma_step(plan, before, after, 0);
    lemma_step(plan, before, after, 1);
    lemma_step(plan, before, after, 2 + 2 * count);
    lemma_step(plan, before, after, 3 + 2 * count);
    assert forall|i: int|
        #![trigger after[base + 2 + 2 * i]]
        0 <= i < count implies sends_block(
        after[base + 2 + 2 * i],
        0x14,
        region as int,
        i * chunk_bytes,
        smaller(chunk_bytes as int, region_length - i * chunk_bytes),
    ) && completes(after[base + 3 + 2 * i], 5000) by {
        lemma_blank_piece(region, region_length, chunk_bytes, before, after, i);
    }
    lemma_blank_announced(region, region_length, chunk_bytes, before, after, count);
    assert(announced(after, base, after.len() as int, 0x14) == announced(
        after,
        base,
        base + 2 + 2 * count,
        0x14,
    )) by {
        assert(announced_by(after[base + 2 + 2 * count], 0x14) == 0);
        assert(announced_by(after[base + 3 + 2 * count], 0x14) == 0);
        reveal_with_fuel(announced, 3);
    }
}

proof fn lemma_blank_piece<E>(
    region: u32,
    region_length: usize,
    chunk_bytes: usize,
    before: Seq<Transfer<E>>,
    after: Seq<Transfer<E>>,
    i: int,
)
    requires
        0 < region_length <= u32::MAX,
        0 < chunk_bytes <= 0x1_0000,
        carried_out(
            static_judge(),
            blank_check_plan(region, region_length as nat, chunk_bytes as nat),
            before,
            after,
        ),
        0 <= i < chunk_count(region_length as nat, chunk_bytes as nat),
    ensures
        sends_block(
            after[before.len() + 2 + 2 * i],
            0x14,
            region as int,
            i * chunk_bytes,
            smaller(chunk_bytes as int, region_length - i * chunk_bytes),
        ),
        completes(after[before.len() + 3 + 2 * i], 5000),
        0 <= i * chunk_bytes < region_length,
{
    let length = region_length as nat;
    let chunk = chunk_bytes as nat;
    let plan = blank_check_plan(region, length, chunk);
    lemma_chunk_count(length, chunk, i);
    assert((2 * i) / 2 == i && (2 * i) % 2 == 0);
    assert((2 * i + 1) / 2 == i && (2 * i + 1) % 2 == 1);
    lemma_step(plan, before, after, 2 + 2 * i);
    lemma_step(plan, before, after, 3 + 2 * i);
    lemma_block(
        KnownCommand::BlankCheckChunk,
        region,
        (i * chunk) as u32,
        piece_length(length, chunk, i * chunk) as u32,
        0,
    );
}

proof fn lemma_blank_announced<E>(
    region: u32,
    region_length: usize,
    chunk_bytes: usize,
    before: Seq<Transfer<E>>,
    after: Seq<Transfer<E>>,
    pieces: int,
)
    requires
        0 < region_length <= u32::MAX,
        0 < chunk_bytes <= 0x1_0000,
        carried_out(
            static_judge(),
            blank_check_plan(region, region_length as nat, chunk_bytes as nat),
            before,
            after,
        ),
        0 <= pieces <= chunk_count(region_length as nat, chunk_bytes as nat),
    ensures
        announced(after, before.len() as int, before.len() + 2 + 2 * pieces, 0x14) == smaller(
            pieces * chunk_bytes,
            region_length as int,
        ),
    decreases pieces,
{
    let base = before.len() as int;
    let plan = blank_check_plan(region, region_length as nat, chunk_bytes as nat);
    if pieces == 0 {
        lemma_step(plan, before, after, 0);
        lemma_step(plan, before, after, 1);
        lemma_block(KnownCommand::BlankCheckInitialize, region, 0, region_length as u32, 0);
        reveal_with_fuel(announced, 4);
        assert(announced_by(after[base], 0x14) == 0);
        assert(announced_by(after[base + 1], 0x14) == 0);
        assert(0 * chunk_bytes == 0) by (nonlinear_arith);
    } else {
        let i = pieces - 1;
        lemma_blank_announced(region, region_length, chunk_bytes, before, after, i);
        lemma_blank_piece(region, region_length, chunk_bytes, before, after, i);
        lemma_chunk_count(region_length as nat, chunk_bytes as nat, i);
        let to = base + 2 + 2 * i;
        assert(announced(after, base, to + 1, 0x14) == announced(after, base, to, 0x14)
            + announced_by(after[to], 0x14));
        assert(announced(after, base, to + 2, 0x14) == announced(after, base, to + 1, 0x14)
            + announced_by(after[to + 1], 0x14));
        assert(announced_by(after[to + 1], 0x14) == 0);
    }
}

/// The frame of a read of a range: the same region, start and length are announced
/// and asked for, and the region is named again at the end.
#[verifier::rlimit(50)]
proof fn lemma_read_frame<E>(
    region: u32,
    start: nat,
    length: nat,
    chunk: nat,
    data_timeout: u64,
    before: Seq<Transfer<E>>,
    after: Seq<Transfer<E>>,
)
    requires
        chunk > 0,
        0 < length <= u32::MAX,
        start <= u32::MAX,
        carried_out(
            static_judge(),
            read_plan(region, start, length, chunk, data_timeout),
            before,
            after,
        ),
    ensures
        ({
            let base = before.len() as int;
            let pieces = after.len() - base - 5;
            &&& pieces >= 1
            &&& (pieces - 1) * chunk < length <= pieces * chunk
            &&& sends_block(after[base], 0x1b, region as int, start as int, length as int)
            &&& completes(after[base + 1], 1000)
            &&& sends_block(after[base + 2], 0x1d, region as int, start as int, length as int)
            &&& forall|i: int|
                #![trigger after[base + 3 + i]]
                0 <= i < pieces ==> {
                    &&& read_from(
                        after[base + 3 + i],
                        InPipe::Response,
                        data_timeout as int,
                    ) matches Some(bytes)
                    &&& bytes.len() == smaller(chunk as int, length - i * chunk)
                }
            &&& sends_block(after[base + 3 + pieces], 0x1e, region as int, 0, 0)
            &&& completes(after[base + 4 + pieces], 1000)
        }),
{
    let base = before.len() as int;
    let plan = read_plan(region, start, length, chunk, data_timeout);
    let count: int = chunk_count(length, chunk) as int;
    lemma_chunk_count(length, chunk, 0);
    lemma_chunk_count(length, chunk, count);
    lemma_chunk_count(length, chunk, count - 1);
    lemma_block(KnownCommand::ReadInitialize, region, start as u32, length as u32, 0);
    lemma_block(KnownCommand::ReadData, region, start as u32, length as u32, 0);
    lemma_block(KnownCommand::ReadFinish, region, 0, 0, 0);
    lemma_step(plan, before, after, 0);
    lemma_step(plan, before, after, 1);
    lemma_step(plan, before, after, 2);
    lemma_step(plan, before, after, 3 + count);
    lemma_step(plan, before, after, 4 + count);
    assert forall|i: int|
        #![trigger after[base + 3 + i]]
        0 <= i < count implies {
        &&& read_from(after[base + 3 + i], InPipe::Response, data_timeout as int) matches Some(
            bytes,
        )
        &&& bytes.len() == smaller(chunk as int, length - i * chunk)
    } by {
        lemma_chunk_count(length, chunk, i);
        lemma_step(plan, before, after, 3 + i);
    }
}

/// One more event adds its reply.
proof fn lemma_received_one<E>(
    before: Seq<Transfer<E>>,
    after: Seq<Transfer<E>>,
    at: int,
    pipe: InPipe,
)
    requires
        before.len() <= at < after.len(),
    ensures
        received(before, after.take(at + 1), pipe) == received(before, after.take(at), pipe)
            + reply(after[at], pipe),
{
    assert(after.take(at + 1) =~= after.take(at).push(after[at]));
    crate::exchange::lemma_received_push(before, after.take(at), after[at], pipe);
}

/// How many bytes a read of a range brings in its first pieces.
proof fn lemma_read_pieces<E>(
    region: u32,
    start: nat,
    length: nat,
    chunk: nat,
    data_timeout: u64,
    before: Seq<Transfer<E>>,
    after: Seq<Transfer<E>>,
    pieces: int,
)
    requires
        chunk > 0,
        0 < length <= u32::MAX,
        start <= u32::MAX,
        carried_out(
            static_judge(),
            read_plan(region, start, length, chunk, data_timeout),
            before,
            after,
        ),
        0 <= pieces <= chunk_count(length, chunk),
    ensures
        received(before, after.take(before.len() + 3 + pieces), InPipe::Response).len() == smaller(
            pieces * chunk,
            length as int,
        ),
    decreases pieces,
{
    let base = before.len() as int;
    let plan = read_plan(region, start, length, chunk, data_timeout);
    if pieces == 0 {
        lemma_step(plan, before, after, 0);
        lemma_step(plan, before, after, 1);
        lemma_step(plan, before, after, 2);
        assert(after.take(base) =~= before);
        crate::exchange::lemma_nothing_received(before, InPipe::Response);
        lemma_received_one(before, after, base, InPipe::Response);
        lemma_received_one(before, after, base + 1, InPipe::Response);
        lemma_received_one(before, after, base + 2, InPipe::Response);
        assert(0 * chunk == 0) by (nonlinear_arith);
    } else {
        let i = pieces - 1;
        lemma_read_pieces(region, start, length, chunk, data_timeout, before, after, i);
        lemma_chunk_count(length, chunk, i);
        lemma_step(plan, before, after, 3 + i);
        lemma_received_one(before, after, base + 3 + i, InPipe::Response);
    }
}

/// A read of a range brings as many bytes as were asked for.
proof fn lemma_read_total<E>(
    region: u32,
    start: nat,
    length: nat,
    chunk: nat,
    data_timeout: u64,
    before: Seq<Transfer<E>>,
    after: Seq<Transfer<E>>,
)
    requires
        chunk > 0,
        0 < length <= u32::MAX,
        start <= u32::MAX,
        carried_out(
            static_judge(),
            read_plan(region, start, length, chunk, data_timeout),
            before,
            after,
        ),
    ensures
        received(before, after, InPipe::Response).len() == length,
{
    let base = before.len() as int;
    let plan = read_plan(region, start, length, chunk, data_timeout);
    let count: int = chunk_count(length, chunk) as int;
    lemma_read_pieces(region, start, length, chunk, data_timeout, before, after, count);
    lemma_chunk_count(length, chunk, count);
    lemma_step(plan, before, after, 3 + count);
    lemma_step(plan, before, after, 4 + count);
    lemma_received_one(before, after, base + 3 + count, InPipe::Response);
    lemma_received_one(before, after, base + 4 + count, InPipe::Response);
    assert(after.take(base + 5 + count) =~= after);
}

/// In a read that succeeds, the blocks that announce the read and ask for the data
/// carry the region, the start 0 and the number of bytes that then came on the
/// response pipe, which is the number that was asked for.
pub proof fn law_read_on_the_wire<E>(
    region: u32,
    length: usize,
    minimum_primary_chunk: u16,
    timings: OperationTimings,
    before: Seq<Transfer<E>>,
    after: Seq<Transfer<E>>,
    read: ReadResult,
)
    requires
        read_outcome(region, length, minimum_primary_chunk, timings, before, after, Ok(read)),
    ensures
        ({
            let base = before.len() as int;
            let total = received(before, after, InPipe::Response).len() as int;
            let last = after.len() - 1;
            &&& total == length
            &&& read.data@ == received(before, after, InPipe::Response)
            &&& sends_block(after[base], 0x1b, region as int, 0, total)
            &&& completes(after[base + 1], 1000)
            &&& sends_block(after[base + 2], 0x1d, region as int, 0, total)
            &&& forall|i: int|
                base + 3 <= i < last - 1 ==> read_from(
                    #[trigger] after[i],
                    InPipe::Response,
                    2000,
                ) is Some
            &&& sends_block(after[last - 1], 0x1e, region as int, 0, 0)
            &&& completes(after[last], 1000)
        }),
{
    reveal(chunk_bucket);
    let chunk = chunk_size(region, length as int, minimum_primary_chunk) as nat;
    lemma_read_frame(region, 0, length as nat, chunk, READ_DATA_TIMEOUT, before, after);
    let base = before.len() as int;
    assert forall|i: int| base + 3 <= i < after.len() - 2 implies read_from(
        #[trigger] after[i],
        InPipe::Response,
        2000,
    ) is Some by {
        assert(after[base + 3 + (i - base - 3)] == after[i]);
    }
}

/// A verification that succeeds, or that finds a difference, asks for exactly the
/// range of the expected bytes: both blocks carry its region, start and length, and so
/// many bytes come back.
pub proof fn law_verify_on_the_wire<E>(
    region: u32,
    start: usize,
    expected: Seq<u8>,
    minimum_primary_chunk: u16,
    timings: OperationTimings,
    before: Seq<Transfer<E>>,
    after: Seq<Transfer<E>>,
    result: Result<OperationReceipt, OperationError<E>>,
)
    requires
        expected.len() <= usize::MAX,
        verify_outcome(
            region,
            start,
            expected,
            minimum_primary_chunk,
            timings,
            before,
            after,
            result,
        ),
        match result {
            Ok(_) => true,
            Err(error) => error is VerifyMismatch,
        },
    ensures
        ({
            let base = before.len() as int;
            let last = after.len() - 1;
            &&& received(before, after, InPipe::Response).len() == expected.len()
            &&& 0 < expected.len() && start + expected.len() <= 0xffff_ffff
            &&& sends_block(
                after[base],
                0x1b,
                region as int,
                start as int,
                expected.len() as int,
            )
            &&& completes(after[base + 1], 1000)
            &&& sends_block(
                after[base + 2],
                0x1d,
                region as int,
                start as int,
                expected.len() as int,
            )
            &&& forall|i: int|
                base + 3 <= i < last - 1 ==> read_from(
                    #[trigger] after[i],
                    InPipe::Response,
                    3000,
                ) is Some
            &&& sends_block(after[last - 1], 0x1e, region as int, 0, 0)
            &&& completes(after[last], 1000)
        }),
{
    reveal(chunk_bucket);
    let length = expected.len();
    let chunk = chunk_size(region, length as int, minimum_primary_chunk) as nat;
    lemma_read_frame(
        region,
        start as nat,
        length,
        chunk,
        VERIFY_DATA_TIMEOUT,
        before,
        after,
    );
    lemma_read_total(
        region,
        start as nat,
        length,
        chunk,
        VERIFY_DATA_TIMEOUT,
        before,
        after,
    );
    let base = before.len() as int;
    assert forall|i: int| base + 3 <= i < after.len() - 2 implies read_from(
        #[trigger] after[i],
        InPipe::Response,
        3000,
    ) is Some by {
        assert(after[base + 3 + (i - base - 3)] == after[i]);
    }
}

/// A programming run that succeeds announces region, start and length of the data.
/// Then every piece is announced with the address at which it begins and its
/// length, and sent: the piece behind the announcement of an address holds the
/// bytes of the data from that address on. The lengths of the pieces add up to
/// that of the data.
#[verifier::rlimit(60)]
pub proof fn law_program_on_the_wire<E>(
    region: u32,
    start: usize,
    data: Seq<u8>,
    minimum_primary_chunk: u16,
    timings: OperationTimings,
    before: Seq<Transfer<E>>,
    after: Seq<Transfer<E>>,
    receipt: OperationReceipt,
)
    requires
        data.len() <= usize::MAX,
        program_outcome(
            region,
            start,
            data,
            minimum_primary_chunk,
            timings,
            before,
            after,
            Ok(receipt),
        ),
    ensures
        ({
            let base = before.len() as int;
            let pieces = (after.len() - base - 4) / 3;
            &&& 0 < data.len() && start + data.len() <= 0xffff_ffff
            &&& pieces >= 1
            &&& after.len() == base + 4 + 3 * pieces
            &&& sends_block(
                after[base],
                0x19,
                region as int,
                start as int,
                data.len() as int,
            )
            &&& completes(after[base + 1], 3000)
            &&& forall|i: int|
                #![trigger after[base + 2 + 3 * i]]
                0 <= i < pieces ==> {
                    &&& wrote(after[base + 3 + 3 * i], OutPipe::Payload, 6000) matches Some(piece)
                    &&& wrote(after[base + 2 + 3 * i], OutPipe::Command, 100) matches Some(block)
                    &&& 0 <= word(block, 8) - start
                    &&& word(block, 8) - start + piece.len() <= data.len()
                    &&& is_block(
                        block,
                        0x98,
                        region as int,
                        word(block, 8),
                        piece.len() as int,
                        0,
                    )
                    &&& piece == data.subrange(
                        word(block, 8) - start,
                        word(block, 8) - start + piece.len(),
                    )
                    &&& completes(after[base + 4 + 3 * i], 3000)
                }
            &&& announced(after, base, after.len() as int, 0x98) == data.len()
            &&& sends_block(after[base + 2 + 3 * pieces], 0x1a, region as int, 0, 0)
            &&& completes(after[base + 3 + 3 * pieces], 1000)
        }),
{
    reveal(chunk_bucket);
    let base = before.len() as int;
    let chunk = chunk_size(region, data.len() as int, minimum_primary_chunk) as nat;
    let plan = program_plan(region, start as nat, data, chunk);
    let count: int = chunk_count(data.len(), chunk) as int;
    lemma_chunk_count(data.len(), chunk, 0);
    lemma_chunk_count(data.len(), chunk, count);
    lemma_chunk_count(data.len(), chunk, count - 1);
    lemma_block(KnownCommand::ProgramInitialize, region, start as u32, data.len() as u32, 0);
    lemma_block(KnownCommand::ProgramFinish, region, 0, 0, 0);
    lemma_step(plan, before, after, 0);
    lemma_step(plan, before, after, 1);
    lemma_step(plan, before, after, 2 + 3 * count);
    lemma_step(plan, before, after, 3 + 3 * count);
    assert forall|i: int|
        #![trigger after[base + 2 + 3 * i]]
        0 <= i < count implies {
        &&& wrote(after[base + 3 + 3 * i], OutPipe::Payload, 6000) matches Some(piece)
        &&& wrote(after[base + 2 + 3 * i], OutPipe::Command, 100) matches Some(block)
        &&& 0 <= word(block, 8) - start
        &&& word(block, 8) - start + piece.len() <= data.len()
        &&& is_block(block, 0x98, region as int, word(block, 8), piece.len() as int, 0)
        &&& piece == data.subrange(
            word(block, 8) - start,
            word(block, 8) - start + piece.len(),
        )
        &&& completes(after[base + 4 + 3 * i], 3000)
    } by {
        lemma_program_piece(region, start, data, chunk, before, after, i);
    }
    lemma_program_announced(region, start, data, chunk, before, after, count);
    assert(announced_by(after[base + 2 + 3 * count], 0x98) == 0);
    assert(announced_by(after[base + 3 + 3 * count], 0x98) == 0);
    reveal_with_fuel(announced, 3);
}

proof fn lemma_program_piece<E>(
    region: u32,
    start: usize,
    data: Seq<u8>,
    chunk: nat,
    before: Seq<Transfer<E>>,
    after: Seq<Transfer<E>>,
    i: int,
)
    requires
        chunk > 0,
        0 < data.len(),
        start + data.len() <= u32::MAX,
        carried_out(
            static_judge(),
            program_plan(region, start as nat, data, chunk),
            before,
            after,
        ),
        0 <= i < chunk_count(data.len(), chunk),
    ensures
        ({
            let base = before.len() as int;
            let offset = i * chunk;
            let length = smaller(chunk as int, data.len() - offset);
            &&& 0 <= offset < data.len()
            &&& sends_block(
                after[base + 2 + 3 * i],
                0x98,
                region as int,
                start + offset,
                length,
            )
            &&& wrote(after[base + 3 + 3 * i], OutPipe::Payload, 6000) == Some(
                data.subrange(offset, offset + length),
            )
            &&& completes(after[base + 4 + 3 * i], 3000)
        }),
{
    let plan = program_plan(region, start as nat, data, chunk);
    lemma_chunk_count(data.len(), chunk, i);
    assert((3 * i) / 3 == i && (3 * i) % 3 == 0);
    assert((3 * i + 1) / 3 == i && (3 * i + 1) % 3 == 1);
    assert((3 * i + 2) / 3 == i && (3 * i + 2) % 3 == 2);
    lemma_step(plan, before, after, 2 + 3 * i);
    lemma_step(plan, before, after, 3 + 3 * i);
    lemma_step(plan, before, after, 4 + 3 * i);
    lemma_block(
        KnownCommand::ProgramChunk,
        region,
        (start + i * chunk) as u32,
        piece_length(data.len(), chunk, i * chunk) as u32,
        0,
    );
}

proof fn lemma_program_announced<E>(
    region: u32,
    start: usize,
    data: Seq<u8>,
    chunk: nat,
    before: Seq<Transfer<E>>,
    after: Seq<Transfer<E>>,
    pieces: int,
)
    requires
        chunk > 0,
        0 < data.len(),
        start + data.len() <= u32::MAX,
        carried_out(
            static_judge(),
            program_plan(region, start as nat, data, chunk),
            before,
            after,
        ),
        0 <= pieces <= chunk_count(data.len(), chunk),
    ensures
        announced(after, before.len() as int, before.len() + 2 + 3 * pieces, 0x98) == smaller(
            pieces * chunk,
            data.len() as int,
        ),
    decreases pieces,
{
    let base = before.len() as int;
    let plan = program_plan(region, start as nat, data, chunk);
    if pieces == 0 {
        lemma_step(plan, before, after, 0);
        lemma_step(plan, before, after, 1);
        lemma_block(KnownCommand::ProgramInitialize, region, start as u32, data.len() as u32, 0);
        reveal_with_fuel(announced, 4);
        assert(announced_by(after[base], 0x98) == 0);
        assert(announced_by(after[base + 1], 0x98) == 0);
        assert(0 * chunk == 0) by (nonlinear_arith);
    } else {
        let i = pieces - 1;
        lemma_program_announced(region, start, data, chunk, before, after, i);
        lemma_program_piece(region, start, data, chunk, before, after, i);
        lemma_chunk_count(data.len(), chunk, i);
        let to = base + 2 + 3 * i;
        assert(announced(after, base, to + 1, 0x98) == announced(after, base, to, 0x98)
            + announced_by(after[to], 0x98));
        assert(announced(after, base, to + 2, 0x98) == announced(after, base, to + 1, 0x98)
            + announced_by(after[to + 1], 0x98));
        assert(announced(after, base, to + 3, 0x98) == announced(after, base, to + 2, 0x98)
            + announced_by(after[to + 2], 0x98));
        assert(announced_by(after[to + 1], 0x98) == 0);
        assert(announced_by(after[to + 2], 0x98) == 0);
    }
}

/// Data goes out in one piece outside the primary region. In the primary region
/// the pieces have the asked minimum, or a power of two between 64 and 65536 that
/// is not above a thirty-second of the total unless it is 64; and no such power
/// that is twice as large would do.
pub proof fn law_transfer_sizes(region: u32, total_length: int, minimum_primary_chunk: u16)
    requires
        0 < total_length <= u32::MAX,
    ensures
        ({
            let size = chunk_size(region, total_length, minimum_primary_chunk);
            &&& region != 0 ==> size == total_length
            &&& region == 0 ==> {
                &&& minimum_primary_chunk <= size && 64 <= size <= 65536
                &&& size == minimum_primary_chunk || exists|power: nat|
                    6 <= power <= 16 && size == #[trigger] vstd::arithmetic::power2::pow2(power)
                &&& size == minimum_primary_chunk || size == 64 || 32 * size <= total_length
                &&& size == 65536 || total_length < 64 * size
            }
        }),
{
    reveal(chunk_bucket);
    vstd::arithmetic::power2::lemma2_to64();
    if region == 0 {
        let size = chunk_size(region, total_length, minimum_primary_chunk);
        if size != minimum_primary_chunk {
            let power: nat = if size == 0x1_0000 {
                16
            } else if size == 0x8000 {
                15
            } else if size == 0x4000 {
                14
            } else if size == 0x2000 {
                13
            } else if size == 0x1000 {
                12
            } else if size == 0x800 {
                11
            } else if size == 0x400 {
                10
            } else if size == 0x200 {
                9
            } else if size == 0x100 {
                8
            } else if size == 0x80 {
                7
            } else {
                6
            };
            assert(size == vstd::arithmetic::power2::pow2(power));
        }
    }
}

/// A configuration write asks with code `0xa3` for 256 bytes, and sends them: the
/// 64 bytes of data, then zeros, the 64 bytes of the mask from offset 128 on, and
/// zeros again.
pub proof fn law_configuration_write_on_the_wire<E>(
    data: Seq<u8>,
    mask: Seq<u8>,
    timings: OperationTimings,
    before: Seq<Transfer<E>>,
    after: Seq<Transfer<E>>,
    receipt: OperationReceipt,
)
    requires
        data.len() == 64,
        mask.len() == 64,
        write_configuration_outcome(data, mask, timings, before, after, Ok(receipt)),
    ensures
        ({
            let base = before.len() as int;
            &&& after.len() == base + 3
            &&& sends_block(after[base], 0xa3, 0, 0, 256)
            &&& wrote(after[base + 1], OutPipe::Payload, 500) matches Some(payload)
            &&& payload.len() == 256
            &&& forall|i: int| 0 <= i < 64 ==> #[trigger] payload[i] == data[i]
            &&& forall|i: int| 64 <= i < 128 ==> #[trigger] payload[i] == 0
            &&& forall|i: int| 128 <= i < 192 ==> #[trigger] payload[i] == mask[i - 128]
            &&& forall|i: int| 192 <= i < 256 ==> #[trigger] payload[i] == 0
            &&& completes(after[base + 2], timings.completion as int)
        }),
{
    let plan = write_configuration_plan(data, mask, timings.completion);
    lemma_step(plan, before, after, 0);
    lemma_step(plan, before, after, 1);
    lemma_step(plan, before, after, 2);
    lemma_block(KnownCommand::WriteConfiguration, 0, 0, 0x100, 0);
}

/// A configuration read, also that of a verification, asks with code `0x25` for 64
/// bytes, which come behind a good completion byte.
proof fn lemma_configuration_read<E>(
    timings: OperationTimings,
    before: Seq<Transfer<E>>,
    after: Seq<Transfer<E>>,
)
    requires
        carried_out(static_judge(), read_configuration_plan(timings.completion), before, after),
    ensures
        ({
            let base = before.len() as int;
            &&& after.len() == base + 3
            &&& sends_block(after[base], 0x25, 0, 0, 64)
            &&& completes(after[base + 1], timings.completion as int)
            &&& read_from(after[base + 2], InPipe::Response, 2000) matches Some(bytes)
            &&& bytes.len() == 64
            &&& received(before, after, InPipe::Response) == bytes
        }),
{
    let plan = read_configuration_plan(timings.completion);
    let base = before.len() as int;
    lemma_step(plan, before, after, 0);
    lemma_step(plan, before, after, 1);
    lemma_step(plan, before, after, 2);
    lemma_block(KnownCommand::ReadConfiguration, 0, 0, 0x40, 0);
    lemma_received_three(before, after, InPipe::Response);
}

/// What three events brought.
proof fn lemma_received_three<E>(before: Seq<Transfer<E>>, after: Seq<Transfer<E>>, pipe: InPipe)
    requires
        after.len() == before.len() + 3,
    ensures
        received(before, after, pipe) == reply(after[before.len() as int], pipe) + reply(
            after[before.len() as int + 1],
            pipe,
        ) + reply(after[before.len() as int + 2], pipe),
{
    let earlier = after.take(before.len() as int + 2);
    lemma_received_two(before, earlier, pipe);
    let events = after.skip(before.len() as int);
    assert(events.drop_last() =~= earlier.skip(before.len() as int));
    assert(events.last() == after[before.len() as int + 2]);
}

/// A configuration read returns the 64 bytes that came on the response pipe behind
/// a request with code `0x25`.
pub proof fn law_configuration_read_on_the_wire<E>(
    timings: OperationTimings,
    before: Seq<Transfer<E>>,
    after: Seq<Transfer<E>>,
    read: ConfigurationReadResult,
)
    requires
        read_configuration_outcome(timings, before, after, Ok(read)),
    ensures
        ({
            let base = before.len() as int;
            &&& after.len() == base + 3
            &&& sends_block(after[base], 0x25, 0, 0, 64)
            &&& completes(after[base + 1], timings.completion as int)
            &&& read_from(after[base + 2], InPipe::Response, 2000) == Some(read.data@)
            &&& read.receipt@.len() == 1
        }),
{
    lemma_configuration_read(timings, before, after);
    lemma_received_three(before, after, InPipe::Completion);
}

/// A configuration verification compares what a request with code `0x25` brings. It
/// succeeds exactly if every bit that the mask selects is the same, and else names
/// the first byte in which a selected bit differs.
pub proof fn law_configuration_verify_on_the_wire<E>(
    expected: Seq<u8>,
    mask: Seq<u8>,
    timings: OperationTimings,
    before: Seq<Transfer<E>>,
    after: Seq<Transfer<E>>,
    result: Result<OperationReceipt, OperationError<E>>,
)
    requires
        expected.len() == 64,
        mask.len() == 64,
        verify_configuration_outcome(expected, mask, timings, before, after, result),
        match result {
            Ok(_) => true,
            Err(error) => error is ConfigurationMismatch,
        },
    ensures
        ({
            let base = before.len() as int;
            &&& sends_block(after[base], 0x25, 0, 0, 64)
            &&& read_from(after[base + 2], InPipe::Response, 2000) matches Some(actual)
            &&& actual.len() == 64
            &&& match result {
                Ok(_) => forall|i: int|
                    0 <= i < 64 ==> expected[i] & mask[i] == #[trigger] actual[i] & mask[i],
                Err(OperationError::ConfigurationMismatch(found)) => {
                    &&& found.offset < 64
                    &&& found.expected == expected[found.offset as int]
                    &&& found.actual == actual[found.offset as int]
                    &&& found.mask == mask[found.offset as int]
                    &&& found.expected & found.mask != found.actual & found.mask
                    &&& forall|i: int|
                        0 <= i < found.offset ==> expected[i] & mask[i] == #[trigger] actual[i]
                            & mask[i]
                },
                Err(_) => true,
            }
        }),
{
    lemma_configuration_read(timings, before, after);
    let actual = received(before, after, InPipe::Response);
    assert forall|i: int| 0 <= i < 64 implies ((expected[i] ^ #[trigger] actual[i]) & mask[i] == 0
        <==> expected[i] & mask[i] == actual[i] & mask[i]) by {
        lemma_masked(expected[i], actual[i], mask[i]);
    }
    if let Err(OperationError::ConfigurationMismatch(found)) = result {
        lemma_masked(found.expected, found.actual, found.mask);
    }
}

proof fn lemma_masked(left: u8, right: u8, mask: u8)
    ensures
        (left ^ right) & mask == 0 <==> left & mask == right & mask,
{
    assert((left ^ right) & mask == 0 <==> left & mask == right & mask) by (bit_vector);
}

/// An erase writes the path selector at offset 4 and the mode at offset 16: 0 to
/// erase the chip and 1 to let the programmer choose.
pub proof fn law_erase_blocks(path_selector: u32)
    ensures
        is_block(
            erase_frame(path_selector, EraseMode::Chip),
            0x13,
            path_selector as int,
            0,
            0,
            0,
        ),
        is_block(
            erase_frame(path_selector, EraseMode::Automatic),
            0x13,
            path_selector as int,
            0,
            0,
            1,
        ),
{
    lemma_block(KnownCommand::Erase, path_selector, 0, 0, 0);
    lemma_block(KnownCommand::Erase, path_selector, 0, 0, 1);
}

/// An erase sends one block with code `0x13`, the path selector and the mode, waits
/// up to 1000 s for a completion byte, and reads 64 bytes behind a byte that is not
/// good. It reports completion exactly for a good byte, and else the first of the
/// 64 bytes: 10 and 18 have names of their own.
#[verifier::rlimit(50)]
pub proof fn law_erase_on_the_wire<E>(
    request: EraseRequest,
    timings: OperationTimings,
    before: Seq<Transfer<E>>,
    after: Seq<Transfer<E>>,
    erased: EraseResult,
)
    requires
        erase_result(request, timings, before, after, Ok(erased)),
    ensures
        ({
            let base = before.len() as int;
            let mode = match request.mode {
                EraseMode::Chip => 0int,
                EraseMode::Automatic => 1int,
            };
            &&& wrote(after[base], OutPipe::Command, 100) matches Some(block)
            &&& is_block(block, 0x13, request.path_selector as int, 0, 0, mode)
            &&& read_from(after[base + 1], InPipe::Completion, 1_000_000) matches Some(status)
            &&& status.len() == 1
            &&& erased.receipt@ == status
            &&& if is_good(status[0]) {
                &&& after.len() == base + 2
                &&& erased.outcome is Completed
                &&& erased.raw_result is None
            } else {
                &&& after.len() == base + 3
                &&& read_from(after[base + 2], InPipe::Response, 1000) matches Some(answer)
                &&& answer.len() == 64
                &&& erased.raw_result matches Some(raw)
                &&& raw@ == answer
                &&& match erased.outcome {
                    EraseOutcome::Completed => false,
                    EraseOutcome::ResultCode0A => answer[0] == 10,
                    EraseOutcome::ResultCode12 => answer[0] == 18,
                    EraseOutcome::UnexpectedResult { code } => code == answer[0] && code != 10
                        && code != 18,
                }
            }
        }),
{
    let base = before.len() as int;
    let status = received(before, after, InPipe::Completion);
    let accepted = completion_accepted(status[0]);
    let plan = erase_plan(request, accepted);
    law_erase_blocks(request.path_selector);
    law_accepted_completion_bits(status[0]);
    lemma_step(plan, before, after, 0);
    lemma_step(plan, before, after, 1);
    if accepted {
        lemma_received_two(before, after, InPipe::Completion);
    } else {
        lemma_step(plan, before, after, 2);
        lemma_received_three(before, after, InPipe::Completion);
        lemma_received_three(before, after, InPipe::Response);
    }
    assert(reply(after[base], InPipe::Completion) =~= Seq::<u8>::empty());
    assert(status =~= reply(after[base + 1], InPipe::Completion));
}

/// A progress stream is asked for with code `0x3a`. Every event holds the 16 bytes
/// of one record; its value is the third byte, and it ends the stream if the
/// highest bit of the second byte is set. The last event and no other one does.
#[verifier::rlimit(50)]
pub proof fn law_progress_on_the_wire<E>(
    max_records: usize,
    timings: OperationTimings,
    before: Seq<Transfer<E>>,
    after: Seq<Transfer<E>>,
    progress: ProgressResult,
)
    requires
        progress_outcome(max_records, timings, before, after, Ok(progress)),
    ensures
        ({
            let base = before.len() as int;
            let events = progress.events@;
            &&& 1 <= events.len() <= max_records
            &&& after.len() == base + 2 + events.len()
            &&& sends_block(after[base], 0x3a, 0, 0, 0)
            &&& forall|i: int|
                #![trigger events[i]]
                0 <= i < events.len() ==> {
                    &&& read_from(after[base + 1 + i], InPipe::Specialized, 2000) == Some(
                        events[i].raw@,
                    )
                    &&& events[i].stage_or_progress == events[i].raw@[2]
                    &&& events[i].finished == (events[i].raw@[1] >= 128)
                    &&& events[i].finished == (i == events.len() - 1)
                }
            &&& completes(after[base + 1 + events.len()], timings.completion as int)
        }),
{
    let base = before.len() as int;
    let events = progress.events@;
    let records = events.len();
    let plan = progress_plan(records, timings.completion);
    lemma_step(plan, before, after, 0);
    lemma_step(plan, before, after, 1 + records as int);
    lemma_block(KnownCommand::ProgressEvents, 0, 0, 0, 0);
    assert forall|i: int|
        #![trigger events[i]]
        0 <= i < records implies {
        &&& read_from(after[base + 1 + i], InPipe::Specialized, 2000) == Some(events[i].raw@)
        &&& events[i].stage_or_progress == events[i].raw@[2]
        &&& events[i].finished == (events[i].raw@[1] >= 128)
        &&& events[i].finished == (i == records - 1)
    } by {
        lemma_step(plan, before, after, 1 + i);
        let record = record_at(before, after, i);
        let flags = record[1];
        assert((flags & 0x80 != 0) == (flags >= 128)) by (bit_vector);
    }
}

/// One step that was sent, whatever the policy.
proof fn lemma_sent_step<S, E>(
    judge: spec_fn(S, u8) -> bool,
    plan: Seq<Step<S>>,
    before: Seq<Transfer<E>>,
    after: Seq<Transfer<E>>,
    k: int,
)
    requires
        carried_out(judge, plan, before, after),
        0 <= k < plan.len(),
    ensures
        plan[k] matches Step::Send { pipe, bytes, timeout, .. } ==> wrote(
            after[before.len() + k],
            pipe,
            timeout as int,
        ) == Some(bytes),
        plan[k] matches Step::Complete { timeout, stage } ==> {
            &&& read_from(after[before.len() + k], InPipe::Completion, timeout as int) matches Some(
                bytes,
            )
            &&& bytes.len() == 1
            &&& judge(stage, bytes[0])
        },
        plan[k] matches Step::Confirm { .. } ==> {
            &&& read_from(after[before.len() + k], InPipe::Response, 1000) matches Some(bytes)
            &&& bytes.len() == 64
        },
{
    assert(passes(judge, plan[k], after[before.len() + k]));
}

/// The blocks and payloads that install an algorithm, from event `start` on: chunk
/// after chunk a block with code `0x87`, the position of the chunk at offset 8, its
/// length at 12, the name from 16 on and the timestamp from 32 on, and behind it
/// the 2048 bytes of the payload at that position, or what is left of them.
pub open spec fn installs<E>(
    history: Seq<Transfer<E>>,
    start: int,
    algorithm: AlgorithmView,
    chunks: int,
) -> bool {
    &&& chunks >= 1
    &&& (chunks - 1) * 2048 < algorithm.payload.len() <= chunks * 2048
    &&& forall|i: int|
        #![trigger history[start + 3 * i]]
        0 <= i < chunks ==> {
            let length = smaller(2048, algorithm.payload.len() - 2048 * i);
            &&& wrote(history[start + 3 * i], OutPipe::Command, 100) matches Some(block)
            &&& block.len() == 64
            &&& half(block, 0) == 0x87 && half(block, 2) == 0 && word(block, 4) == 0
            &&& word(block, 8) == 2048 * i
            &&& word(block, 12) == length
            &&& forall|j: int|
                0 <= j < 16 ==> #[trigger] block[16 + j] == if j < algorithm.name.len() {
                    algorithm.name[j] as u8
                } else {
                    0
                }
            &&& forall|j: int| 0 <= j < 8 ==> #[trigger] block[32 + j] == algorithm.timestamp[j]
            &&& forall|j: int| 40 <= j < 64 ==> #[trigger] block[j] == 0
            &&& wrote(history[start + 3 * i + 1], OutPipe::Payload, 500) == Some(
                algorithm.payload.subrange(2048 * i, 2048 * i + length),
            )
            &&& read_from(history[start + 3 * i + 2], InPipe::Completion, 600) matches Some(status)
            &&& status.len() == 1
        }
}

#[verifier::rlimit(60)]
proof fn lemma_installs<P: CompletionPolicy, E>(
    policy: P,
    algorithm: AlgorithmView,
    plan: Seq<Step<crate::session::TransferStage>>,
    start: Seq<Transfer<E>>,
    after: Seq<Transfer<E>>,
)
    requires
        algorithm.valid(),
        algorithm.name.len() < 16,
        carried_out(policy_judge(policy), plan, start, after),
        plan.len() >= installation_plan(algorithm).len(),
        forall|i: int|
            0 <= i < installation_plan(algorithm).len() ==> #[trigger] plan[i]
                == installation_plan(algorithm)[i],
    ensures
        ({
            let base = start.len() as int;
            let chunks = (installation_plan(algorithm).len() - 2) / 3;
            &&& installation_plan(algorithm).len() == 3 * chunks + 2
            &&& installs(after, base, algorithm, chunks)
            &&& sends_block(after[base + 3 * chunks], 0x08, 0, 0, 0)
            &&& read_from(after[base + 3 * chunks + 1], InPipe::Response, 1000) matches Some(answer)
            &&& answer.len() == 64
        }),
{
    let base = start.len() as int;
    let judge = policy_judge(policy);
    let install = installation_plan(algorithm);
    let total = algorithm.payload.len();
    let chunk = ALGORITHM_CHUNK_MAX_BYTES as nat;
    let count: int = chunk_count(total, chunk) as int;
    lemma_chunk_count(total, chunk, 0);
    lemma_chunk_count(total, chunk, count);
    lemma_chunk_count(total, chunk, count - 1);
    assert(install.len() == 3 * count + 2);
    assert((install.len() - 2) / 3 == count);
    assert(install[3 * count] == confirm_plan(algorithm.name)[0]);
    assert(install[3 * count + 1] == confirm_plan(algorithm.name)[1]);
    lemma_sent_step(judge, plan, start, after, 3 * count);
    lemma_sent_step(judge, plan, start, after, 3 * count + 1);
    lemma_block(KnownCommand::VerifyDeviceAlgorithm, 0, 0, 0, 0);
    assert forall|i: int|
        #![trigger after[base + 3 * i]]
        0 <= i < count implies {
        let length = smaller(2048, algorithm.payload.len() - 2048 * i);
        &&& wrote(after[base + 3 * i], OutPipe::Command, 100) matches Some(block)
        &&& block.len() == 64
        &&& half(block, 0) == 0x87 && half(block, 2) == 0 && word(block, 4) == 0
        &&& word(block, 8) == 2048 * i
        &&& word(block, 12) == length
        &&& forall|j: int|
            0 <= j < 16 ==> #[trigger] block[16 + j] == if j < algorithm.name.len() {
                algorithm.name[j] as u8
            } else {
                0
            }
        &&& forall|j: int| 0 <= j < 8 ==> #[trigger] block[32 + j] == algorithm.timestamp[j]
        &&& forall|j: int| 40 <= j < 64 ==> #[trigger] block[j] == 0
        &&& wrote(after[base + 3 * i + 1], OutPipe::Payload, 500) == Some(
            algorithm.payload.subrange(2048 * i, 2048 * i + length),
        )
        &&& read_from(after[base + 3 * i + 2], InPipe::Completion, 600) matches Some(status)
        &&& status.len() == 1
    } by {
        lemma_chunk_count(total, chunk, i);
        assert((3 * i) / 3 == i && (3 * i) % 3 == 0);
        assert((3 * i + 1) / 3 == i && (3 * i + 1) % 3 == 1);
        assert((3 * i + 2) / 3 == i && (3 * i + 2) % 3 == 2);
        assert(install[3 * i] == download_plan(algorithm)[3 * i]);
        assert(install[3 * i + 1] == download_plan(algorithm)[3 * i + 1]);
        assert(install[3 * i + 2] == download_plan(algorithm)[3 * i + 2]);
        lemma_sent_step(judge, plan, start, after, 3 * i);
        lemma_sent_step(judge, plan, start, after, 3 * i + 1);
        lemma_sent_step(judge, plan, start, after, 3 * i + 2);
        lemma_chunk_block(algorithm, 2048 * i);
    }
}

proof fn lemma_chunk_block(algorithm: AlgorithmView, offset: int)
    requires
        algorithm.valid(),
        algorithm.name.len() < 16,
        0 <= offset < algorithm.payload.len(),
    ensures
        ({
            let block = chunk_frame(algorithm, offset);
            &&& block.len() == 64
            &&& half(block, 0) == 0x87 && half(block, 2) == 0 && word(block, 4) == 0
            &&& word(block, 8) == offset
            &&& word(block, 12) == smaller(2048, algorithm.payload.len() - offset)
            &&& forall|j: int|
                0 <= j < 16 ==> #[trigger] block[16 + j] == if j < algorithm.name.len() {
                    algorithm.name[j] as u8
                } else {
                    0
                }
            &&& forall|j: int| 0 <= j < 8 ==> #[trigger] block[32 + j] == algorithm.timestamp[j]
            &&& forall|j: int| 40 <= j < 64 ==> #[trigger] block[j] == 0
        }),
{
    let tail = name_field(algorithm.name) + algorithm.timestamp + zeros(24);
    let length = smaller(2048, algorithm.payload.len() - offset);
    let block = chunk_frame(algorithm, offset);
    assert(tail.len() == 48);
    lemma_frame_fields(
        KnownCommand::DownloadAlgorithmChunk,
        0,
        offset as u32,
        length as u32,
        tail,
    );
    law_fields_are_low_byte_first(block, 0);
    law_fields_are_low_byte_first(block, 4);
    law_fields_are_low_byte_first(block, 8);
    law_fields_are_low_byte_first(block, 12);
    assert forall|i: int| 16 <= i < 64 implies #[trigger] block[i] == tail[i - 16] by {
        assert(block.skip(16)[i - 16] == block[i]);
    }
}

/// A preparation that sent the algorithm installed it chunk by chunk, asked with
/// code `0x08` whether it arrived, and sent the parameter image of 2048 bytes
/// behind a block with code `0x8a`. Where the session knew the algorithm, all that
/// comes behind one more such question.
#[verifier::rlimit(60)]
pub proof fn law_preparation_on_the_wire<P: CompletionPolicy, E>(
    policy: P,
    current: bool,
    algorithm: AlgorithmView,
    image: Seq<u8>,
    before: Seq<Transfer<E>>,
    after: Seq<Transfer<E>>,
    waits_before: Waits,
    waits_after: Waits,
    ready: AlgorithmReady,
)
    requires
        algorithm.valid(),
        image.len() == 2048,
        prepare_outcome(
            policy,
            current,
            algorithm,
            image,
            before,
            after,
            waits_before,
            waits_after,
            Ok(ready),
        ),
    ensures
        ({
            let base = before.len() as int;
            let last = after.len() - 1;
            let start = if current {
                base + 2
            } else {
                base
            };
            &&& current ==> sends_block(after[base], 0x08, 0, 0, 0)
            &&& ready.is_reused() ==> current && after.len() == base + 5
            &&& !ready.is_reused() ==> {
                let chunks = (after.len() - start - 5) / 3;
                &&& after.len() == start + 3 * chunks + 5
                &&& installs(after, start, algorithm, chunks)
                &&& sends_block(after[start + 3 * chunks], 0x08, 0, 0, 0)
            }
            &&& sends_block(after[last - 2], 0x8a, 0, 0, 2048)
            &&& wrote(after[last - 1], OutPipe::Payload, 500) == Some(image)
            &&& read_from(after[last], InPipe::Completion, 600) matches Some(status)
            &&& status.len() == 1
        }),
{
    let judge = policy_judge(policy);
    let base = before.len() as int;
    let last_plan = parameters_plan(image);
    let start = if current {
        after.take(base + 2)
    } else {
        before
    };
    if current {
        lemma_sent_step(judge, check_plan(), before, start, 0);
        lemma_block(KnownCommand::VerifyDeviceAlgorithm, 0, 0, 0, 0);
        assert(start[base] == after[base]);
    }
    let plan = if ready.is_reused() {
        last_plan
    } else {
        installation_plan(algorithm) + last_plan
    };
    assert(carried_out(judge, plan, start, after));
    let done: int = plan.len() - 3;
    assert(plan[done] == last_plan[0]);
    assert(plan[done + 1] == last_plan[1]);
    assert(plan[done + 2] == last_plan[2]);
    lemma_sent_step(judge, plan, start, after, done);
    lemma_sent_step(judge, plan, start, after, done + 1);
    lemma_sent_step(judge, plan, start, after, done + 2);
    lemma_block(KnownCommand::DownloadDeviceParameters, 0, 0, 0x800, 0);
    if !ready.is_reused() {
        lemma_installs(policy, algorithm, plan, start, after);
    }
}

/// An identification that succeeds installed the algorithm, probed with code `0x0f`
/// and the voltage in hundredths of a volt at offset 8 - 330 or 180 -, and asked
/// with code `0x12` for the eight bytes that it returns.
#[verifier::rlimit(60)]
pub proof fn law_identification_on_the_wire<P: CompletionPolicy, E>(
    policy: P,
    algorithm: AlgorithmView,
    voltage: IdentificationVoltage,
    before: Seq<Transfer<E>>,
    after: Seq<Transfer<E>>,
    waits_before: Waits,
    waits_after: Waits,
    identified: IdentificationResult,
)
    requires
        algorithm.valid(),
        identification_outcome(
            policy,
            algorithm,
            voltage,
            before,
            after,
            waits_before,
            waits_after,
            Ok(identified),
        ),
    ensures
        ({
            let base = before.len() as int;
            let last = after.len() - 1;
            let chunks = (after.len() - base - 7) / 3;
            let hundredths = match voltage {
                IdentificationVoltage::V3_3 => 330int,
                IdentificationVoltage::V1_8 => 180int,
            };
            &&& after.len() == base + 3 * chunks + 7
            &&& installs(after, base, algorithm, chunks)
            &&& sends_block(after[base + 3 * chunks], 0x08, 0, 0, 0)
            &&& sends_block(after[last - 4], 0x0f, 0, hundredths, 0)
            &&& completes(after[last - 3], 1500)
            &&& sends_block(after[last - 2], 0x12, 0, 0, 8)
            &&& completes(after[last - 1], 1000)
            &&& read_from(after[last], InPipe::Response, 500) == Some(identified.detected())
            &&& identified.detected().len() == 8
        }),
{
    let base = before.len() as int;
    let install = installation_plan(algorithm);
    let installed = after.take(base + install.len());
    let plan = probe_plan(voltage);
    reveal_strlit("M25ID");
    crate::text::lemma_case_is_an_equivalence(algorithm.name, "M25ID"@, algorithm.name);
    lemma_installs(policy, algorithm, install, before, installed);
    let chunks = (install.len() - 2) / 3;
    assert forall|i: int| base <= i < installed.len() implies #[trigger] installed[i] == after[i] by {}
    assert forall|i: int|
        #![trigger after[base + 3 * i]]
        0 <= i < chunks implies installed[base + 3 * i] == after[base + 3 * i] && installed[base + 3
        * i + 1] == after[base + 3 * i + 1] && installed[base + 3 * i + 2] == after[base + 3 * i
        + 2] by {}
    assert(installs(after, base, algorithm, chunks));
    let first = installed.len() as int;
    lemma_step(plan, installed, after, 0);
    lemma_step(plan, installed, after, 1);
    lemma_step(plan, installed, after, 2);
    lemma_step(plan, installed, after, 3);
    lemma_step(plan, installed, after, 4);
    lemma_block(KnownCommand::TargetProbe, 0, voltage.hundredths(), 0, 0);
    lemma_block(KnownCommand::ReadIdentificationResult, 0, 0, 8, 0);
    let probed = after.take(first + 2);
    lemma_received_two(installed, probed, InPipe::Response);
    lemma_received_three(probed, after, InPipe::Response);
    crate::exchange::lemma_received_split(installed, probed, after, InPipe::Response);
    assert(received(installed, after, InPipe::Response) =~= reply(
        after[first + 4],
        InPipe::Response,
    ));
}

/// How an operation that a completion byte ended is reported. The byte was not good,
/// and what followed it is the whole answer of the programmer: 56 bytes on the
/// response pipe for an adapter check, 64 bytes there for a target probe, nothing for
/// a configuration write, and 64 bytes on the diagnostic pipe for anything else.
#[verifier::rlimit(60)]
pub proof fn law_rejections_on_the_wire<E>(
    diagnostic_timeout: u64,
    plan: Seq<Step<OperationStage>>,
    before: Seq<Transfer<E>>,
    after: Seq<Transfer<E>>,
    error: OperationError<E>,
)
    requires
        interrupted(diagnostic_timeout, plan, before, after, error),
    ensures
        ({
            let last = after.len() - 1;
            let status = |event: Transfer<E>|
                match event {
                    Transfer::Read {
                        pipe: InPipe::Completion,
                        length,
                        result: Ok(bytes),
                        ..
                    } => if length == 1 && bytes.len() == 1 {
                        Some(bytes[0])
                    } else {
                        None
                    },
                    _ => None,
                };
            match error {
                OperationError::AdapterCheckRejected { raw_status, response } => {
                    &&& status(after[last - 1]) == Some(raw_status)
                    &&& !is_good(raw_status)
                    &&& read_from(after[last], InPipe::Response, 500) == Some(response@)
                    &&& response@.len() == 56
                },
                OperationError::TargetProbeRejected { raw_status, response } => {
                    &&& status(after[last - 1]) == Some(raw_status)
                    &&& !is_good(raw_status)
                    &&& read_from(after[last], InPipe::Response, 1000) == Some(response@)
                    &&& response@.len() == 64
                },
                OperationError::ConfigurationWriteRejected { raw_status } => {
                    &&& status(after[last]) == Some(raw_status)
                    &&& !is_good(raw_status)
                },
                OperationError::CompletionRejected { raw_status, diagnostic, .. } => {
                    &&& status(after[last - 1]) == Some(raw_status)
                    &&& !is_good(raw_status)
                    &&& read_from(
                        after[last],
                        InPipe::AuxiliaryResult,
                        diagnostic_timeout as int,
                    ) == Some(diagnostic@)
                    &&& diagnostic@.len() == 64
                },
                OperationError::DiagnosticTransport { raw_status, source, .. } => {
                    &&& status(after[last - 1]) == Some(raw_status)
                    &&& !is_good(raw_status)
                    &&& after[last] matches Transfer::Read {
                        pipe: InPipe::AuxiliaryResult,
                        result: Err(reason),
                        ..
                    } && reason == source
                },
                OperationError::Transport { source, .. } => match after[last] {
                    Transfer::Write { result: Err(reason), .. } => reason == source,
                    Transfer::Read { result: Err(reason), .. } => reason == source,
                    _ => false,
                },
                _ => false,
            }
        }),
{
    let k = choose|k: int|
        0 <= k < plan.len() && #[trigger] stopped_at(
            diagnostic_timeout,
            plan,
            before,
            after,
            error,
            k,
        );
    let tail = after.skip(before.len() + k);
    assert(tail[0] == after[before.len() + k]);
    if let Step::Complete { timeout, .. } = plan[k] {
        if tail.len() > 1 {
            assert(tail.skip(1)[0] == tail[1]);
            assert(tail[1] == after[before.len() + k + 1]);
        }
        if replied(tail[0], InPipe::Completion, 1, timeout) is Some {
            law_accepted_completion_bits(
                replied(tail[0], InPipe::Completion, 1, timeout).unwrap()[0],
            );
        }
    }
}

/// A verification names the first byte that came back different, by its address in
/// the region: all bytes before it are the expected ones.
pub proof fn law_mismatches_are_first<E>(
    region: u32,
    start: usize,
    expected: Seq<u8>,
    minimum_primary_chunk: u16,
    timings: OperationTimings,
    before: Seq<Transfer<E>>,
    after: Seq<Transfer<E>>,
    mismatch: VerifyMismatch,
    earlier: int,
)
    requires
        expected.len() <= usize::MAX,
        verify_outcome(
            region,
            start,
            expected,
            minimum_primary_chunk,
            timings,
            before,
            after,
            Err(OperationError::VerifyMismatch(mismatch)),
        ),
    ensures
        ({
            let actual = received(before, after, InPipe::Response);
            &&& start <= mismatch.offset < start + expected.len()
            &&& mismatch.expected == expected[mismatch.offset - start]
            &&& mismatch.actual == actual[mismatch.offset - start]
            &&& mismatch.expected != mismatch.actual
            &&& 0 <= earlier < mismatch.offset - start ==> expected[earlier] == actual[earlier]
        }),
{
    let actual = received(before, after, InPipe::Response);
    let i = mismatch.offset - start;
    reveal(chunk_bucket);
    lemma_read_total(
        region,
        start as nat,
        expected.len(),
        chunk_size(region, expected.len() as int, minimum_primary_chunk) as nat,
        VERIFY_DATA_TIMEOUT,
        before,
        after,
    );
    if 0 <= earlier < i {
        assert(expected.take(i)[earlier] == actual.take(i)[earlier]);
    }
}

/// A target is ready only behind its parameter image, an adapter check and a target
/// probe, in this order: the last seven transfers are those of the three.
#[verifier::rlimit(60)]
pub proof fn law_ready_targets_on_the_wire<E>(
    current: bool,
    algorithm: AlgorithmView,
    image: Seq<u8>,
    before: Seq<Transfer<E>>,
    after: Seq<Transfer<E>>,
    waits_before: Waits,
    waits_after: Waits,
    ready: TargetReady,
)
    requires
        algorithm.valid(),
        image.len() == 2048,
        ready_outcome(
            current,
            algorithm,
            image,
            before,
            after,
            waits_before,
            waits_after,
            Ok(ready),
        ),
    ensures
        ({
            let end = after.len() as int;
            &&& end >= before.len() + 7
            &&& sends_block(after[end - 7], 0x8a, 0, 0, 2048)
            &&& wrote(after[end - 6], OutPipe::Payload, 500) == Some(image)
            &&& sends_block(after[end - 4], 0x0c, 2, 0, 56)
            &&& completes(after[end - 3], 1000)
            &&& sends_block(after[end - 2], 0x0f, 0, 0, 0)
            &&& completes(after[end - 1], 500)
        }),
{
    let (prepared, checked) = choose|prepared: Seq<Transfer<E>>, checked: Seq<Transfer<E>>|
        #[trigger] ready_through(
            current,
            algorithm,
            image,
            before,
            prepared,
            checked,
            after,
            waits_before,
            waits_after,
            Ok(ready),
        );
    law_preparation_on_the_wire(
        StaticCompletionPolicy,
        current,
        algorithm,
        image,
        before,
        prepared,
        waits_before,
        waits_after,
        ready.algorithm,
    );
    let usual = usual_timings();
    law_adapter_check_on_the_wire(usual, prepared, checked, ready.adapter);
    law_target_probe_on_the_wire(usual, checked, after, ready.probe);
    assert(checked == after.take(checked.len() as int));
    assert(prepared == checked.take(prepared.len() as int));
    let end = after.len() as int;
    assert(checked[end - 4] == after[end - 4]);
    assert(checked[end - 3] == after[end - 3]);
    assert(prepared[end - 7] == checked[end - 7]);
    assert(checked[end - 7] == after[end - 7]);
    assert(prepared[end - 6] == checked[end - 6]);
    assert(checked[end - 6] == after[end - 6]);
}

} // verus!
