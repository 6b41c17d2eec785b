//! Plans of transfers, and what it means that a transport carried one out.

use vstd::prelude::*;

use crate::protocol::parsed_verification;
use crate::transport::{InPipe, OutPipe, Transfer, ALGORITHM_VERIFY_TIMEOUT};

verus! {

/// One step that a session takes next.
#[allow(inconsistent_fields)]
pub enum Step<S> {
    /// Bytes go to an OUT pipe.
    Send { pipe: OutPipe, bytes: Seq<u8>, timeout: u64, stage: S },
    /// Bytes come from an IN pipe.
    Receive { pipe: InPipe, length: nat, timeout: u64, stage: S },
    /// A completion byte comes and must be accepted.
    Complete { timeout: u64, stage: S },
    /// A verification response comes and must confirm the named algorithm.
    Confirm { name: Seq<char>, stage: S },
}

/// The bytes of a read that did what was asked of it.
pub open spec fn replied<E>(
    event: Transfer<E>,
    pipe: InPipe,
    length: nat,
    timeout: u64,
) -> Option<Seq<u8>> {
    match event {
        Transfer::Read { pipe: on, length: asked, timeout: within, result: Ok(bytes) } => if on
            == pipe && asked == length && within == timeout && bytes.len() == length {
            Some(bytes)
        } else {
            None
        },
        _ => None,
    }
}

/// The error of a read that was asked for and failed.
pub open spec fn failed_read<E>(
    event: Transfer<E>,
    pipe: InPipe,
    length: nat,
    timeout: u64,
) -> Option<E> {
    match event {
        Transfer::Read { pipe: on, length: asked, timeout: within, result: Err(source) } => if on
            == pipe && asked == length && within == timeout {
            Some(source)
        } else {
            None
        },
        _ => None,
    }
}

/// A write did what was asked of it.
pub open spec fn written<E>(
    event: Transfer<E>,
    pipe: OutPipe,
    bytes: Seq<u8>,
    timeout: u64,
) -> bool {
    match event {
        Transfer::Write { pipe: on, bytes: sent, timeout: within, result: Ok(_) } => on == pipe
            && sent == bytes && within == timeout,
        _ => false,
    }
}

/// The error of a write that was asked for and failed.
pub open spec fn failed_write<E>(
    event: Transfer<E>,
    pipe: OutPipe,
    bytes: Seq<u8>,
    timeout: u64,
) -> Option<E> {
    match event {
        Transfer::Write { pipe: on, bytes: sent, timeout: within, result: Err(source) } => if on
            == pipe && sent == bytes && within == timeout {
            Some(source)
        } else {
            None
        },
        _ => None,
    }
}

/// A transfer succeeded or not.
pub open spec fn succeeded<E>(event: Transfer<E>) -> bool {
    match event {
        Transfer::Write { result, .. } => result is Ok,
        Transfer::Read { result, .. } => result is Ok,
    }
}

/// A transfer carries a step out, where `judge` says which completion bytes a
/// stage accepts.
pub open spec fn passes<S, E>(
    judge: spec_fn(S, u8) -> bool,
    step: Step<S>,
    event: Transfer<E>,
) -> bool {
    match step {
        Step::Send { pipe, bytes, timeout, .. } => written(event, pipe, bytes, timeout),
        Step::Receive { pipe, length, timeout, .. } => replied(
            event,
            pipe,
            length,
            timeout,
        ) is Some,
        Step::Complete { timeout, stage } => {
            &&& replied(event, InPipe::Completion, 1, timeout) matches Some(status)
            &&& judge(stage, status[0])
        },
        Step::Confirm { name, .. } => {
            &&& replied(event, InPipe::Response, 64, ALGORITHM_VERIFY_TIMEOUT) matches Some(bytes)
            &&& parsed_verification(bytes) matches Ok(verification)
            &&& verification.confirms(name)
        },
    }
}

/// Since `before`, the transfers up to `now` carried out the first steps of the
/// plan, one transfer a step, and nothing else.
pub open spec fn on_course<S, E>(
    judge: spec_fn(S, u8) -> bool,
    plan: Seq<Step<S>>,
    before: Seq<Transfer<E>>,
    now: Seq<Transfer<E>>,
) -> bool {
    &&& before.len() <= now.len() <= before.len() + plan.len()
    &&& before == now.take(before.len() as int)
    &&& forall|i: int|
        0 <= i < now.len() - before.len() ==> passes(
            judge,
            #[trigger] plan[i],
            now[before.len() + i],
        )
}

/// Since `before`, the transfers up to `after` carried out the whole plan, one
/// transfer a step, and nothing else.
pub open spec fn carried_out<S, E>(
    judge: spec_fn(S, u8) -> bool,
    plan: Seq<Step<S>>,
    before: Seq<Transfer<E>>,
    after: Seq<Transfer<E>>,
) -> bool {
    on_course(judge, plan, before, after) && after.len() == before.len() + plan.len()
}

/// The bytes of a transfer that came from a pipe.
pub open spec fn reply<E>(event: Transfer<E>, pipe: InPipe) -> Seq<u8> {
    match event {
        Transfer::Read { pipe: on, result: Ok(bytes), .. } => if on == pipe {
            bytes
        } else {
            Seq::empty()
        },
        _ => Seq::empty(),
    }
}

/// All bytes that came from a pipe, in order.
pub open spec fn replies<E>(events: Seq<Transfer<E>>, pipe: InPipe) -> Seq<u8>
    decreases events.len(),
{
    if events.len() == 0 {
        Seq::empty()
    } else {
        replies(events.drop_last(), pipe) + reply(events.last(), pipe)
    }
}

/// All bytes that came from a pipe since `before`, in order.
pub open spec fn received<E>(
    before: Seq<Transfer<E>>,
    now: Seq<Transfer<E>>,
    pipe: InPipe,
) -> Seq<u8> {
    replies(now.skip(before.len() as int), pipe)
}

/// The bytes of a transfer that went to a pipe.
pub open spec fn sent_by<E>(event: Transfer<E>, pipe: OutPipe) -> Seq<u8> {
    match event {
        Transfer::Write { pipe: on, bytes, result: Ok(_), .. } => if on == pipe {
            bytes
        } else {
            Seq::empty()
        },
        _ => Seq::empty(),
    }
}

/// All bytes that went to a pipe, in order.
pub open spec fn deliveries<E>(events: Seq<Transfer<E>>, pipe: OutPipe) -> Seq<u8>
    decreases events.len(),
{
    if events.len() == 0 {
        Seq::empty()
    } else {
        deliveries(events.drop_last(), pipe) + sent_by(events.last(), pipe)
    }
}

/// All bytes that went to a pipe since `before`, in order.
pub open spec fn sent<E>(
    before: Seq<Transfer<E>>,
    now: Seq<Transfer<E>>,
    pipe: OutPipe,
) -> Seq<u8> {
    deliveries(now.skip(before.len() as int), pipe)
}

/// No transfer since `before` asks anything of a pipe.
pub open spec fn leaves_alone<E>(
    before: Seq<Transfer<E>>,
    now: Seq<Transfer<E>>,
    pipe: InPipe,
) -> bool {
    forall|i: int|
        before.len() <= i < now.len() ==> match #[trigger] now[i] {
            Transfer::Read { pipe: on, .. } => on != pipe,
            Transfer::Write { .. } => true,
        }
}

/// One more transfer adds what it sent.
pub proof fn lemma_sent_take<E>(
    before: Seq<Transfer<E>>,
    now: Seq<Transfer<E>>,
    length: int,
    pipe: OutPipe,
)
    requires
        before.len() < length <= now.len(),
    ensures
        sent(before, now.take(length), pipe) == sent(before, now.take(length - 1), pipe) + sent_by(
            now[length - 1],
            pipe,
        ),
{
    let events = now.take(length).skip(before.len() as int);
    assert(events.drop_last() =~= now.take(length - 1).skip(before.len() as int));
    assert(events.last() == now[length - 1]);
}

/// What went out since a moment is what went until a later one and what went
/// since.
pub proof fn lemma_sent_split<E>(
    before: Seq<Transfer<E>>,
    middle: Seq<Transfer<E>>,
    after: Seq<Transfer<E>>,
    pipe: OutPipe,
)
    requires
        before.len() <= middle.len() <= after.len(),
        middle == after.take(middle.len() as int),
    ensures
        sent(before, after, pipe) == sent(before, middle, pipe) + sent(middle, after, pipe),
    decreases after.len() - middle.len(),
{
    if middle.len() == after.len() {
        assert(middle =~= after);
        assert(after.skip(middle.len() as int).len() == 0);
        assert(sent(before, after, pipe) =~= sent(before, middle, pipe) + sent(
            middle,
            after,
            pipe,
        ));
    } else {
        let shorter = after.drop_last();
        let length: int = after.len() as int;
        assert(middle =~= shorter.take(middle.len() as int));
        lemma_sent_split(before, middle, shorter, pipe);
        assert(after.take(length) =~= after);
        assert(after.take(length - 1) =~= shorter);
        lemma_sent_take(before, after, length, pipe);
        lemma_sent_take(middle, after, length, pipe);
        assert(sent(before, after, pipe) =~= sent(before, middle, pipe) + sent(
            middle,
            after,
            pipe,
        ));
    }
}

/// Nothing has come yet.
pub proof fn lemma_nothing_received<E>(before: Seq<Transfer<E>>, pipe: InPipe)
    ensures
        received(before, before, pipe) == Seq::<u8>::empty(),
{
    assert(before.skip(before.len() as int).len() == 0);
}

/// One more transfer adds its reply.
pub proof fn lemma_received_push<E>(
    before: Seq<Transfer<E>>,
    now: Seq<Transfer<E>>,
    event: Transfer<E>,
    pipe: InPipe,
)
    requires
        before.len() <= now.len(),
    ensures
        received(before, now.push(event), pipe) == received(before, now, pipe) + reply(event, pipe),
{
    let events = now.push(event).skip(before.len() as int);
    assert(events.drop_last() =~= now.skip(before.len() as int));
    assert(events.last() == event);
}

/// What came since a moment is what came until a later one and what came since.
pub proof fn lemma_received_split<E>(
    before: Seq<Transfer<E>>,
    middle: Seq<Transfer<E>>,
    after: Seq<Transfer<E>>,
    pipe: InPipe,
)
    requires
        before.len() <= middle.len() <= after.len(),
        middle == after.take(middle.len() as int),
    ensures
        received(before, after, pipe) == received(before, middle, pipe) + received(
            middle,
            after,
            pipe,
        ),
    decreases after.len() - middle.len(),
{
    if middle.len() == after.len() {
        assert(middle =~= after);
        assert(after.skip(middle.len() as int).len() == 0);
        assert(received(before, after, pipe) =~= received(before, middle, pipe) + received(
            middle,
            after,
            pipe,
        ));
    } else {
        let shorter = after.drop_last();
        assert(middle =~= shorter.take(middle.len() as int));
        lemma_received_split(before, middle, shorter, pipe);
        assert(after =~= shorter.push(after.last()));
        lemma_received_push(before, shorter, after.last(), pipe);
        lemma_received_push(middle, shorter, after.last(), pipe);
        assert(received(before, after, pipe) =~= received(before, middle, pipe) + received(
            middle,
            after,
            pipe,
        ));
    }
}

/// A transfer that carries the next step out keeps a session on course.
pub proof fn lemma_on_course_push<S, E>(
    judge: spec_fn(S, u8) -> bool,
    plan: Seq<Step<S>>,
    before: Seq<Transfer<E>>,
    now: Seq<Transfer<E>>,
    event: Transfer<E>,
)
    requires
        on_course(judge, plan, before, now),
        now.len() - before.len() < plan.len(),
        passes(judge, plan[now.len() - before.len()], event),
    ensures
        on_course(judge, plan, before, now.push(event)),
{
    let next = now.push(event);
    assert(next.take(before.len() as int) =~= now.take(before.len() as int));
    assert forall|i: int| 0 <= i < next.len() - before.len() implies passes(
        judge,
        #[trigger] plan[i],
        next[before.len() + i],
    ) by {
        if i < now.len() - before.len() {
            assert(next[before.len() + i] == now[before.len() + i]);
        }
    }
}

/// A session is on course at its start.
pub proof fn lemma_on_course_start<S, E>(
    judge: spec_fn(S, u8) -> bool,
    plan: Seq<Step<S>>,
    before: Seq<Transfer<E>>,
)
    ensures
        on_course(judge, plan, before, before),
{
    assert(before.take(before.len() as int) =~= before);
}

/// While a session is on course, every transfer that it made has succeeded.
pub proof fn law_steps_on_course_succeeded<S, E>(
    judge: spec_fn(S, u8) -> bool,
    plan: Seq<Step<S>>,
    before: Seq<Transfer<E>>,
    now: Seq<Transfer<E>>,
    i: int,
)
    requires
        on_course(judge, plan, before, now),
        before.len() <= i < now.len(),
    ensures
        succeeded(now[i]),
{
    assert(passes(judge, plan[i - before.len()], now[before.len() + (i - before.len())]));
}

} // verus!
