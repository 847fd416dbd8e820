//! What holds of a subscription from its beginning, whatever comes and when.
use vstd::prelude::*;

use super::json::payload_text;
use super::laws::lemma_payloads_differ;
use super::{
    counted, delivered, encoded, notifications, notify_statement, received,
    report_text, reported, SessionView, QUEUE, REPORT,
};
use crate::message::MessageView;
use crate::sql::StatementView;
use crate::time::LATEST;

verus! {

/// What happens to a session.
pub enum Step {
    /// A message comes.
    Message(MessageView),
    /// Everything that waits is delivered.
    Deliver,
    /// What was dropped is reported, where it is time for it.
    Report(u64),
}

/// The session after a step.
pub open spec fn next(session: SessionView, step: Step) -> SessionView {
    match step {
        Step::Message(message) => received(session, message),
        Step::Deliver => delivered(session),
        Step::Report(now) => reported(session, now),
    }
}

/// The session after the steps of a run.
pub open spec fn after(session: SessionView, steps: Seq<Step>) -> SessionView
    decreases steps.len(),
{
    if steps.len() == 0 {
        session
    } else {
        next(after(session, steps.drop_last()), steps.last())
    }
}

/// The messages that came in a run, each at the place of its number.
pub open spec fn messages(steps: Seq<Step>) -> Seq<MessageView>
    decreases steps.len(),
{
    if steps.len() == 0 {
        Seq::empty()
    } else {
        match steps.last() {
            Step::Message(message) => messages(steps.drop_last()).push(message),
            _ => messages(steps.drop_last()),
        }
    }
}

/// The notifications of a run, in order.
pub open spec fn notices(session: SessionView, steps: Seq<Step>) -> Seq<StatementView>
    decreases steps.len(),
{
    if steps.len() == 0 {
        Seq::empty()
    } else {
        let before = notices(session, steps.drop_last());
        match steps.last() {
            Step::Deliver => before + notifications(
                session.topic,
                after(session, steps.drop_last()).queue,
            ),
            _ => before,
        }
    }
}

/// The drops that the reports of a run have told.
pub open spec fn told_drops(session: SessionView, steps: Seq<Step>) -> int
    decreases steps.len(),
{
    if steps.len() == 0 {
        0
    } else {
        let before = after(session, steps.drop_last());
        told_drops(session, steps.drop_last()) + (match steps.last() {
            Step::Report(now) => if now >= before.next_report {
                before.dropped + before.encoding_errors
            } else {
                0
            },
            _ => 0,
        })
    }
}

/// Whether a session has a subscription, and nothing has come yet.
pub open spec fn is_fresh(session: SessionView) -> bool {
    &&& session.message_type is Some
    &&& session.sequence == 0
    &&& session.queue.len() == 0
    &&& session.dropped == 0
    &&& session.encoding_errors == 0
}

/// The numbers of the messages that wait.
pub open spec fn waiting(steps: Seq<Step>) -> Seq<nat>
    decreases steps.len(),
{
    if steps.len() == 0 {
        Seq::empty()
    } else {
        let before = waiting(steps.drop_last());
        match steps.last() {
            Step::Message(_) => if before.len() < QUEUE {
                before.push(messages(steps.drop_last()).len())
            } else {
                before
            },
            Step::Deliver => Seq::empty(),
            Step::Report(_) => before,
        }
    }
}

/// What becomes of the message with a number.
#[verifier::opaque]
pub open spec fn encoding(session: SessionView, all: Seq<MessageView>, number: nat) -> Result<
    Seq<char>,
    Seq<char>,
> {
    encoded(session.topic, session.message_type->Some_0, number, all[number as int])
}

/// The numbers of those messages among `numbers` that can be encoded.
pub open spec fn encodables(
    session: SessionView,
    all: Seq<MessageView>,
    numbers: Seq<nat>,
) -> Seq<nat>
    decreases numbers.len(),
{
    if numbers.len() == 0 {
        Seq::empty()
    } else {
        let before = encodables(session, all, numbers.drop_last());
        if encoding(session, all, numbers.last()) is Ok {
            before.push(numbers.last())
        } else {
            before
        }
    }
}

/// The numbers of the messages that were notified.
pub open spec fn notified(session: SessionView, steps: Seq<Step>) -> Seq<nat>
    decreases steps.len(),
{
    if steps.len() == 0 {
        Seq::empty()
    } else {
        let before = notified(session, steps.drop_last());
        match steps.last() {
            Step::Deliver => before + encodables(
                session,
                messages(steps.drop_last()),
                waiting(steps.drop_last()),
            ),
            _ => before,
        }
    }
}

/// Whether numbers strictly increase.
pub open spec fn increasing(numbers: Seq<nat>) -> bool {
    forall|i: int, j: int| 0 <= i < j < numbers.len() ==> #[trigger] numbers[i] < #[trigger] numbers[j]
}

/// Whether what waits in a queue are the encodings of the messages with the
/// given numbers.
pub open spec fn holds_encodings(
    session: SessionView,
    all: Seq<MessageView>,
    queue: Seq<Result<Seq<char>, Seq<char>>>,
    numbers: Seq<nat>,
) -> bool {
    &&& queue.len() == numbers.len()
    &&& forall|i: int|
        0 <= i < queue.len() ==> #[trigger] queue[i] == encoding(session, all, numbers[i])
}

/// Whether a statement notifies the message with a number on the channel of the
/// topic.
pub open spec fn is_notice(
    session: SessionView,
    all: Seq<MessageView>,
    statement: StatementView,
    number: nat,
) -> bool {
    encoding(session, all, number) matches Ok(payload) && statement == notify_statement(
        session.topic,
        payload,
    )
}

/// Whether statements notify the messages with the given numbers.
pub open spec fn are_notices(
    session: SessionView,
    all: Seq<MessageView>,
    statements: Seq<StatementView>,
    numbers: Seq<nat>,
) -> bool {
    &&& statements.len() == numbers.len()
    &&& forall|i: int|
        0 <= i < statements.len() ==> is_notice(
            session,
            all,
            #[trigger] statements[i],
            numbers[i],
        )
}

/// Message number `i` is encoded with number `i`. Those that wait and those that
/// were notified are such encodings; the numbers of the notified messages, and
/// behind them those of the waiting ones, strictly increase, so that every
/// message is notified at most once and in the order in which it came. Numbers
/// are 64 bits wide, and begin anew after that many messages.
pub proof fn lemma_notified_in_order(session: SessionView, steps: Seq<Step>)
    requires
        is_fresh(session),
        messages(steps).len() <= u64::MAX,
    ensures
        after(session, steps).topic == session.topic,
        after(session, steps).message_type == session.message_type,
        after(session, steps).sequence == messages(steps).len(),
        after(session, steps).queue.len() <= QUEUE,
        holds_encodings(
            session,
            messages(steps),
            after(session, steps).queue,
            waiting(steps),
        ),
        are_notices(session, messages(steps), notices(session, steps), notified(session, steps)),
        increasing(notified(session, steps) + waiting(steps)),
        forall|i: int|
            0 <= i < (notified(session, steps) + waiting(steps)).len() ==> #[trigger] (notified(
                session,
                steps,
            ) + waiting(steps))[i] < messages(steps).len(),
    decreases steps.len(),
{
    if steps.len() > 0 {
        let init = steps.drop_last();
        lemma_notified_in_order(session, init);
        match steps.last() {
            Step::Message(message) => {
                lemma_received(session, init, message);
                assert(init.push(Step::Message(message)) =~= steps);
            },
            Step::Deliver => {
                lemma_delivered(session, init);
                assert(init.push(Step::Deliver) =~= steps);
            },
            Step::Report(_) => {},
        }
    }
}

/// What the law says of a run of `steps`.
spec fn in_order(session: SessionView, steps: Seq<Step>) -> bool {
    let numbers = notified(session, steps) + waiting(steps);
    &&& holds_encodings(session, messages(steps), after(session, steps).queue, waiting(steps))
    &&& are_notices(session, messages(steps), notices(session, steps), notified(session, steps))
    &&& increasing(numbers)
    &&& forall|i: int| 0 <= i < numbers.len() ==> #[trigger] numbers[i] < messages(steps).len()
}

proof fn lemma_received(session: SessionView, init: Seq<Step>, message: MessageView)
    requires
        in_order(session, init),
        after(session, init).topic == session.topic,
        after(session, init).message_type == session.message_type,
        after(session, init).sequence == messages(init).len(),
    ensures
        in_order(session, init.push(Step::Message(message))),
{
    let steps = init.push(Step::Message(message));
    assert(steps.drop_last() =~= init);
    let earlier = messages(init);
    let all = messages(steps);
    let before = after(session, init);
    let done = notified(session, init);
    let wait = waiting(init);
    let numbers = done + wait;
    lemma_encoding_kept(session, earlier, all);
    assert forall|i: int| 0 <= i < done.len() implies #[trigger] done[i] < earlier.len() by {
        assert(numbers[i] == done[i]);
    }
    assert forall|i: int| 0 <= i < wait.len() implies #[trigger] wait[i] < earlier.len() by {
        assert(numbers[done.len() + i] == wait[i]);
    }
    if wait.len() < QUEUE {
        let now = done + waiting(steps);
        assert(now =~= numbers.push(earlier.len()));
        assert(encoding(session, all, earlier.len()) == encoded(
            before.topic,
            before.message_type->Some_0,
            before.sequence as nat,
            message,
        )) by {
            reveal(encoding);
        }
        assert forall|i: int, j: int| 0 <= i < j < now.len() implies #[trigger] now[i]
            < #[trigger] now[j] by {
            assert(now[i] == numbers[i]);
            if j < numbers.len() {
                assert(now[j] == numbers[j]);
            }
        }
    }
}

proof fn lemma_delivered(session: SessionView, init: Seq<Step>)
    requires
        in_order(session, init),
    ensures
        in_order(session, init.push(Step::Deliver)),
{
    let steps = init.push(Step::Deliver);
    assert(steps.drop_last() =~= init);
    let all = messages(init);
    let before = after(session, init);
    let done = notified(session, init);
    let wait = waiting(init);
    let numbers = done + wait;
    let more = encodables(session, all, wait);
    assert forall|i: int, j: int| 0 <= i < j < wait.len() implies #[trigger] wait[i]
        < #[trigger] wait[j] by {
        assert(numbers[done.len() + i] == wait[i]);
        assert(numbers[done.len() + j] == wait[j]);
    }
    lemma_encodables(session, all, before.queue, wait);
    lemma_encodables_order(session, all, wait);
    let now = notified(session, steps) + waiting(steps);
    assert(now =~= done + more);
    assert forall|j: int| 0 <= j < more.len() implies exists|k: int|
        done.len() <= k < numbers.len() && #[trigger] numbers[k] == #[trigger] more[j] by {
        assert(wait.contains(more[j]));
        let k = choose|k: int| 0 <= k < wait.len() && wait[k] == more[j];
        assert(numbers[done.len() + k] == more[j]);
    }
    assert forall|i: int, j: int| 0 <= i < j < now.len() implies #[trigger] now[i]
        < #[trigger] now[j] by {
        if j < done.len() {
            assert(numbers[i] == now[i] && numbers[j] == now[j]);
        } else if i < done.len() {
            let k = choose|k: int|
                done.len() <= k < numbers.len() && #[trigger] numbers[k] == more[j - done.len()];
            assert(numbers[i] == now[i] && numbers[k] == now[j]);
        } else {
            assert(more[i - done.len()] == now[i] && more[j - done.len()] == now[j]);
        }
    }
    assert forall|i: int| 0 <= i < now.len() implies #[trigger] now[i] < all.len() by {
        if i < done.len() {
            assert(numbers[i] == now[i]);
        } else {
            let k = choose|k: int|
                done.len() <= k < numbers.len() && #[trigger] numbers[k] == more[i - done.len()];
            assert(numbers[k] == now[i]);
        }
    }
    let statements = notices(session, steps);
    let earlier = notices(session, init);
    let fresh = notifications(session.topic, before.queue);
    assert(statements == earlier + fresh);
    assert forall|i: int| 0 <= i < statements.len() implies is_notice(
        session,
        all,
        #[trigger] statements[i],
        notified(session, steps)[i],
    ) by {
        if i < done.len() {
            assert(statements[i] == earlier[i]);
            assert(notified(session, steps)[i] == done[i]);
        } else {
            assert(statements[i] == fresh[i - done.len()]);
            assert(notified(session, steps)[i] == more[i - done.len()]);
        }
    }
}

proof fn lemma_encodables(
    session: SessionView,
    all: Seq<MessageView>,
    queue: Seq<Result<Seq<char>, Seq<char>>>,
    numbers: Seq<nat>,
)
    requires
        holds_encodings(session, all, queue, numbers),
    ensures
        are_notices(
            session,
            all,
            notifications(session.topic, queue),
            encodables(session, all, numbers),
        ),
    decreases queue.len(),
{
    if queue.len() > 0 {
        let last = queue.len() - 1;
        let rest = numbers.drop_last();
        assert forall|i: int| 0 <= i < last implies #[trigger] queue.drop_last()[i] == encoding(
            session,
            all,
            rest[i],
        ) by {
            assert(queue[i] == encoding(session, all, numbers[i]));
        }
        lemma_encodables(session, all, queue.drop_last(), rest);
        let before = encodables(session, all, rest);
        let now = encodables(session, all, numbers);
        assert(queue[last] == encoding(session, all, numbers[last]));
        let statements = notifications(session.topic, queue);
        let earlier = notifications(session.topic, queue.drop_last());
        assert forall|i: int| 0 <= i < statements.len() implies is_notice(
            session,
            all,
            #[trigger] statements[i],
            now[i],
        ) by {
            if i < earlier.len() {
                assert(statements[i] == earlier[i]);
                assert(now[i] == before[i]);
            }
        }
    }
}

proof fn lemma_encodables_order(session: SessionView, all: Seq<MessageView>, numbers: Seq<nat>)
    requires
        increasing(numbers),
    ensures
        increasing(encodables(session, all, numbers)),
        forall|i: int|
            0 <= i < encodables(session, all, numbers).len() ==> numbers.contains(
                #[trigger] encodables(session, all, numbers)[i],
            ),
    decreases numbers.len(),
{
    if numbers.len() > 0 {
        let last = numbers.len() - 1;
        let rest = numbers.drop_last();
        assert forall|i: int, j: int| 0 <= i < j < rest.len() implies #[trigger] rest[i]
            < #[trigger] rest[j] by {
            assert(numbers[i] < numbers[j]);
        }
        lemma_encodables_order(session, all, rest);
        let before = encodables(session, all, rest);
        let now = encodables(session, all, numbers);
        assert(numbers.contains(numbers[last]));
        assert forall|i: int| 0 <= i < before.len() implies numbers.contains(#[trigger] before[i])
            && before[i] < numbers[last] by {
            assert(rest.contains(before[i]));
            let k = choose|k: int| 0 <= k < rest.len() && rest[k] == before[i];
            assert(numbers[k] < numbers[last]);
        }
        assert forall|i: int| 0 <= i < now.len() implies numbers.contains(#[trigger] now[i]) by {
            if i < before.len() {
                assert(now[i] == before[i]);
            }
        }
        assert forall|i: int, j: int| 0 <= i < j < now.len() implies #[trigger] now[i]
            < #[trigger] now[j] by {
            assert(now[i] == before[i]);
            if j < before.len() {
                assert(now[j] == before[j]);
            }
        }
    }
}

proof fn lemma_encoding_kept(
    session: SessionView,
    earlier: Seq<MessageView>,
    all: Seq<MessageView>,
)
    requires
        earlier.is_prefix_of(all),
    ensures
        forall|n: nat|
            n < earlier.len() ==> #[trigger] encoding(session, all, n) == encoding(
                session,
                earlier,
                n,
            ),
{
    reveal(encoding);
    assert forall|n: nat| n < earlier.len() implies #[trigger] encoding(session, all, n)
        == encoding(session, earlier, n) by {
        assert(all[n as int] == earlier[n as int]);
    }
}

/// No two notifications of a session are equal, so that the server folds none of
/// them into one.
pub proof fn lemma_notices_differ(session: SessionView, steps: Seq<Step>, i: int, j: int)
    requires
        is_fresh(session),
        messages(steps).len() <= u64::MAX,
        0 <= i < j < notices(session, steps).len(),
    ensures
        notices(session, steps)[i] != notices(session, steps)[j],
{
    lemma_notified_in_order(session, steps);
    let all = messages(steps);
    let numbers = notified(session, steps);
    let a = notices(session, steps)[i];
    let b = notices(session, steps)[j];
    assert((numbers + waiting(steps))[i] == numbers[i]);
    assert((numbers + waiting(steps))[j] == numbers[j]);
    assert(is_notice(session, all, a, numbers[i]));
    assert(is_notice(session, all, b, numbers[j]));
    lemma_encoding_text(session, all, numbers[i]);
    lemma_encoding_text(session, all, numbers[j]);
    lemma_payloads_differ(
        session.topic,
        session.message_type->Some_0,
        numbers[i],
        numbers[j],
        all[numbers[i] as int],
        all[numbers[j] as int],
    );
    assert(a.arguments[1] != b.arguments[1]);
}

proof fn lemma_encoding_text(session: SessionView, all: Seq<MessageView>, number: nat)
    ensures
        encoding(session, all, number) matches Ok(payload) ==> payload == payload_text(
            session.topic,
            session.message_type->Some_0,
            number,
            all[number as int],
        ),
{
    reveal(encoding);
}

/// A batch that is committed holds no more notifications than wait.
pub proof fn lemma_batch_bounded(topic: Seq<char>, queue: Seq<Result<Seq<char>, Seq<char>>>)
    ensures
        notifications(topic, queue).len() <= queue.len(),
    decreases queue.len(),
{
    if queue.len() > 0 {
        lemma_batch_bounded(topic, queue.drop_last());
    }
}

/// Every message that came was notified, waits, or was dropped and counted: in
/// the counts of the session, or in a report before.
pub proof fn lemma_messages_accounted(session: SessionView, steps: Seq<Step>)
    requires
        is_fresh(session),
        messages(steps).len() <= u64::MAX,
    ensures
        told_drops(session, steps) >= 0,
        messages(steps).len() == notices(session, steps).len() + after(session, steps).queue.len()
            + after(session, steps).dropped + after(session, steps).encoding_errors + told_drops(
            session,
            steps,
        ),
    decreases steps.len(),
{
    if steps.len() > 0 {
        let init = steps.drop_last();
        lemma_messages_accounted(session, init);
        let before = after(session, init);
        if let Step::Deliver = steps.last() {
            lemma_counted(
                session.topic,
                before.encoding_errors,
                before.last_encoding_error,
                before.queue,
            );
        }
    }
}

proof fn lemma_counted(
    topic: Seq<char>,
    count: u64,
    last: Option<Seq<char>>,
    queue: Seq<Result<Seq<char>, Seq<char>>>,
)
    requires
        count + queue.len() <= u64::MAX,
    ensures
        counted(count, last, queue).0 + notifications(topic, queue).len() == count + queue.len(),
    decreases queue.len(),
{
    if queue.len() > 0 {
        lemma_counted(topic, count, last, queue.drop_last());
    }
}

/// Whether the reports of a run come at moments of the clock.
pub open spec fn timely(steps: Seq<Step>) -> bool {
    forall|i: int| 0 <= i < steps.len() ==> (#[trigger] steps[i] matches Step::Report(now) ==> now
        <= LATEST)
}

/// Two warnings of a session are at least a second apart, whatever comes
/// between.
pub proof fn lemma_warnings_apart(
    session: SessionView,
    steps: Seq<Step>,
    i: int,
    j: int,
    first: u64,
    second: u64,
)
    requires
        timely(steps),
        0 <= i < j < steps.len(),
        steps[i] == Step::Report(first),
        steps[j] == Step::Report(second),
        report_text(after(session, steps.take(i)), first) is Some,
        report_text(after(session, steps.take(j)), second) is Some,
    ensures
        second >= first + REPORT,
{
    lemma_next_report(session, steps, i, j, first);
}

proof fn lemma_next_report(session: SessionView, steps: Seq<Step>, i: int, j: int, first: u64)
    requires
        timely(steps),
        0 <= i < j <= steps.len(),
        steps[i] == Step::Report(first),
        first >= after(session, steps.take(i)).next_report,
    ensures
        after(session, steps.take(j)).next_report >= first + REPORT,
    decreases j,
{
    let next = steps.take(j);
    assert(next.drop_last() =~= steps.take(j - 1));
    assert(next.last() == steps[j - 1]);
    if i < j - 1 {
        lemma_next_report(session, steps, i, j - 1, first);
    }
}

} // verus!
