//! What becomes of every message of a subscription.
use vstd::prelude::*;

use super::json::payload_text;
use super::run::{
    after, encodables, encoding, increasing, is_fresh, is_notice, lemma_batch_bounded,
    lemma_messages_accounted, lemma_notified_in_order, lemma_warnings_apart, messages,
    notices, notified, timely, told_drops, waiting, Step,
};
use super::{
    encoded, notifications, notify_statement, report_text, SessionView, QUEUE, REPORT,
};
use crate::message::MessageView;

verus! {

/// What has become of a message.
pub enum Fate {
    /// It waits to be delivered.
    Waiting,
    /// It was notified.
    Notified,
    /// It met a full queue, and was dropped.
    Crowded,
    /// It could not be encoded, and was dropped.
    Refused,
}

/// What has become of the message with a number.
pub open spec fn fate(session: SessionView, steps: Seq<Step>, number: nat) -> Option<Fate>
    decreases steps.len(),
{
    if steps.len() == 0 {
        None
    } else {
        let init = steps.drop_last();
        match steps.last() {
            Step::Message(_) => if number == messages(init).len() {
                if waiting(init).len() < QUEUE {
                    Some(Fate::Waiting)
                } else {
                    Some(Fate::Crowded)
                }
            } else {
                fate(session, init, number)
            },
            Step::Deliver => if fate(session, init, number) == Some(Fate::Waiting) {
                if encoding(session, messages(init), number) is Ok {
                    Some(Fate::Notified)
                } else {
                    Some(Fate::Refused)
                }
            } else {
                fate(session, init, number)
            },
            Step::Report(_) => fate(session, init, number),
        }
    }
}

/// The numbers of the messages that met a full queue.
pub open spec fn crowded(steps: Seq<Step>) -> Seq<nat>
    decreases steps.len(),
{
    if steps.len() == 0 {
        Seq::empty()
    } else {
        let before = crowded(steps.drop_last());
        match steps.last() {
            Step::Message(_) => if waiting(steps.drop_last()).len() < QUEUE {
                before
            } else {
                before.push(messages(steps.drop_last()).len())
            },
            _ => before,
        }
    }
}

/// The numbers of those messages among `numbers` that cannot be encoded.
pub open spec fn unencodables(
    session: SessionView,
    all: Seq<MessageView>,
    numbers: Seq<nat>,
) -> Seq<nat>
    decreases numbers.len(),
{
    if numbers.len() == 0 {
        Seq::empty()
    } else {
        let before = unencodables(session, all, numbers.drop_last());
        if encoding(session, all, numbers.last()) is Ok {
            before
        } else {
            before.push(numbers.last())
        }
    }
}

/// The numbers of the messages that could not be encoded.
pub open spec fn refused(session: SessionView, steps: Seq<Step>) -> Seq<nat>
    decreases steps.len(),
{
    if steps.len() == 0 {
        Seq::empty()
    } else {
        let init = steps.drop_last();
        let before = refused(session, init);
        match steps.last() {
            Step::Deliver => before + unencodables(session, messages(init), waiting(init)),
            _ => before,
        }
    }
}

/// The messages that the reports of a run have told to have met a full queue.
pub open spec fn told_crowded(session: SessionView, steps: Seq<Step>) -> int
    decreases steps.len(),
{
    if steps.len() == 0 {
        0
    } else {
        let before = after(session, steps.drop_last());
        told_crowded(session, steps.drop_last()) + (match steps.last() {
            Step::Report(now) => if now >= before.next_report {
                before.dropped as int
            } else {
                0
            },
            _ => 0,
        })
    }
}

/// The messages that the reports of a run have told not to be encoded.
pub open spec fn told_refused(session: SessionView, steps: Seq<Step>) -> int {
    told_drops(session, steps) - told_crowded(session, steps)
}

proof fn lemma_split(session: SessionView, all: Seq<MessageView>, numbers: Seq<nat>)
    ensures
        encodables(session, all, numbers).len() + unencodables(session, all, numbers).len()
            == numbers.len(),
        forall|n: nat| #[trigger]
            encodables(session, all, numbers).contains(n) <==> numbers.contains(n) && encoding(
                session,
                all,
                n,
            ) is Ok,
        forall|n: nat| #[trigger]
            unencodables(session, all, numbers).contains(n) <==> numbers.contains(n) && !(encoding(
                session,
                all,
                n,
            ) is Ok),
    decreases numbers.len(),
{
    if numbers.len() > 0 {
        let rest = numbers.drop_last();
        let last = numbers.last();
        lemma_split(session, all, rest);
        assert(numbers =~= rest.push(last));
        lemma_push(rest, last);
        lemma_push(encodables(session, all, rest), last);
        lemma_push(unencodables(session, all, rest), last);
    }
}

proof fn lemma_push(numbers: Seq<nat>, last: nat)
    ensures
        forall|n: nat| #[trigger]
            numbers.push(last).contains(n) <==> numbers.contains(n) || n == last,
{
    let pushed = numbers.push(last);
    assert forall|n: nat| #[trigger] pushed.contains(n) <==> numbers.contains(n) || n == last by {
        if pushed.contains(n) {
            let i = choose|i: int| 0 <= i < pushed.len() && pushed[i] == n;
            if i < numbers.len() {
                assert(numbers[i] == n);
            }
        }
        if numbers.contains(n) {
            let i = choose|i: int| 0 <= i < numbers.len() && numbers[i] == n;
            assert(pushed[i] == n);
        }
        assert(pushed[numbers.len() as int] == last);
    }
}

proof fn lemma_both(a: Seq<nat>, b: Seq<nat>)
    ensures
        forall|n: nat| #[trigger] (a + b).contains(n) <==> a.contains(n) || b.contains(n),
{
    assert forall|n: nat| #[trigger] (a + b).contains(n) <==> a.contains(n) || b.contains(n) by {
        if (a + b).contains(n) {
            let i = choose|i: int| 0 <= i < (a + b).len() && (a + b)[i] == n;
            if i < a.len() {
                assert(a[i] == n);
            } else {
                assert(b[i - a.len()] == n);
            }
        }
        if a.contains(n) {
            let i = choose|i: int| 0 <= i < a.len() && a[i] == n;
            assert((a + b)[i] == n);
        }
        if b.contains(n) {
            let i = choose|i: int| 0 <= i < b.len() && b[i] == n;
            assert((a + b)[a.len() + i] == n);
        }
    }
}

/// Whether the four lists of numbers are those of the messages with each fate.
pub open spec fn has_fate(session: SessionView, steps: Seq<Step>, number: nat) -> bool {
    &&& notified(session, steps).contains(number) == (fate(session, steps, number) == Some(
        Fate::Notified,
    ))
    &&& waiting(steps).contains(number) == (fate(session, steps, number) == Some(Fate::Waiting))
    &&& crowded(steps).contains(number) == (fate(session, steps, number) == Some(Fate::Crowded))
    &&& refused(session, steps).contains(number) == (fate(session, steps, number) == Some(
        Fate::Refused,
    ))
    &&& number < messages(steps).len() <==> fate(session, steps, number) is Some
}

/// Every message that came has one fate: it waits, was notified, met a full queue,
/// or could not be encoded.
pub proof fn lemma_fates(session: SessionView, steps: Seq<Step>)
    requires
        is_fresh(session),
        messages(steps).len() <= u64::MAX,
    ensures
        forall|number: nat| #[trigger] has_fate(session, steps, number),
    decreases steps.len(),
{
    if steps.len() > 0 {
        let init = steps.drop_last();
        let came = messages(init).len();
        lemma_fates(session, init);
        match steps.last() {
            Step::Message(_) => {
                lemma_push(waiting(init), came);
                lemma_push(crowded(init), came);
            },
            Step::Deliver => {
                let all = messages(init);
                lemma_split(session, all, waiting(init));
                lemma_both(notified(session, init), encodables(session, all, waiting(init)));
                lemma_both(refused(session, init), unencodables(session, all, waiting(init)));
            },
            Step::Report(_) => {},
        }
        assert forall|number: nat| #[trigger] has_fate(session, steps, number) by {
            assert(has_fate(session, init, number));
        }
    }
}

/// Every message that was dropped is counted: in the counts of the session, or in
/// a report before, apart by the reason.
pub proof fn lemma_drops_counted(session: SessionView, steps: Seq<Step>)
    requires
        is_fresh(session),
        messages(steps).len() <= u64::MAX,
    ensures
        told_crowded(session, steps) >= 0,
        crowded(steps).len() == after(session, steps).dropped + told_crowded(session, steps),
        refused(session, steps).len() == after(session, steps).encoding_errors + told_refused(
            session,
            steps,
        ),
        messages(steps).len() == notified(session, steps).len() + waiting(steps).len() + crowded(
            steps,
        ).len() + refused(session, steps).len(),
    decreases steps.len(),
{
    lemma_messages_accounted(session, steps);
    lemma_notified_in_order(session, steps);
    if steps.len() > 0 {
        let init = steps.drop_last();
        lemma_drops_counted(session, init);
        lemma_notified_in_order(session, init);
        if let Step::Deliver = steps.last() {
            lemma_split(session, messages(init), waiting(init));
        }
    }
}

/// What holds of the notifications of a run.
pub open spec fn are_delivered(session: SessionView, steps: Seq<Step>) -> bool {
    let all = messages(steps);
    let numbers = notified(session, steps);
    let statements = notices(session, steps);
    &&& statements.len() == numbers.len()
    &&& increasing(numbers)
    &&& forall|i: int|
        0 <= i < numbers.len() ==> {
            &&& #[trigger] numbers[i] < all.len()
            &&& statements[i] == notify_statement(
                session.topic,
                payload_text(
                    session.topic,
                    session.message_type->Some_0,
                    numbers[i],
                    all[numbers[i] as int],
                ),
            )
            &&& encoded(
                session.topic,
                session.message_type->Some_0,
                numbers[i],
                all[numbers[i] as int],
            ) is Ok
        }
}

/// Whether a report gives a warning.
pub open spec fn warns(session: SessionView, steps: Seq<Step>, i: int) -> bool {
    &&& steps[i] is Report
    &&& report_text(after(session, steps.take(i)), steps[i]->Report_0) is Some
}

/// The whole of a subscription. Message number `i` is encoded with number `i`.
/// Each notification is on the channel of the topic and has the payload of a
/// message that can be encoded; their numbers increase, so that a message is
/// notified at most once; and a delivery has no more of them than the queue holds.
/// Every message has one fate, and is notified unless it waits, met a full queue
/// or cannot be encoded. What was dropped is counted, and warnings are a second
/// apart. Numbers are 64 bits wide, and begin anew after that many messages.
pub proof fn lemma_subscription(session: SessionView, steps: Seq<Step>)
    requires
        is_fresh(session),
        messages(steps).len() <= u64::MAX,
        timely(steps),
    ensures
        are_delivered(session, steps),
        forall|i: int|
            0 <= i < steps.len() && #[trigger] steps[i] is Deliver ==> notifications(
                session.topic,
                after(session, steps.take(i)).queue,
            ).len() <= QUEUE,
        forall|number: nat| #[trigger] has_fate(session, steps, number),
        crowded(steps).len() == after(session, steps).dropped + told_crowded(session, steps),
        refused(session, steps).len() == after(session, steps).encoding_errors + told_refused(
            session,
            steps,
        ),
        forall|i: int, j: int|
            0 <= i < j < steps.len() && #[trigger] warns(session, steps, i) && #[trigger] warns(
                session,
                steps,
                j,
            ) ==> steps[j]->Report_0 >= steps[i]->Report_0 + REPORT,
{
    lemma_notified_in_order(session, steps);
    lemma_fates(session, steps);
    lemma_drops_counted(session, steps);
    lemma_are_delivered(session, steps);
    assert forall|i: int|
        0 <= i < steps.len() && #[trigger] steps[i] is Deliver implies notifications(
        session.topic,
        after(session, steps.take(i)).queue,
    ).len() <= QUEUE by {
        let before = steps.take(i);
        lemma_fewer_messages(steps, i);
        lemma_notified_in_order(session, before);
        lemma_batch_bounded(session.topic, after(session, before).queue);
    }
    assert forall|i: int, j: int|
        0 <= i < j < steps.len() && #[trigger] warns(session, steps, i) && #[trigger] warns(
            session,
            steps,
            j,
        ) implies steps[j]->Report_0 >= steps[i]->Report_0 + REPORT by {
        lemma_warnings_apart(session, steps, i, j, steps[i]->Report_0, steps[j]->Report_0);
    }
}

proof fn lemma_are_delivered(session: SessionView, steps: Seq<Step>)
    requires
        is_fresh(session),
        messages(steps).len() <= u64::MAX,
    ensures
        are_delivered(session, steps),
{
    lemma_notified_in_order(session, steps);
    let all = messages(steps);
    let numbers = notified(session, steps);
    let both = numbers + waiting(steps);
    let statements = notices(session, steps);
    assert forall|i: int, j: int| 0 <= i < j < numbers.len() implies #[trigger] numbers[i]
        < #[trigger] numbers[j] by {
        assert(both[i] == numbers[i] && both[j] == numbers[j]);
    }
    assert forall|i: int| 0 <= i < numbers.len() implies {
        &&& #[trigger] numbers[i] < all.len()
        &&& statements[i] == notify_statement(
            session.topic,
            payload_text(
                session.topic,
                session.message_type->Some_0,
                numbers[i],
                all[numbers[i] as int],
            ),
        )
        &&& encoded(
            session.topic,
            session.message_type->Some_0,
            numbers[i],
            all[numbers[i] as int],
        ) is Ok
    } by {
        assert(both[i] == numbers[i]);
        assert(is_notice(session, all, statements[i], numbers[i]));
        reveal(encoding);
    }
}

proof fn lemma_fewer_messages(steps: Seq<Step>, i: int)
    requires
        0 <= i <= steps.len(),
    ensures
        messages(steps.take(i)).len() <= messages(steps).len(),
    decreases steps.len(),
{
    if i < steps.len() {
        lemma_fewer_messages(steps.drop_last(), i);
        assert(steps.drop_last().take(i) =~= steps.take(i));
    } else {
        assert(steps.take(i) =~= steps);
    }
}

} // verus!
