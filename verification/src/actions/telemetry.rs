//! What a poll tells of a goal after any number of deliveries.
use vstd::prelude::*;

use super::transport::{
    canceled_events, finished_events, last_status, left, opened, polled, reply_of, sequence_tree,
    with_feedback, with_status, CancelReply, EventView, Replies, ResultReply, TransportView,
    FEEDBACK_LIMIT,
};
use crate::json::JsonView;

verus! {

/// Something that happens to a goal whose clients are open.
pub enum Step {
    /// A feedback message is delivered, for the goal with the identifier.
    Feedback(Seq<u8>, Seq<i32>),
    /// A list of statuses is delivered.
    Status(Seq<(Vec<u8>, i8)>),
    /// The goal is sent.
    Sent,
    /// The result is asked for.
    RequestResult,
    /// The goal is asked to be canceled.
    Cancel,
    /// A look is taken at what has come back.
    Poll(Replies),
}

/// What becomes of a goal in a step.
pub open spec fn next(transport: TransportView, step: Step) -> TransportView {
    match step {
        Step::Feedback(uuid, sequence) => with_feedback(transport, uuid, sequence),
        Step::Status(list) => with_status(transport, list),
        Step::Sent => TransportView { send_pending: true, ..transport },
        Step::RequestResult => TransportView { result_pending: true, ..transport },
        Step::Cancel => TransportView { cancel_pending: true, ..transport },
        Step::Poll(replies) => left(transport, replies),
    }
}

/// What becomes of a goal in the steps since its clients were opened.
pub open spec fn after(uuid: Seq<u8>, steps: Seq<Step>) -> TransportView
    decreases steps.len(),
{
    if steps.len() == 0 {
        opened(uuid)
    } else {
        next(after(uuid, steps.drop_last()), steps.last())
    }
}

/// Whether the last step is a poll that takes the telemetry: all do, but those
/// that end with an error in the answer to the goal.
pub open spec fn takes(uuid: Seq<u8>, steps: Seq<Step>) -> bool {
    &&& steps.last() is Poll
    &&& reply_of(
        after(uuid, steps.drop_last()).send_pending,
        steps.last()->Poll_0.send,
    ) is Ok
}

/// The latest feedback for the goal that is not too long to be kept, since the
/// last poll that took the telemetry.
pub open spec fn latest_feedback(uuid: Seq<u8>, steps: Seq<Step>) -> Option<Seq<i32>>
    decreases steps.len(),
{
    if steps.len() == 0 || takes(uuid, steps) {
        None
    } else {
        match steps.last() {
            Step::Feedback(other, sequence) => if other == uuid && sequence.len() <= FEEDBACK_LIMIT {
                Some(sequence)
            } else {
                latest_feedback(uuid, steps.drop_last())
            },
            _ => latest_feedback(uuid, steps.drop_last()),
        }
    }
}

/// The latest status of the goal, since the last poll that took the telemetry.
pub open spec fn latest_status(uuid: Seq<u8>, steps: Seq<Step>) -> Option<i8>
    decreases steps.len(),
{
    if steps.len() == 0 || takes(uuid, steps) {
        None
    } else {
        match steps.last() {
            Step::Status(list) => match last_status(list, uuid) {
                Some(code) => Some(code),
                None => latest_status(uuid, steps.drop_last()),
            },
            _ => latest_status(uuid, steps.drop_last()),
        }
    }
}

/// Whether no answer is an error.
pub open spec fn succeed(replies: Replies) -> bool {
    replies.send is Ok && replies.cancel is Ok && replies.result is Ok
}

/// Whether no answer has come.
pub open spec fn nothing_new(replies: Replies) -> bool {
    &&& replies.send == Ok::<Option<bool>, String>(None)
    &&& replies.cancel matches Ok(None)
    &&& replies.result matches Ok(None)
}

/// No event, or one.
pub open spec fn at_most(event: Option<EventView>) -> Seq<EventView> {
    match event {
        Some(event) => seq![event],
        None => Seq::empty(),
    }
}

/// The event of an answer to the goal.
pub open spec fn acceptance(transport: TransportView, replies: Replies) -> Option<EventView> {
    match reply_of(transport.send_pending, replies.send) {
        Ok(Some(accepted)) => Some(EventView::Accepted(accepted)),
        _ => None,
    }
}

/// The event of a status.
pub open spec fn status_event(status: Option<i8>) -> Option<EventView> {
    match status {
        Some(code) => Some(EventView::Status(code)),
        None => None,
    }
}

/// The event of a feedback sequence.
pub open spec fn feedback_event(sequence: Option<Seq<i32>>) -> Option<EventView> {
    match sequence {
        Some(sequence) => Some(EventView::Feedback(sequence_tree(sequence))),
        None => None,
    }
}

/// A feedback sequence as JSON.
pub open spec fn feedback_tree(sequence: Option<Seq<i32>>) -> Option<JsonView> {
    match sequence {
        Some(sequence) => Some(sequence_tree(sequence)),
        None => None,
    }
}

proof fn lemma_held(uuid: Seq<u8>, steps: Seq<Step>)
    ensures
        after(uuid, steps).uuid == uuid,
        after(uuid, steps).status == latest_status(uuid, steps),
        after(uuid, steps).feedback == feedback_tree(latest_feedback(uuid, steps)),
    decreases steps.len(),
{
    if steps.len() > 0 {
        lemma_held(uuid, steps.drop_last());
    }
}

/// Whatever was delivered, a poll in which no answer is an error tells at most one
/// event of each kind, in order: the answer to the goal, the latest status of this
/// goal, the latest feedback for it that is not too long, the answer to a request
/// to cancel, and the result.
pub proof fn lemma_latest_told(uuid: Seq<u8>, steps: Seq<Step>, replies: Replies)
    requires
        succeed(replies),
    ensures
        ({
            let transport = after(uuid, steps);
            &&& polled(transport, replies) == Ok::<Seq<EventView>, Seq<char>>(
                at_most(acceptance(transport, replies)) + at_most(
                    status_event(latest_status(uuid, steps)),
                ) + at_most(feedback_event(latest_feedback(uuid, steps))) + canceled_events(
                    transport,
                    replies,
                ) + finished_events(transport, replies),
            )
            &&& canceled_events(transport, replies).len() <= 1
            &&& finished_events(transport, replies).len() <= 1
        }),
{
    lemma_held(uuid, steps);
}

/// A poll with nothing new after a poll tells nothing.
pub proof fn lemma_told_once(uuid: Seq<u8>, steps: Seq<Step>, replies: Replies, again: Replies)
    requires
        succeed(replies),
        nothing_new(again),
    ensures
        polled(after(uuid, steps.push(Step::Poll(replies))), again) == Ok::<
            Seq<EventView>,
            Seq<char>,
        >(Seq::empty()),
{
    let polls = steps.push(Step::Poll(replies));
    assert(polls.drop_last() =~= steps);
    lemma_held(uuid, polls);
    let transport = after(uuid, polls);
    assert(polled(transport, again)->Ok_0 =~= Seq::empty());
}

/// Whether a step is a delivery for other goals alone.
pub open spec fn is_foreign(uuid: Seq<u8>, step: Step) -> bool {
    match step {
        Step::Feedback(other, _) => other != uuid,
        Step::Status(list) => last_status(list, uuid) is None,
        _ => false,
    }
}

/// What is delivered for other goals changes nothing.
pub proof fn lemma_others_never_show(uuid: Seq<u8>, steps: Seq<Step>, step: Step)
    requires
        is_foreign(uuid, step),
    ensures
        after(uuid, steps.push(step)) == after(uuid, steps),
{
    assert(steps.push(step).drop_last() =~= steps);
    lemma_held(uuid, steps);
}

/// A feedback message is kept exactly where it is for this goal and has at most
/// 16384 numbers; it is the one that is told next, and it changes nothing else.
pub proof fn lemma_feedback_kept(transport: TransportView, uuid: Seq<u8>, sequence: Seq<i32>)
    ensures
        ({
            let after = with_feedback(transport, uuid, sequence);
            &&& uuid == transport.uuid && sequence.len() <= 16384 ==> after.feedback == Some(
                sequence_tree(sequence),
            )
            &&& uuid != transport.uuid || sequence.len() > 16384 ==> after.feedback
                == transport.feedback
            &&& after.status == transport.status
            &&& after.uuid == transport.uuid
            &&& after.send_pending == transport.send_pending
            &&& after.cancel_pending == transport.cancel_pending
            &&& after.result_pending == transport.result_pending
        }),
{
}

/// A list of statuses counts by its last entry for this goal.
pub proof fn lemma_status_kept(
    transport: TransportView,
    list: Seq<(Vec<u8>, i8)>,
    i: int,
)
    requires
        0 <= i < list.len(),
        list[i].0@ == transport.uuid,
        forall|k: int| i < k < list.len() ==> (#[trigger] list[k]).0@ != transport.uuid,
    ensures
        with_status(transport, list).status == Some(list[i].1),
        with_status(transport, list).feedback == transport.feedback,
    decreases list.len(),
{
    if i < list.len() - 1 {
        let init = list.drop_last();
        assert(list[list.len() - 1].0@ != transport.uuid);
        assert(init[i] == list[i]);
        assert forall|k: int| i < k < init.len() implies (#[trigger] init[k]).0@
            != transport.uuid by {
            assert(list[k].0@ != transport.uuid);
        }
        lemma_status_kept(transport, init, i);
    }
}

/// A feedback or result sequence is told as an object with one member, the array of
/// its numbers in order.
pub proof fn lemma_sequences_told(sequence: Seq<i32>)
    ensures
        sequence_tree(sequence) is Object,
        sequence_tree(sequence)->Object_0.len() == 1,
        sequence_tree(sequence)->Object_0[0].key == "sequence"@,
        sequence_tree(sequence)->Object_0[0].value is Array,
        sequence_tree(sequence)->Object_0[0].value->Array_0.len() == sequence.len(),
        forall|i: int|
            0 <= i < sequence.len() ==> #[trigger] sequence_tree(
                sequence,
            )->Object_0[0].value->Array_0[i] == JsonView::Integer(sequence[i] as int),
{
}

/// An answer that has come is told exactly where it was waited for. The answer to a
/// request to cancel tells its code, and whether it names this goal; that to a
/// request for the result, its status and its sequence.
pub proof fn lemma_answers_told(
    transport: TransportView,
    accepted: bool,
    cancel: CancelReply,
    result: ResultReply,
)
    ensures
        ({
            let replies = Replies {
                send: Ok(Some(accepted)),
                cancel: Ok(Some(cancel)),
                result: Ok(Some(result)),
            };
            let quiet = TransportView { status: None, feedback: None, ..transport };
            let named = exists|i: int|
                0 <= i < cancel.canceling@.len() && (#[trigger] cancel.canceling@[i])@
                    == transport.uuid;
            polled(quiet, replies) == Ok::<Seq<EventView>, Seq<char>>(
                at_most(
                    if transport.send_pending {
                        Some(EventView::Accepted(accepted))
                    } else {
                        None
                    },
                ) + at_most(
                    if transport.cancel_pending {
                        Some(EventView::Cancel(cancel.return_code, named))
                    } else {
                        None
                    },
                ) + at_most(
                    if transport.result_pending {
                        Some(EventView::Result(result.status, sequence_tree(result.sequence@)))
                    } else {
                        None
                    },
                ),
            )
        }),
{
    let replies = Replies {
        send: Ok(Some(accepted)),
        cancel: Ok(Some(cancel)),
        result: Ok(Some(result)),
    };
    let quiet = TransportView { status: None, feedback: None, ..transport };
    let named = exists|i: int|
        0 <= i < cancel.canceling@.len() && (#[trigger] cancel.canceling@[i])@ == transport.uuid;
    let first = at_most(
        if transport.send_pending {
            Some(EventView::Accepted(accepted))
        } else {
            None
        },
    );
    assert(super::transport::told_events(quiet, replies) =~= first);
    assert(super::transport::names(cancel.canceling@, transport.uuid) == named);
}

/// A poll without an error waits no longer for what was answered, and still for
/// what was not. It takes the telemetry.
pub proof fn lemma_poll_leaves(transport: TransportView, replies: Replies)
    requires
        succeed(replies),
    ensures
        ({
            let after = left(transport, replies);
            &&& after.uuid == transport.uuid
            &&& after.status is None
            &&& after.feedback is None
            &&& after.send_pending <==> transport.send_pending && replies.send->Ok_0 is None
            &&& after.cancel_pending <==> transport.cancel_pending && replies.cancel->Ok_0 is None
            &&& after.result_pending <==> transport.result_pending && replies.result->Ok_0 is None
        }),
{
}

/// An error in an answer that is waited for is the outcome of the poll: that to the
/// goal before that to a request to cancel, and this before that to a request for
/// the result. An answer that is not waited for makes no difference.
pub proof fn lemma_errors_told(transport: TransportView, replies: Replies)
    ensures
        ({
            let outcome = polled(transport, replies);
            let sent = transport.send_pending && replies.send is Err;
            let canceled = transport.cancel_pending && replies.cancel is Err;
            let finished = transport.result_pending && replies.result is Err;
            &&& outcome is Err <==> sent || canceled || finished
            &&& sent ==> outcome->Err_0 == replies.send->Err_0@
            &&& !sent && canceled ==> outcome->Err_0 == replies.cancel->Err_0@
            &&& !sent && !canceled && finished ==> outcome->Err_0 == replies.result->Err_0@
        }),
{
}

} // verus!
