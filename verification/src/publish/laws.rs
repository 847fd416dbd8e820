//! What holds of every publication, however its turns go.
use vstd::prelude::*;

use super::json::decoded_message;
use super::{advanced, awaited, holds_message, ActionView, Phase, PublicationView, Reply};
use crate::message::MessageView;
use crate::time::LATEST;

verus! {

/// A reply, and when it came.
pub struct Step {
    pub reply: Reply,
    pub now: u64,
}

/// The publication and the action after the steps of a run.
pub open spec fn after(publication: PublicationView, steps: Seq<Step>) -> (
    PublicationView,
    ActionView,
)
    decreases steps.len(),
{
    if steps.len() == 0 {
        (publication, ActionView::Open)
    } else {
        advanced(after(publication, steps.drop_last()).0, steps.last().reply, steps.last().now)
    }
}

/// Whether every reply of a run is one that was waited for.
pub open spec fn is_run(publication: PublicationView, steps: Seq<Step>) -> bool
    decreases steps.len(),
{
    if steps.len() == 0 {
        publication.phase == Phase::Opening && publication.message is None
    } else {
        &&& is_run(publication, steps.drop_last())
        &&& awaited(after(publication, steps.drop_last()).0.phase, steps.last().reply)
        &&& steps.last().now <= LATEST
    }
}

/// Whether a step of a run handed over a message of the resolved type, into
/// which the JSON value was read to give `message`.
pub open spec fn read_from(
    publication: PublicationView,
    steps: Seq<Step>,
    message: MessageView,
) -> bool {
    exists|k: int|
        0 <= k < steps.len() && made(publication, #[trigger] steps[k], message)
}

/// Whether a step handed over a message into which the JSON value was read to
/// give `message`.
pub open spec fn made(publication: PublicationView, step: Step, message: MessageView) -> bool {
    step.reply matches Reply::Made(Ok(blank)) && decoded_message(blank@, publication.value, None)
        == Ok::<MessageView, Seq<char>>(message)
}

/// What is sent is a message of the type that was made for it, with the JSON
/// value read into it without an error. A value that does not fit publishes
/// nothing.
pub proof fn lemma_sent_as_decoded(publication: PublicationView, steps: Seq<Step>)
    requires
        is_run(publication, steps),
        after(publication, steps).1 is Send,
    ensures
        read_from(publication, steps, after(publication, steps).1->Send_0),
{
    let init = steps.drop_last();
    lemma_held_message(publication, init);
    let message = after(publication, init).0.message->Some_0;
    lemma_read_from(publication, steps, message);
}

proof fn lemma_read_from(publication: PublicationView, steps: Seq<Step>, message: MessageView)
    requires
        steps.len() > 0,
        read_from(publication, steps.drop_last(), message),
    ensures
        read_from(publication, steps, message),
{
    let k = choose|k: int|
        0 <= k < steps.drop_last().len() && made(
            publication,
            #[trigger] steps.drop_last()[k],
            message,
        );
    assert(steps[k] == steps.drop_last()[k]);
}

proof fn lemma_held_message(publication: PublicationView, steps: Seq<Step>)
    requires
        is_run(publication, steps),
    ensures
        ({
            let held = after(publication, steps).0;
            &&& held.value == publication.value
            &&& held.requested == publication.requested
            &&& held.topic == publication.topic
            &&& holds_message(held)
            &&& (held.phase == Phase::Creating || held.phase == Phase::Matching || held.phase
                == Phase::Unmatched) ==> read_from(publication, steps, held.message->Some_0)
        }),
    decreases steps.len(),
{
    if steps.len() > 0 {
        let init = steps.drop_last();
        lemma_held_message(publication, init);
        let before = after(publication, init).0;
        let held = after(publication, steps).0;
        if held.phase == Phase::Creating || held.phase == Phase::Matching || held.phase
            == Phase::Unmatched {
            if before.phase == Phase::Making {
                assert(made(publication, steps[steps.len() - 1], held.message->Some_0));
            } else {
                lemma_read_from(publication, steps, held.message->Some_0);
            }
        }
    }
}

/// Where the message type is given, the graph is never asked for it, and it is
/// the type that is published.
pub proof fn lemma_given_type(publication: PublicationView, steps: Seq<Step>)
    requires
        is_run(publication, steps),
        publication.requested is Some,
    ensures
        !(after(publication, steps).1 is ReadGraph),
        after(publication, steps).1 matches ActionView::Done(kind) ==> kind
            == publication.requested->Some_0,
        ({
            let phase = after(publication, steps).0.phase;
            phase != Phase::Discovering && phase != Phase::Undiscovered && (phase != Phase::Opening
                && phase != Phase::Over ==> after(publication, steps).0.kind
                == publication.requested->Some_0)
        }),
    decreases steps.len(),
{
    if steps.len() > 0 {
        lemma_given_type(publication, steps.drop_last());
        lemma_held_message(publication, steps.drop_last());
    }
}

/// Whether the graph advertised `kind` as the only type of the topic at some
/// step of a run.
pub open spec fn advertised(steps: Seq<Step>, kind: Seq<char>) -> bool {
    exists|k: int| 0 <= k < steps.len() && names_type(#[trigger] steps[k], kind)
}

/// Whether a step told that `kind` is the only type of the topic.
pub open spec fn names_type(step: Step, kind: Seq<char>) -> bool {
    step.reply matches Reply::Types(Ok(Some(types))) && types@.len() == 1 && types@[0]@ == kind
}

/// Where the message type is not given, the type that is published is the one
/// that the graph advertised alone for the topic.
pub proof fn lemma_inferred_type(publication: PublicationView, steps: Seq<Step>)
    requires
        is_run(publication, steps),
        publication.requested is None,
    ensures
        after(publication, steps).1 matches ActionView::Done(kind) ==> advertised(steps, kind),
        ({
            let held = after(publication, steps).0;
            held.phase != Phase::Opening && held.phase != Phase::Discovering && held.phase
                != Phase::Undiscovered && held.phase != Phase::Over ==> advertised(
                steps,
                held.kind,
            )
        }),
    decreases steps.len(),
{
    if steps.len() > 0 {
        let init = steps.drop_last();
        lemma_inferred_type(publication, init);
        lemma_held_message(publication, init);
        let before = after(publication, init).0;
        let kind = after(publication, steps).0.kind;
        if before.phase == Phase::Discovering {
            if after(publication, steps).0.phase == Phase::Making {
                assert(names_type(steps[steps.len() - 1], kind));
            }
        } else if advertised(init, kind) {
            let k = choose|k: int| 0 <= k < init.len() && names_type(#[trigger] init[k], kind);
            assert(steps[k] == init[k]);
        }
    }
}

/// Whether a reply is one to an action.
pub open spec fn answers(action: ActionView, reply: Reply) -> bool {
    match action {
        ActionView::Open => reply is Opened,
        ActionView::ReadGraph => reply is Types,
        ActionView::Make(_) => reply is Made,
        ActionView::Create(_) => reply is Created,
        ActionView::CountSubscriptions => reply is Matched,
        ActionView::Send(_) => reply is Sent,
        ActionView::Spin => reply is Spun,
        ActionView::Done(_) => false,
        ActionView::Fail(_) => false,
    }
}

/// A reply to the last action is one that the publication waits for, and no
/// other is.
pub proof fn lemma_answers_awaited(publication: PublicationView, steps: Seq<Step>, reply: Reply)
    requires
        is_run(publication, steps),
    ensures
        answers(after(publication, steps).1, reply) <==> awaited(
            after(publication, steps).0.phase,
            reply,
        ),
    decreases steps.len(),
{
    if steps.len() > 0 {
        lemma_answers_awaited(publication, steps.drop_last(), steps.last().reply);
    }
}

/// A topic without a subscriber still gets the message when the wait is over.
pub proof fn lemma_sent_without_subscriber(publication: PublicationView, count: usize, now: u64)
    requires
        publication.phase == Phase::Matching,
    ensures
        advanced(publication, Reply::Matched(Ok(count)), now).1 is Send <==> count > 0 || now
            >= publication.deadline,
{
}

/// A publication is at its end exactly where it tells so, and nothing is sent
/// after that.
pub proof fn lemma_over(publication: PublicationView, steps: Seq<Step>)
    requires
        is_run(publication, steps),
        steps.len() > 0,
    ensures
        after(publication, steps).0.phase == Phase::Over <==> after(publication, steps).1 is Done
            || after(publication, steps).1 is Fail,
{
}

/// A message is sent at most once.
pub proof fn lemma_sent_once(publication: PublicationView, steps: Seq<Step>, k: int)
    requires
        is_run(publication, steps),
        0 < k < steps.len(),
        after(publication, steps.take(k)).1 is Send,
    ensures
        !(after(publication, steps).1 is Send),
{
    lemma_beyond_sending(publication, steps, k);
}

/// Whether the action before step `k` of a run was to send the message, and
/// step `k` told that it was sent.
pub open spec fn sent_at(publication: PublicationView, steps: Seq<Step>, k: int) -> bool {
    &&& 0 < k < steps.len()
    &&& after(publication, steps.take(k)).1 is Send
    &&& steps[k].reply matches Reply::Sent(Ok(_))
}

/// A publication that is done has sent its message, and exactly once.
pub proof fn lemma_done_sent(publication: PublicationView, steps: Seq<Step>)
    requires
        is_run(publication, steps),
        after(publication, steps).1 is Done,
    ensures
        exists|k: int|
            sent_at(publication, steps, k) && forall|j: int|
                0 < j <= steps.len() && #[trigger] after(publication, steps.take(j)).1 is Send
                    ==> j == k,
{
    lemma_flushing_sent(publication, steps);
    let k = choose|k: int| sent_at(publication, steps, k);
    assert forall|j: int|
        0 < j <= steps.len() && #[trigger] after(publication, steps.take(j)).1 is Send implies j
        == k by {
        if j < k {
            lemma_prefix_run(publication, steps, k);
            assert(steps.take(k).take(j) =~= steps.take(j));
            lemma_sent_once(publication, steps.take(k), j);
        } else if k < j {
            lemma_prefix_run(publication, steps, j);
            assert(steps.take(j).take(k) =~= steps.take(k));
            lemma_sent_once(publication, steps.take(j), k);
        }
    }
}

proof fn lemma_prefix_run(publication: PublicationView, steps: Seq<Step>, k: int)
    requires
        is_run(publication, steps),
        0 <= k <= steps.len(),
    ensures
        is_run(publication, steps.take(k)),
    decreases steps.len() - k,
{
    if k < steps.len() {
        lemma_prefix_run(publication, steps, k + 1);
        assert(steps.take(k + 1).drop_last() =~= steps.take(k));
    } else {
        assert(steps.take(k) =~= steps);
    }
}

proof fn lemma_flushing_sent(publication: PublicationView, steps: Seq<Step>)
    requires
        is_run(publication, steps),
    ensures
        after(publication, steps).0.phase == Phase::Flushing || after(publication, steps).1 is Done
            ==> exists|k: int| sent_at(publication, steps, k),
        after(publication, steps).0.phase == Phase::Sending ==> steps.len() > 0 && after(
            publication,
            steps,
        ).1 is Send,
    decreases steps.len(),
{
    if steps.len() > 0 {
        let init = steps.drop_last();
        let last = steps.len() - 1;
        lemma_flushing_sent(publication, init);
        if after(publication, steps).0.phase == Phase::Flushing || after(
            publication,
            steps,
        ).1 is Done {
            if after(publication, init).0.phase == Phase::Sending {
                assert(steps.take(last) =~= init);
                assert(sent_at(publication, steps, last));
            } else {
                let k = choose|k: int| sent_at(publication, init, k);
                assert(init.take(k) =~= steps.take(k));
                assert(sent_at(publication, steps, k));
            }
        }
    }
}

proof fn lemma_beyond_sending(publication: PublicationView, steps: Seq<Step>, k: int)
    requires
        is_run(publication, steps),
        0 < k <= steps.len(),
        after(publication, steps.take(k)).1 is Send,
    ensures
        ({
            let phase = after(publication, steps).0.phase;
            phase == Phase::Sending || phase == Phase::Flushing || phase == Phase::Over
        }),
        k < steps.len() ==> !(after(publication, steps).1 is Send),
    decreases steps.len(),
{
    if k < steps.len() {
        assert(steps.drop_last().take(k) =~= steps.take(k));
        lemma_beyond_sending(publication, steps.drop_last(), k);
    } else {
        assert(steps.take(k) =~= steps);
    }
}

} // verus!
