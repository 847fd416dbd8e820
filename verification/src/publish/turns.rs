//! What a publication does next, told by what it did and what came of it.
use vstd::prelude::*;

use super::json::decoded_message;
use super::laws::{after, is_run, Step};
use super::{ActionView, Phase, PublicationView, Reply};
use crate::message::MessageView;

verus! {

/// The action of a run that was last before the executor was spun, and before the
/// last step.
pub open spec fn asked(publication: PublicationView, steps: Seq<Step>) -> ActionView
    decreases steps.len(),
{
    if steps.len() == 0 {
        ActionView::Open
    } else if after(publication, steps.drop_last()).1 is Spin {
        asked(publication, steps.drop_last())
    } else {
        after(publication, steps.drop_last()).1
    }
}

/// When the node was opened.
pub open spec fn opened_at(steps: Seq<Step>) -> u64
    decreases steps.len(),
{
    if steps.len() == 0 {
        0
    } else if steps.last().reply is Opened {
        steps.last().now
    } else {
        opened_at(steps.drop_last())
    }
}

/// When the publisher was created.
pub open spec fn created_at(steps: Seq<Step>) -> u64
    decreases steps.len(),
{
    if steps.len() == 0 {
        0
    } else if steps.last().reply is Created {
        steps.last().now
    } else {
        created_at(steps.drop_last())
    }
}

/// When the message was sent.
pub open spec fn sent_at(steps: Seq<Step>) -> u64
    decreases steps.len(),
{
    if steps.len() == 0 {
        0
    } else if steps.last().reply is Sent {
        steps.last().now
    } else {
        sent_at(steps.drop_last())
    }
}

/// The error of a reply.
pub open spec fn error_of(reply: Reply) -> Option<Seq<char>> {
    match reply {
        Reply::Opened(Err(error)) => Some(error@),
        Reply::Types(Err(error)) => Some(error@),
        Reply::Made(Err(error)) => Some(error@),
        Reply::Created(Err(error)) => Some(
            error@
                + " (message packages are resolved from the database server's AMENT_PREFIX_PATH; start the server with the ROS environment sourced)"@,
        ),
        Reply::Matched(Err(error)) => Some(error@),
        Reply::Sent(Err(error)) => Some(error@),
        Reply::Spun(Err(error)) => Some(error@),
        _ => None,
    }
}

/// What ties the state of a publication to its history.
spec fn tied(publication: PublicationView, steps: Seq<Step>) -> bool {
    let held = after(publication, steps).0;
    let action = after(publication, steps).1;
    &&& held.topic == publication.topic
    &&& held.requested == publication.requested
    &&& held.value == publication.value
    &&& match held.phase {
        Phase::Opening => action is Open && steps.len() == 0,
        Phase::Discovering => action is ReadGraph && held.deadline == opened_at(steps) + 5000,
        Phase::Undiscovered => action is Spin && asked(publication, steps) is ReadGraph
            && held.deadline == opened_at(steps) + 5000,
        Phase::Making => action == ActionView::Make(held.kind),
        Phase::Creating => action == ActionView::Create(held.kind),
        Phase::Matching => action is CountSubscriptions && held.deadline == created_at(steps)
            + 2000,
        Phase::Unmatched => action is Spin && asked(publication, steps) is CountSubscriptions
            && held.deadline == created_at(steps) + 2000,
        Phase::Sending => action is Send,
        Phase::Flushing => action is Spin && (asked(publication, steps) is Send)
            && held.deadline == sent_at(steps) + 100,
        Phase::Over => action is Done || action is Fail,
    }
}

proof fn lemma_tied(publication: PublicationView, steps: Seq<Step>)
    requires
        is_run(publication, steps),
    ensures
        tied(publication, steps),
    decreases steps.len(),
{
    if steps.len() > 0 {
        lemma_tied(publication, steps.drop_last());
    }
}

/// An error of any reply ends a publication with that error.
pub proof fn lemma_errors_end(publication: PublicationView, steps: Seq<Step>)
    requires
        is_run(publication, steps),
        steps.len() > 0,
        error_of(steps.last().reply) is Some,
    ensures
        after(publication, steps).1 == ActionView::Fail(error_of(steps.last().reply)->Some_0),
{
}

/// A publication fails for nothing but an error that it was told, a value that
/// cannot be read into the message, several types or none of the topic, or no type
/// five seconds after the node was opened.
pub proof fn lemma_failures_have_reasons(publication: PublicationView, steps: Seq<Step>)
    requires
        is_run(publication, steps),
        steps.len() > 0,
        after(publication, steps).1 is Fail,
    ensures
        ({
            let error = after(publication, steps).1->Fail_0;
            let last = steps.last();
            ||| error_of(last.reply) == Some(error)
            ||| last.reply matches Reply::Made(Ok(blank)) && decoded_message(
                blank@,
                publication.value,
                None,
            ) == Err::<MessageView, Seq<char>>(error)
            ||| last.reply matches Reply::Types(Ok(Some(types))) && types@.len() != 1 && error
                == "topic has multiple message types; a unique type is required"@
            ||| last.reply matches Reply::Types(Ok(None)) && last.now >= opened_at(steps) + 5000
                && error == "topic "@ + publication.topic
                + " has no unique advertised message type; pass the message type explicitly"@
        }),
{
    lemma_tied(publication, steps.drop_last());
}

/// Once the node is open, a given type has its message made, and without one the
/// graph is read.
pub proof fn lemma_resolves(publication: PublicationView, steps: Seq<Step>)
    requires
        is_run(publication, steps),
        steps.len() > 0,
        steps.last().reply matches Reply::Opened(Ok(_)),
    ensures
        publication.requested matches Some(kind) ==> after(publication, steps).1
            == ActionView::Make(kind),
        publication.requested is None ==> after(publication, steps).1 is ReadGraph,
{
    lemma_tied(publication, steps.drop_last());
}

/// The graph is asked for the type for five seconds from when the node was opened.
/// A single type ends the search and has its message made; until then, while time
/// is left, the executor is spun and the graph read again; when none is left, the
/// publication fails.
pub proof fn lemma_searches(publication: PublicationView, steps: Seq<Step>)
    requires
        is_run(publication, steps),
        steps.len() > 0,
    ensures
        steps.last().reply matches Reply::Types(Ok(Some(types))) ==> (if types@.len() == 1 {
            after(publication, steps).1 == ActionView::Make(types@[0]@)
        } else {
            after(publication, steps).1 is Fail
        }),
        steps.last().reply matches Reply::Types(Ok(None)) ==> (if steps.last().now < opened_at(
            steps,
        ) + 5000 {
            after(publication, steps).1 is Spin
        } else {
            after(publication, steps).1 is Fail
        }),
        (steps.last().reply matches Reply::Spun(Ok(_))) && asked(
            publication,
            steps.drop_last(),
        ) is ReadGraph ==> after(publication, steps).1 is ReadGraph,
{
    lemma_tied(publication, steps.drop_last());
}

/// The value is read into the message that was made, and a publisher of the very
/// type is created for it.
pub proof fn lemma_makes(publication: PublicationView, steps: Seq<Step>)
    requires
        is_run(publication, steps),
        steps.len() > 0,
    ensures
        steps.last().reply matches Reply::Made(Ok(blank)) ==> {
            &&& after(publication, steps.drop_last()).1 is Make
            &&& match decoded_message(blank@, publication.value, None) {
                Ok(message) => after(publication, steps).1 == ActionView::Create(
                    after(publication, steps.drop_last()).1->Make_0,
                ),
                Err(error) => after(publication, steps).1 == ActionView::Fail(error),
            }
        },
        (steps.last().reply matches Reply::Created(Ok(_))) ==> after(
            publication,
            steps,
        ).1 is CountSubscriptions,
{
    lemma_tied(publication, steps.drop_last());
}

/// The message is sent as soon as there is a subscription, or two seconds after the
/// publisher was created; until then the executor is spun and the subscriptions
/// counted again.
pub proof fn lemma_waits_for_subscribers(publication: PublicationView, steps: Seq<Step>)
    requires
        is_run(publication, steps),
        steps.len() > 0,
    ensures
        steps.last().reply matches Reply::Matched(Ok(count)) ==> (if count > 0
            || steps.last().now >= created_at(steps) + 2000 {
            after(publication, steps).1 is Send
        } else {
            after(publication, steps).1 is Spin
        }),
        (steps.last().reply matches Reply::Spun(Ok(_))) && asked(
            publication,
            steps.drop_last(),
        ) is CountSubscriptions ==> after(publication, steps).1 is CountSubscriptions,
{
    lemma_tied(publication, steps.drop_last());
}

/// After the message was sent the executor is spun for a tenth of a second, and
/// then the publication is done; the type that it tells is that of the publisher.
pub proof fn lemma_flushes(publication: PublicationView, steps: Seq<Step>)
    requires
        is_run(publication, steps),
        steps.len() > 0,
    ensures
        (steps.last().reply matches Reply::Sent(Ok(_))) ==> after(publication, steps).1 is Spin,
        (steps.last().reply matches Reply::Spun(Ok(_))) && asked(
            publication,
            steps.drop_last(),
        ) is Send ==> (if steps.last().now < sent_at(steps) + 100 {
            after(publication, steps).1 is Spin
        } else {
            after(publication, steps).1 is Done
        }),
        after(publication, steps).1 is Done ==> asked(publication, steps.drop_last()) is Send,
{
    lemma_tied(publication, steps.drop_last());
}

/// The type that a publication tells when it is done, and the type of which a
/// publisher is created, is the one of which a message was made.
pub proof fn lemma_one_type(publication: PublicationView, steps: Seq<Step>, k: int)
    requires
        is_run(publication, steps),
        0 <= k <= steps.len(),
        after(publication, steps.take(k)).1 is Make,
    ensures
        after(publication, steps).0.kind == after(publication, steps.take(k)).1->Make_0,
        after(publication, steps).1 matches ActionView::Done(kind) ==> kind == after(
            publication,
            steps.take(k),
        ).1->Make_0,
        after(publication, steps).1 matches ActionView::Create(kind) ==> kind == after(
            publication,
            steps.take(k),
        ).1->Make_0,
        ({
            let phase = after(publication, steps).0.phase;
            phase != Phase::Opening && phase != Phase::Discovering && phase != Phase::Undiscovered
        }),
    decreases steps.len(),
{
    lemma_tied(publication, steps);
    if k < steps.len() {
        assert(steps.drop_last().take(k) =~= steps.take(k));
        lemma_one_type(publication, steps.drop_last(), k);
    } else {
        assert(steps.take(k) =~= steps);
    }
}

} // verus!
