//! What one turn of a session changes.
use vstd::prelude::*;

use super::{
    counted, delivered, encoded, next_number, notifications, received, report_text, reported,
    unique_type, SessionView,
};
use crate::message::MessageView;
use crate::sql::{ArgumentView, StatementView};
use crate::text::integer_text;

verus! {

/// A message behind fewer than 256 others waits with its encoding, under the number
/// that the session has come to; one that comes later is dropped and counted.
/// Nothing else changes.
pub proof fn lemma_message_comes(session: SessionView, message: MessageView, kind: Seq<char>)
    requires
        session.message_type == Some(kind),
    ensures
        ({
            let after = received(session, message);
            &&& after.topic == session.topic
            &&& after.message_type == Some(kind)
            &&& after.next_discovery == session.next_discovery
            &&& after.next_report == session.next_report
            &&& after.encoding_errors == session.encoding_errors
            &&& after.last_encoding_error == session.last_encoding_error
            &&& session.sequence < 18446744073709551615 ==> after.sequence == session.sequence + 1
            &&& session.sequence == 18446744073709551615 ==> after.sequence == 0
            &&& session.queue.len() < 256 ==> {
                &&& after.queue == session.queue.push(
                    encoded(session.topic, kind, session.sequence as nat, message),
                )
                &&& after.dropped == session.dropped
            }
            &&& session.queue.len() >= 256 ==> {
                &&& after.queue == session.queue
                &&& session.dropped < 18446744073709551615 ==> after.dropped == session.dropped + 1
            }
        }),
{
}

/// The number after a number is one more, and none after the last of 64 bits.
pub proof fn lemma_numbers_go_on(number: u64)
    ensures
        number < 18446744073709551615 ==> next_number(number) == number + 1,
        number == 18446744073709551615 ==> next_number(number) == 0,
{
}

/// How many of what waits are errors.
pub open spec fn errors(queue: Seq<Result<Seq<char>, Seq<char>>>) -> nat
    decreases queue.len(),
{
    if queue.len() == 0 {
        0
    } else {
        errors(queue.drop_first()) + if queue[0] is Err {
            1nat
        } else {
            0
        }
    }
}

/// Whether the error at a place is the last one of what waits.
pub open spec fn is_last_error(queue: Seq<Result<Seq<char>, Seq<char>>>, i: int) -> bool {
    &&& 0 <= i < queue.len()
    &&& queue[i] is Err
    &&& forall|j: int| i < j < queue.len() ==> (#[trigger] queue[j]) is Ok
}

/// A delivery empties the queue, counts the errors in it and keeps the last of them.
/// Nothing else changes.
pub proof fn lemma_delivery(session: SessionView, i: int)
    requires
        session.encoding_errors + session.queue.len() <= 18446744073709551615,
    ensures
        ({
            let after = delivered(session);
            &&& after.queue.len() == 0
            &&& after.topic == session.topic
            &&& after.message_type == session.message_type
            &&& after.sequence == session.sequence
            &&& after.dropped == session.dropped
            &&& after.next_discovery == session.next_discovery
            &&& after.next_report == session.next_report
            &&& after.encoding_errors == session.encoding_errors + errors(session.queue)
            &&& is_last_error(session.queue, i) ==> after.last_encoding_error == Some(
                session.queue[i]->Err_0,
            )
            &&& errors(session.queue) == 0 ==> after.last_encoding_error
                == session.last_encoding_error
        }),
{
    lemma_count(session.encoding_errors, session.last_encoding_error, session.queue, i);
}

proof fn lemma_count(
    count: u64,
    last: Option<Seq<char>>,
    queue: Seq<Result<Seq<char>, Seq<char>>>,
    i: int,
)
    requires
        count + queue.len() <= 18446744073709551615,
    ensures
        counted(count, last, queue).0 == count + errors(queue),
        errors(queue) <= queue.len(),
        is_last_error(queue, i) ==> counted(count, last, queue).1 == Some(queue[i]->Err_0),
        errors(queue) == 0 ==> counted(count, last, queue).1 == last,
    decreases queue.len(),
{
    if queue.len() > 0 {
        let end = queue.len() - 1;
        lemma_count(count, last, queue.drop_last(), i);
        lemma_errors_end(queue);
        if is_last_error(queue, i) && i < end {
            assert(queue[end] is Ok);
            let init = queue.drop_last();
            assert forall|j: int| i < j < init.len() implies (#[trigger] init[j]) is Ok by {
                assert(queue[j] is Ok);
            }
            assert(is_last_error(init, i));
        }
    }
}

proof fn lemma_errors_end(queue: Seq<Result<Seq<char>, Seq<char>>>)
    requires
        queue.len() > 0,
    ensures
        errors(queue) == errors(queue.drop_last()) + if queue.last() is Err {
            1nat
        } else {
            0
        },
    decreases queue.len(),
{
    if queue.len() > 1 {
        lemma_errors_end(queue.drop_first());
        assert(queue.drop_first().drop_last() =~= queue.drop_last().drop_first());
        assert(queue.drop_first().last() == queue.last());
        assert(queue.drop_last()[0] == queue[0]);
    } else {
        assert(queue.drop_first() =~= queue.drop_last());
        assert(queue[0] == queue.last());
    }
}

/// Whether a statement notifies a channel with a payload.
pub open spec fn notifies(
    statement: StatementView,
    topic: Seq<char>,
    payload: Seq<char>,
) -> bool {
    &&& statement.sql == "SELECT pg_catalog.pg_notify($1, $2)"@
    &&& statement.arguments.len() == 2
    &&& statement.arguments[0] == ArgumentView::Text(Some(topic))
    &&& statement.arguments[1] == ArgumentView::Text(Some(payload))
}

/// What waits is notified on the channel of the topic, one statement for each payload
/// and none for an error, and what waits behind it after it.
pub proof fn lemma_notifications_made(
    topic: Seq<char>,
    payload: Seq<char>,
    error: Seq<char>,
    before: Seq<Result<Seq<char>, Seq<char>>>,
    behind: Seq<Result<Seq<char>, Seq<char>>>,
)
    ensures
        notifications(topic, Seq::empty()).len() == 0,
        notifications(topic, before + behind) == notifications(topic, before) + notifications(
            topic,
            behind,
        ),
        notifications(topic, seq![Err(error)]).len() == 0,
        notifications(topic, seq![Ok(payload)]).len() == 1,
        notifies(notifications(topic, seq![Ok(payload)])[0], topic, payload),
    decreases behind.len(),
{
    reveal_with_fuel(notifications, 2);
    assert(seq![Ok::<Seq<char>, Seq<char>>(payload)].drop_last() =~= Seq::empty());
    assert(seq![Err::<Seq<char>, Seq<char>>(error)].drop_last() =~= Seq::empty());
    if behind.len() > 0 {
        lemma_notifications_made(topic, payload, error, before, behind.drop_last());
        assert((before + behind).drop_last() =~= before + behind.drop_last());
        assert((before + behind).last() == behind.last());
    } else {
        assert(before + behind =~= before);
    }
}

/// The warning of a session, with both counts and the last error.
pub open spec fn warning(
    topic: Seq<char>,
    drops: u64,
    errors: u64,
    last: Seq<char>,
) -> Seq<char> {
    "pg_ros2 topic="@ + topic + " queue_drops="@ + integer_text(drops as int)
        + " encoding_drops="@ + integer_text(errors as int) + " last_error="@ + last
}

/// A report is due at its time and not before. One that is due warns of what was
/// dropped, where anything was, begins the counts anew and rests for a second; one
/// that is not due changes nothing. Nothing else changes.
pub proof fn lemma_report(session: SessionView, now: u64)
    requires
        now <= 18446744073709491615,
    ensures
        ({
            let after = reported(session, now);
            let text = report_text(session, now);
            &&& now < session.next_report ==> after == session && text is None
            &&& now >= session.next_report ==> {
                &&& after.dropped == 0
                &&& after.encoding_errors == 0
                &&& after.last_encoding_error is None
                &&& after.next_report == now + 1000
                &&& after.topic == session.topic
                &&& after.message_type == session.message_type
                &&& after.sequence == session.sequence
                &&& after.queue == session.queue
                &&& after.next_discovery == session.next_discovery
                &&& session.dropped == 0 && session.encoding_errors == 0 ==> text is None
                &&& session.dropped != 0 || session.encoding_errors != 0 ==> {
                    &&& session.last_encoding_error is None ==> text == Some(
                        warning(
                            session.topic,
                            session.dropped,
                            session.encoding_errors,
                            "none"@,
                        ),
                    )
                    &&& session.last_encoding_error matches Some(last) ==> text == Some(
                        warning(session.topic, session.dropped, session.encoding_errors, last),
                    )
                }
            }
        }),
{
}

/// A topic with one type is of that type; one with several or none is refused, and a
/// topic that the graph does not know is looked for again.
pub proof fn lemma_type_found(types: Seq<String>, kind: String)
    ensures
        unique_type(None) == Ok::<Option<Seq<char>>, Seq<char>>(None),
        unique_type(Some(seq![kind])) == Ok::<Option<Seq<char>>, Seq<char>>(Some(kind@)),
        types.len() == 0 || types.len() > 1 ==> unique_type(Some(types)) == Err::<
            Option<Seq<char>>,
            Seq<char>,
        >("topic has multiple message types; a unique type is required"@),
{
}

} // verus!
