//! What holds of every subscription.
use vstd::prelude::*;

use super::json::payload_text;
use super::{
    delivered, encoded, next_number, notifications, received, report_text, reported,
    within_bounds, SessionView, QUEUE, REPORT,
};
use crate::message::MessageView;
use crate::text::{decimal, json_quoted};
use crate::time::LATEST;

verus! {

/// Payloads with different numbers are different texts, whatever the messages,
/// so that the server folds none of them into one.
pub proof fn lemma_payloads_differ(
    topic: Seq<char>,
    message_type: Seq<char>,
    first: nat,
    second: nat,
    a: MessageView,
    b: MessageView,
)
    requires
        first != second,
    ensures
        payload_text(topic, message_type, first, a) != payload_text(
            topic,
            message_type,
            second,
            b,
        ),
{
    let prefix = "{\"topic\":"@ + json_quoted(topic) + ",\"message_type\":"@ + json_quoted(
        message_type,
    ) + ",\"sequence\":"@;
    let x = decimal(first);
    let y = decimal(second);
    let p = ",\"message\":"@ + crate::json::json_text(super::json::message_tree(a)) + "}"@;
    let q = ",\"message\":"@ + crate::json::json_text(super::json::message_tree(b)) + "}"@;
    let left = payload_text(topic, message_type, first, a);
    let right = payload_text(topic, message_type, second, b);
    assert(left =~= prefix + x + p);
    assert(right =~= prefix + y + q);
    reveal_strlit(",\"message\":");
    assert(p[0] == ',' && q[0] == ',');
    if left == right {
        lemma_digits(first);
        lemma_digits(second);
        assert forall|i: int| 0 <= i < x.len() + p.len() implies (x + p)[i] == left[prefix.len()
            + i] by {}
        assert forall|i: int| 0 <= i < y.len() + q.len() implies (y + q)[i] == right[prefix.len()
            + i] by {}
        if x.len() < y.len() {
            assert((x + p)[x.len() as int] == ',');
            assert((y + q)[x.len() as int] == y[x.len() as int]);
        } else if y.len() < x.len() {
            assert((y + q)[y.len() as int] == ',');
            assert((x + p)[y.len() as int] == x[y.len() as int]);
        } else {
            assert forall|i: int| 0 <= i < x.len() implies x[i] == y[i] by {
                assert((x + p)[i] == x[i]);
                assert((y + q)[i] == y[i]);
            }
            assert(x =~= y);
            lemma_decimal_injective(first, second);
        }
    }
}

/// Decimal texts are made of digits, and there is at least one.
pub proof fn lemma_digits(value: nat)
    ensures
        decimal(value).len() > 0,
        forall|i: int|
            0 <= i < decimal(value).len() ==> '0' <= #[trigger] decimal(value)[i] <= '9',
    decreases value,
{
    let digit = (48 + value % 10) as char;
    assert('0' <= digit <= '9');
    if value >= 10 {
        lemma_digits(value / 10);
        let before = decimal(value / 10);
        assert forall|i: int| 0 <= i < decimal(value).len() implies '0' <= #[trigger] decimal(
            value,
        )[i] <= '9' by {
            if i < before.len() {
                assert(decimal(value)[i] == before[i]);
            }
        }
    }
}

/// Different numbers have different decimal texts.
pub proof fn lemma_decimal_injective(a: nat, b: nat)
    requires
        decimal(a) == decimal(b),
    ensures
        a == b,
    decreases a,
{
    let x = decimal(a);
    let y = decimal(b);
    lemma_digits(a);
    lemma_digits(b);
    assert(x.last() == (48 + a % 10) as char);
    assert(y.last() == (48 + b % 10) as char);
    assert(a % 10 == b % 10);
    if a >= 10 && b >= 10 {
        assert(x.drop_last() =~= decimal(a / 10));
        assert(y.drop_last() =~= decimal(b / 10));
        lemma_decimal_injective(a / 10, b / 10);
    } else if a >= 10 {
        lemma_digits(a / 10);
        assert(x.len() > 1);
    } else if b >= 10 {
        lemma_digits(b / 10);
        assert(y.len() > 1);
    }
}

/// Every message takes a number of its own, whether it is queued, dropped or
/// cannot be encoded.
pub proof fn lemma_numbered(session: SessionView, message: MessageView)
    ensures
        received(session, message).sequence == next_number(session.sequence),
        session.queue.len() < QUEUE ==> received(session, message).queue.last() == encoded(
            session.topic,
            session.message_type->Some_0,
            session.sequence as nat,
            message,
        ),
{
}

/// The queue keeps its bound: a message that finds it full is dropped and
/// counted, and those that wait are left as they are.
pub proof fn lemma_full_queue_drops(session: SessionView, message: MessageView)
    requires
        session.queue.len() >= QUEUE,
    ensures
        received(session, message).queue == session.queue,
        received(session, message).dropped == next_number(session.dropped),
{
}

/// What waits is delivered once, in order: as many notifications as there are
/// payloads, and nothing waits after that.
pub proof fn lemma_delivered_once(session: SessionView)
    ensures
        delivered(session).queue.len() == 0,
        notifications(session.topic, delivered(session).queue).len() == 0,
        notifications(session.topic, session.queue).len() == payloads(session.queue).len(),
        forall|i: int|
            0 <= i < payloads(session.queue).len() ==> #[trigger] notifications(
                session.topic,
                session.queue,
            )[i] == super::notify_statement(session.topic, payloads(session.queue)[i]),
{
    lemma_notifications(session.topic, session.queue);
}

/// The payloads among what waits.
pub open spec fn payloads(queue: Seq<Result<Seq<char>, Seq<char>>>) -> Seq<Seq<char>>
    decreases queue.len(),
{
    if queue.len() == 0 {
        Seq::empty()
    } else {
        match queue.last() {
            Ok(payload) => payloads(queue.drop_last()).push(payload),
            Err(_) => payloads(queue.drop_last()),
        }
    }
}

proof fn lemma_notifications(topic: Seq<char>, queue: Seq<Result<Seq<char>, Seq<char>>>)
    ensures
        notifications(topic, queue).len() == payloads(queue).len(),
        forall|i: int|
            0 <= i < payloads(queue).len() ==> #[trigger] notifications(topic, queue)[i]
                == super::notify_statement(topic, payloads(queue)[i]),
    decreases queue.len(),
{
    if queue.len() > 0 {
        lemma_notifications(topic, queue.drop_last());
        let before = notifications(topic, queue.drop_last());
        let all = notifications(topic, queue);
        assert forall|i: int| 0 <= i < payloads(queue).len() implies #[trigger] all[i]
            == super::notify_statement(topic, payloads(queue)[i]) by {
            if i < before.len() {
                assert(all[i] == before[i]);
                assert(payloads(queue)[i] == payloads(queue.drop_last())[i]);
            }
        }
    }
}

/// The topic and the type of a session stay fixed, and its queue within its
/// bounds, whatever comes.
pub proof fn lemma_session_kept(session: SessionView, message: MessageView, now: u64)
    requires
        within_bounds(session),
    ensures
        within_bounds(received(session, message)),
        within_bounds(delivered(session)),
        within_bounds(reported(session, now)),
        received(session, message).topic == session.topic,
        received(session, message).message_type == session.message_type,
        delivered(session).topic == session.topic,
        delivered(session).message_type == session.message_type,
        reported(session, now).topic == session.topic,
        reported(session, now).message_type == session.message_type,
{
}

/// Drops are reported at most once per second, whatever is dropped between.
pub proof fn lemma_reports_rest(
    session: SessionView,
    changed: SessionView,
    now: u64,
    later: u64,
)
    requires
        now <= LATEST,
        now >= session.next_report,
        changed.next_report == reported(session, now).next_report,
        later < now + REPORT,
    ensures
        report_text(changed, later) is None,
{
}

} // verus!
