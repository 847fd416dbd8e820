//! What is recorded of a goal.
use vstd::prelude::*;

use super::transport::EventView;
use super::{
    cancel_response, claim_statement, failed, handled, handled_all, rows_query, state_name,
    status_statement, update_statement, BridgeView, Live,
};
use crate::json::JsonView;
use crate::sql::{ArgumentView, StatementView};

verus! {

/// The text of a statement that sets columns of a goal that is not completed.
pub open spec fn setting(schema: Seq<char>, columns: Seq<char>) -> Seq<char> {
    "UPDATE "@ + schema + ".action_goals SET "@ + columns
        + ", updated_at=statement_timestamp() WHERE goal_id=$1::uuid AND completed_at IS NULL AND ($2::text IS NULL OR true) AND ($3::jsonb IS NULL OR true)"@
}

/// Whether a statement has a text, and binds the identifier of a goal, a text and
/// a JSON value.
pub open spec fn binds(
    statement: StatementView,
    sql: Seq<char>,
    id: Seq<char>,
    text: Option<Seq<char>>,
    json: Option<JsonView>,
) -> bool {
    &&& statement.sql == sql
    &&& statement.arguments.len() == 3
    &&& statement.arguments[0] == ArgumentView::Text(Some(id))
    &&& statement.arguments[1] == ArgumentView::Text(text)
    &&& statement.arguments[2] == ArgumentView::Json(json)
}

/// A result with the final status 4, 5 or 6 completes the goal: one statement
/// binds the name of that very status and that very result, and the goal is gone.
pub proof fn lemma_results_recorded(
    live: Live,
    schema: Seq<char>,
    id: Seq<char>,
    result: JsonView,
    now: u64,
)
    ensures
        ({
            let sql = setting(
                schema,
                "observed_state = $2, result = $3, completed_at = statement_timestamp(), dispatch_state = 'accepted', last_error = NULL"@,
            );
            let succeeded = handled(live, schema, id, EventView::Result(4, result), now);
            let canceled = handled(live, schema, id, EventView::Result(5, result), now);
            let aborted = handled(live, schema, id, EventView::Result(6, result), now);
            &&& succeeded.0 is None && canceled.0 is None && aborted.0 is None
            &&& succeeded.1.len() == 1 && canceled.1.len() == 1 && aborted.1.len() == 1
            &&& binds(succeeded.1[0], sql, id, Some("succeeded"@), Some(result))
            &&& binds(canceled.1[0], sql, id, Some("canceled"@), Some(result))
            &&& binds(aborted.1[0], sql, id, Some("aborted"@), Some(result))
        }),
{
}

/// A result with any other status is no end: the goal goes on, the result is asked
/// for again after five seconds, and only the reason is recorded.
pub proof fn lemma_unknown_results_recorded(
    live: Live,
    schema: Seq<char>,
    id: Seq<char>,
    code: i8,
    result: JsonView,
    now: u64,
)
    requires
        code < 4 || code > 6,
        now + 5000 <= u64::MAX,
    ensures
        ({
            let (after, statements) = handled(
                live,
                schema,
                id,
                EventView::Result(code, result),
                now,
            );
            &&& after is Some
            &&& after->Some_0.result_at == now + 5000
            &&& after->Some_0.cancel_at == live.cancel_at
            &&& after->Some_0.reconnect_at == live.reconnect_at
            &&& after->Some_0.awaiting_acceptance == live.awaiting_acceptance
            &&& statements.len() == 1
            &&& binds(
                statements[0],
                setting(schema, "last_error = $2"@),
                id,
                Some("server cannot establish the result; goal will not be resubmitted"@),
                None,
            )
        }),
{
}

/// An accepted goal is recorded as accepted, and its clients are kept for 30
/// seconds from then on; a rejected one is recorded as rejected and completed, and
/// is gone.
pub proof fn lemma_answers_recorded(live: Live, schema: Seq<char>, id: Seq<char>, now: u64)
    requires
        now + 30000 <= u64::MAX,
    ensures
        ({
            let accepted = handled(live, schema, id, EventView::Accepted(true), now);
            let rejected = handled(live, schema, id, EventView::Accepted(false), now);
            &&& accepted.0 is Some
            &&& !accepted.0->Some_0.awaiting_acceptance
            &&& accepted.0->Some_0.reconnect_at == now + 30000
            &&& accepted.0->Some_0.result_at == live.result_at
            &&& accepted.0->Some_0.cancel_at == live.cancel_at
            &&& accepted.1.len() == 2
            &&& binds(
                accepted.1[0],
                setting(schema, "dispatch_state = 'accepted', last_error = NULL"@),
                id,
                None,
                None,
            )
            &&& accepted.1[1] == status_statement(schema, id, "accepted"@)
            &&& rejected.0 is None
            &&& rejected.1.len() == 1
            &&& binds(
                rejected.1[0],
                setting(
                    schema,
                    "dispatch_state = 'rejected', completed_at = statement_timestamp(), last_error = NULL"@,
                ),
                id,
                None,
                None,
            )
        }),
{
}

/// The name of a published status: each of the six has its own, and no other code
/// has one.
pub open spec fn is_status(code: i8, name: Seq<char>) -> bool {
    ||| code == 1 && name == "accepted"@
    ||| code == 2 && name == "executing"@
    ||| code == 3 && name == "canceling"@
    ||| code == 4 && name == "succeeded"@
    ||| code == 5 && name == "canceled"@
    ||| code == 6 && name == "aborted"@
}

/// A published status is recorded under its name, by a statement that only moves
/// the goal forward; it never ends the goal, and leaves its clocks alone. A code
/// without a name is not recorded.
pub proof fn lemma_statuses_recorded(
    live: Live,
    schema: Seq<char>,
    id: Seq<char>,
    code: i8,
    now: u64,
)
    ensures
        ({
            let (after, statements) = handled(live, schema, id, EventView::Status(code), now);
            &&& after == Some(live)
            &&& 1 <= code <= 6 ==> {
                &&& statements.len() == 1
                &&& statements[0].sql == "UPDATE "@ + schema
                    + ".action_goals SET observed_state=$2, dispatch_state='accepted', updated_at=statement_timestamp() WHERE goal_id=$1::uuid AND completed_at IS NULL AND array_position(ARRAY['unknown','accepted','executing','canceling','succeeded','canceled','aborted'], observed_state) < array_position(ARRAY['unknown','accepted','executing','canceling','succeeded','canceled','aborted'], $2) AND observed_state NOT IN ('succeeded','canceled','aborted')"@
                &&& statements[0].arguments.len() == 2
                &&& statements[0].arguments[0] == ArgumentView::Text(Some(id))
                &&& statements[0].arguments[1] matches ArgumentView::Text(Some(name)) && is_status(
                    code,
                    name,
                )
            }
            &&& !(1 <= code <= 6) ==> statements.len() == 0
        }),
        forall|name: Seq<char>| #[trigger]
            is_status(code, name) <==> state_name(code) == Some(name),
{
}

/// The latest feedback replaces what was recorded of it, and an answer to a request
/// to cancel is recorded by what it means; neither ends the goal nor touches its
/// clocks.
pub proof fn lemma_telemetry_recorded(
    live: Live,
    schema: Seq<char>,
    id: Seq<char>,
    value: JsonView,
    code: i8,
    named: bool,
    now: u64,
)
    ensures
        ({
            let feedback = handled(live, schema, id, EventView::Feedback(value), now);
            let cancel = handled(live, schema, id, EventView::Cancel(code, named), now);
            let meaning = cancel_response(code, named);
            &&& feedback.0 == Some(live) && cancel.0 == Some(live)
            &&& feedback.1.len() == 1 && cancel.1.len() == 1
            &&& binds(feedback.1[0], setting(schema, "feedback = $3"@), id, None, Some(value))
            &&& binds(cancel.1[0], setting(schema, "cancel_response = $2"@), id, Some(meaning), None)
            &&& code == 0 && named ==> meaning == "accepted"@
            &&& code == 0 && !named ==> meaning == "unconfirmed"@
            &&& code == 1 ==> meaning == "rejected"@
            &&& code == 2 ==> meaning == "unknown"@
            &&& code == 3 ==> meaning == "terminated"@
            &&& code < 0 || code > 3 ==> meaning == "unconfirmed"@
        }),
{
}

/// What is recorded of an event depends on nothing but the goal and the event.
pub proof fn lemma_records_alike(
    live: Live,
    other: Live,
    schema: Seq<char>,
    id: Seq<char>,
    event: EventView,
    now: u64,
    later: u64,
)
    ensures
        handled(live, schema, id, event, now).1 == handled(other, schema, id, event, later).1,
{
}

/// Events are taken in one after the other: what the first ones leave is what the
/// next ones meet, what they record comes first, and once the goal has ended
/// nothing more is taken in.
pub proof fn lemma_events_in_order(
    live: Live,
    schema: Seq<char>,
    id: Seq<char>,
    first: Seq<EventView>,
    next: Seq<EventView>,
    now: u64,
)
    ensures
        ({
            let (before, told) = handled_all(live, schema, id, first, now);
            handled_all(live, schema, id, first + next, now) == (match before {
                None => (None::<Live>, told),
                Some(kept) => {
                    let (after, more) = handled_all(kept, schema, id, next, now);
                    (after, told + more)
                },
            })
        }),
    decreases next.len(),
{
    let (before, told) = handled_all(live, schema, id, first, now);
    if next.len() == 0 {
        assert(first + next =~= first);
        assert(told + Seq::<StatementView>::empty() =~= told);
    } else {
        lemma_events_in_order(live, schema, id, first, next.drop_last(), now);
        assert((first + next).drop_last() =~= first + next.drop_last());
        assert((first + next).last() == next.last());
        if let Some(kept) = before {
            let (held, more) = handled_all(kept, schema, id, next.drop_last(), now);
            if let Some(held) = held {
                let last = handled(held, schema, id, next.last(), now).1;
                assert(told + (more + last) =~= told + more + last);
            }
        }
    }
}

/// One event alone does what it does.
pub proof fn lemma_one_event(
    live: Live,
    schema: Seq<char>,
    id: Seq<char>,
    event: EventView,
    now: u64,
)
    ensures
        handled_all(live, schema, id, seq![event], now) == handled(live, schema, id, event, now),
        handled_all(live, schema, id, Seq::empty(), now) == (
            Some(live),
            Seq::<StatementView>::empty(),
        ),
{
    let none = Seq::<EventView>::empty();
    assert(seq![event].drop_last() =~= none);
    assert(handled_all(live, schema, id, none, now) == (Some(live), Seq::<StatementView>::empty()));
    let told = handled(live, schema, id, event, now).1;
    assert(Seq::<StatementView>::empty() + told =~= told);
}

/// A goal is claimed by a statement that changes it only where it waits for
/// dispatch, is to be run and is not completed, and that says whether it did.
pub proof fn lemma_claims(schema: Seq<char>, id: Seq<char>)
    ensures
        claim_statement(schema, id).sql == "WITH claimed AS (UPDATE "@ + schema
            + ".action_goals SET dispatch_state='uncertain', updated_at=statement_timestamp() WHERE goal_id=$1::uuid AND dispatch_state='pending' AND desired_state='run' AND completed_at IS NULL RETURNING 1) SELECT EXISTS (SELECT FROM claimed)"@,
        claim_statement(schema, id).arguments == seq![ArgumentView::Text(Some(id))],
{
}

/// The goals that are looked at are the 64 oldest that are not completed.
pub proof fn lemma_rows_asked_for(schema: Seq<char>)
    ensures
        rows_query(schema)
            == "SELECT coalesce(jsonb_agg(to_jsonb(g)), '[]'::jsonb) FROM (SELECT goal_id, action_name, action_type, goal, desired_state, dispatch_state, cancel_response FROM "@
            + schema
            + ".action_goals WHERE completed_at IS NULL ORDER BY created_at, goal_id LIMIT "@
            + "64"@ + ") g"@,
{
    assert("64"@ =~= crate::text::integer_text(64)) by {
        reveal_strlit("64");
        reveal_with_fuel(crate::text::decimal, 3);
    }
}

/// A failure is recorded with its reason and warned of; the clients of the goal are
/// closed, and it rests for five seconds. Other goals are left alone.
pub proof fn lemma_failures_recorded(
    bridge: BridgeView,
    schema: Seq<char>,
    id: Seq<char>,
    error: Seq<char>,
    now: u64,
)
    requires
        now + 5000 <= u64::MAX,
    ensures
        ({
            let (after, turn) = failed(bridge, schema, id, error, now);
            &&& turn.updates.len() == 1
            &&& binds(turn.updates[0], setting(schema, "last_error = $2"@), id, Some(error), None)
            &&& turn.warning == Some(
                "pg_ros2 event=action_transport_failed goal_id="@ + id + " error="@ + error,
            )
            &&& turn.action is Finish
            &&& !after.active.dom().contains(id)
            &&& after.retry.dom().contains(id) && after.retry[id] == now + 5000
            &&& after.extension == bridge.extension
        }),
{
}

/// An update binds what it was given, whatever it sets.
pub proof fn lemma_updates_bind(
    schema: Seq<char>,
    id: Seq<char>,
    columns: Seq<char>,
    text: Option<Seq<char>>,
    json: Option<JsonView>,
)
    ensures
        binds(update_statement(schema, id, columns, text, json), setting(schema, columns), id, text, json),
{
}

} // verus!
