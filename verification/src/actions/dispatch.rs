//! That a goal is sent at most once, however often it is looked at.
use vstd::prelude::*;

use super::goal::GoalRowView;
use super::laws::{after, is_run, lemma_sent_once_claimed, turns_left, Step};
use super::transport::{event_views, EventView};
use super::{
    advanced, handled, handled_all, status_statement, update_statement, BridgeView,
    Live, Reply,
};
use crate::json::JsonView;
use crate::sql::StatementView;

verus! {

/// A look at a goal: the row as it was read, the bridge at that time, and the
/// steps that followed. A bridge that was restarted in between knows nothing of
/// earlier looks, and a look that was cut short has fewer steps.
pub struct Look {
    pub bridge: BridgeView,
    pub row: GoalRowView,
    pub steps: Seq<Step>,
}

/// Whether marking the goal for dispatch was committed in a step.
pub open spec fn commits(step: Step) -> bool {
    step.reply == Reply::Claimed(true)
}

/// Whether marking the goal for dispatch was committed in some step.
pub open spec fn committed(steps: Seq<Step>) -> bool {
    exists|i: int| 0 <= i < steps.len() && commits(#[trigger] steps[i])
}

/// How often the goal is sent in the steps of a look.
pub open spec fn sends(
    bridge: BridgeView,
    schema: Seq<char>,
    row: GoalRowView,
    steps: Seq<Step>,
) -> nat
    decreases steps.len(),
{
    if steps.len() == 0 {
        0
    } else {
        sends(bridge, schema, row, steps.drop_last()) + (if after(
            bridge,
            schema,
            row,
            steps,
        ).1 is Send {
            1nat
        } else {
            0nat
        })
    }
}

/// Whether the goal was marked for dispatch in some look.
pub open spec fn dispatched(looks: Seq<Look>) -> bool {
    exists|i: int| 0 <= i < looks.len() && committed((#[trigger] looks[i]).steps)
}

/// How often the goal is sent in all looks.
pub open spec fn all_sends(schema: Seq<char>, looks: Seq<Look>) -> nat
    decreases looks.len(),
{
    if looks.len() == 0 {
        0
    } else {
        let last = looks.last();
        all_sends(schema, looks.drop_last()) + sends(last.bridge, schema, last.row, last.steps)
    }
}

/// Whether looks at one goal follow each other. A row that was marked for
/// dispatch is not read as waiting again: the mark was committed, and no
/// statement of the bridge takes it back.
pub open spec fn is_history(schema: Seq<char>, id: Seq<char>, looks: Seq<Look>) -> bool
    decreases looks.len(),
{
    if looks.len() == 0 {
        true
    } else {
        let last = looks.last();
        &&& is_history(schema, id, looks.drop_last())
        &&& last.row.id == id
        &&& is_run(last.bridge, schema, last.row, last.steps)
        &&& last.row.pending ==> !dispatched(looks.drop_last())
    }
}

/// In one look a goal is sent at most once, and only once marking it for dispatch
/// was committed.
pub proof fn lemma_look_sends_once(
    bridge: BridgeView,
    schema: Seq<char>,
    row: GoalRowView,
    steps: Seq<Step>,
)
    requires
        is_run(bridge, schema, row, steps),
    ensures
        sends(bridge, schema, row, steps) <= 1,
        sends(bridge, schema, row, steps) == 1 ==> row.pending && committed(steps) && turns_left(
            after(bridge, schema, row, steps).1,
        ) <= 1,
    decreases steps.len(),
{
    if steps.len() > 0 {
        let init = steps.drop_last();
        lemma_look_sends_once(bridge, schema, row, init);
        if after(bridge, schema, row, steps).1 is Send {
            lemma_sent_once_claimed(bridge, schema, row, steps);
            assert(commits(steps[steps.len() - 1]));
        } else if sends(bridge, schema, row, init) == 1 {
            let i = choose|i: int| 0 <= i < init.len() && commits(#[trigger] init[i]);
            assert(commits(steps[i]));
        }
    }
}

/// A goal is sent at most once over all looks at it, also where the bridge was
/// restarted in between, and only once marking it for dispatch was committed.
pub proof fn lemma_sent_at_most_once(schema: Seq<char>, id: Seq<char>, looks: Seq<Look>)
    requires
        is_history(schema, id, looks),
    ensures
        all_sends(schema, looks) <= 1,
        all_sends(schema, looks) == 1 ==> dispatched(looks),
    decreases looks.len(),
{
    if looks.len() > 0 {
        let init = looks.drop_last();
        let last = looks.last();
        lemma_sent_at_most_once(schema, id, init);
        lemma_look_sends_once(last.bridge, schema, last.row, last.steps);
        if sends(last.bridge, schema, last.row, last.steps) == 1 {
            assert(committed(looks[looks.len() - 1].steps));
        } else if all_sends(schema, init) == 1 {
            let i = choose|i: int| 0 <= i < init.len() && committed((#[trigger] init[i]).steps);
            assert(committed(looks[i].steps));
        }
    }
}

/// A row that is not read as waiting for dispatch is not sent.
pub proof fn lemma_dispatched_not_sent(
    bridge: BridgeView,
    schema: Seq<char>,
    row: GoalRowView,
    steps: Seq<Step>,
)
    requires
        is_run(bridge, schema, row, steps),
        !row.pending,
    ensures
        sends(bridge, schema, row, steps) == 0,
{
    lemma_look_sends_once(bridge, schema, row, steps);
}

/// What a statement may set in the row of a goal. None of it makes the goal wait
/// for dispatch.
pub open spec fn is_assignment(text: Seq<char>) -> bool {
    ||| text == "dispatch_state = 'accepted', last_error = NULL"@
    ||| text
        == "dispatch_state = 'rejected', completed_at = statement_timestamp(), last_error = NULL"@
    ||| text == "dispatch_state = 'canceled', completed_at = statement_timestamp()"@
    ||| text
        == "observed_state = $2, result = $3, completed_at = statement_timestamp(), dispatch_state = 'accepted', last_error = NULL"@
    ||| text == "feedback = $3"@
    ||| text == "cancel_response = $2"@
    ||| text == "last_error = $2"@
}

/// Whether a statement records something of a goal.
pub open spec fn is_record(schema: Seq<char>, id: Seq<char>, statement: StatementView) -> bool {
    ||| exists|name: Seq<char>| statement == #[trigger] status_statement(schema, id, name)
    ||| exists|assignments: Seq<char>, text: Option<Seq<char>>, json: Option<JsonView>|
        is_assignment(assignments) && statement == #[trigger] update_statement(
            schema,
            id,
            assignments,
            text,
            json,
        )
}

/// Whether all statements record something of a goal.
pub open spec fn are_records(
    schema: Seq<char>,
    id: Seq<char>,
    statements: Seq<StatementView>,
) -> bool {
    forall|i: int| 0 <= i < statements.len() ==> is_record(schema, id, #[trigger] statements[i])
}

proof fn lemma_records_add(
    schema: Seq<char>,
    id: Seq<char>,
    a: Seq<StatementView>,
    b: Seq<StatementView>,
)
    requires
        are_records(schema, id, a),
        are_records(schema, id, b),
    ensures
        are_records(schema, id, a + b),
{
    assert forall|i: int| 0 <= i < (a + b).len() implies is_record(
        schema,
        id,
        #[trigger] (a + b)[i],
    ) by {
        if i < a.len() {
            assert(is_record(schema, id, a[i]));
        } else {
            assert(is_record(schema, id, b[i - a.len()]));
        }
    }
}

proof fn lemma_event_records(
    live: Live,
    schema: Seq<char>,
    id: Seq<char>,
    event: EventView,
    now: u64,
)
    ensures
        are_records(schema, id, handled(live, schema, id, event, now).1),
{
}

proof fn lemma_events_record(
    live: Live,
    schema: Seq<char>,
    id: Seq<char>,
    events: Seq<EventView>,
    now: u64,
)
    ensures
        are_records(schema, id, handled_all(live, schema, id, events, now).1),
    decreases events.len(),
{
    if events.len() > 0 {
        lemma_events_record(live, schema, id, events.drop_last(), now);
        let (before, statements) = handled_all(live, schema, id, events.drop_last(), now);
        if let Some(before) = before {
            lemma_event_records(before, schema, id, events.last(), now);
            lemma_records_add(
                schema,
                id,
                statements,
                handled(before, schema, id, events.last(), now).1,
            );
        }
    }
}

/// The statements of every turn record something of its goal, and none makes the
/// goal wait for dispatch again.
pub proof fn lemma_never_waits_again(
    bridge: BridgeView,
    schema: Seq<char>,
    row: GoalRowView,
    reply: Reply,
    now: u64,
)
    ensures
        are_records(schema, row.id, advanced(bridge, schema, row, reply, now).1.updates),
{
    if let Reply::Polled(Ok(events)) = reply {
        lemma_events_record(
            bridge.active[row.id],
            schema,
            row.id,
            event_views(events@),
            now,
        );
    }
}

} // verus!
