//! What holds of every goal, however its turns go.
use vstd::prelude::*;

use super::goal::{order_of, GoalRowView};
use super::transport::EventView;
use super::{
    advanced, claim_statement, failed, handled, listed, needs_clients, row_ids,
    update_statement, ActionView, BridgeView, Reply, RETRY,
};
use crate::json::JsonView;
use crate::time::LATEST;

verus! {

/// Whether a reply is one to an action.
pub open spec fn answers(action: ActionView, reply: Reply) -> bool {
    match action {
        ActionView::Open { .. } => reply is Opened,
        ActionView::Poll => reply is Polled,
        ActionView::AskReady => reply is Ready,
        ActionView::Claim(_) => reply is Claimed,
        ActionView::Send(_) => reply is Sent,
        ActionView::RequestResult => reply is Requested,
        ActionView::Cancel => reply is Canceled,
        ActionView::Finish => false,
    }
}

/// A reply, and when it came.
pub struct Step {
    pub reply: Reply,
    pub now: u64,
}

/// The bridge and the action after the steps of a run.
pub open spec fn after(
    bridge: BridgeView,
    schema: Seq<char>,
    row: GoalRowView,
    steps: Seq<Step>,
) -> (BridgeView, ActionView)
    decreases steps.len(),
{
    if steps.len() == 0 {
        (bridge, ActionView::Finish)
    } else {
        let (before, _) = after(bridge, schema, row, steps.drop_last());
        let (next, turn) = advanced(before, schema, row, steps.last().reply, steps.last().now);
        (next, turn.action)
    }
}

/// Whether a run begins with nothing done, and every further reply answers the
/// action before it.
pub open spec fn is_run(
    bridge: BridgeView,
    schema: Seq<char>,
    row: GoalRowView,
    steps: Seq<Step>,
) -> bool
    decreases steps.len(),
{
    if steps.len() == 0 {
        true
    } else if steps.len() == 1 {
        steps[0].reply is Begin && steps[0].now <= LATEST
    } else {
        &&& is_run(bridge, schema, row, steps.drop_last())
        &&& answers(after(bridge, schema, row, steps.drop_last()).1, steps.last().reply)
        &&& steps.last().now <= LATEST
    }
}

/// How many turns an action can still lead to.
pub open spec fn turns_left(action: ActionView) -> nat {
    match action {
        ActionView::Open { .. } => 5,
        ActionView::Poll => 4,
        ActionView::AskReady => 3,
        ActionView::Claim(_) => 2,
        ActionView::RequestResult => 2,
        ActionView::Send(_) => 1,
        ActionView::Cancel => 1,
        ActionView::Finish => 0,
    }
}

/// In every run a goal is sent only where it waited for dispatch, was not to be
/// canceled and was of a supported type, and where marking it for dispatch has
/// just been committed. A goal that was dispatched before is never sent again.
pub proof fn lemma_sent_once_claimed(
    bridge: BridgeView,
    schema: Seq<char>,
    row: GoalRowView,
    steps: Seq<Step>,
)
    requires
        is_run(bridge, schema, row, steps),
        steps.len() > 0,
        after(bridge, schema, row, steps).1 is Send,
    ensures
        row.pending && !row.cancel && row.supported,
        after(bridge, schema, row, steps).1 == ActionView::Send(order_of(row.goal)->Some_0),
        steps.last().reply == Reply::Claimed(true),
        after(bridge, schema, row, steps.drop_last()).1 == ActionView::Claim(
            claim_statement(schema, row.id),
        ),
{
    lemma_begun(bridge, schema, row, steps);
}

proof fn lemma_begun(
    bridge: BridgeView,
    schema: Seq<char>,
    row: GoalRowView,
    steps: Seq<Step>,
)
    requires
        is_run(bridge, schema, row, steps),
        steps.len() > 0,
    ensures
        !(after(bridge, schema, row, steps).1 is Finish) ==> !(row.pending && row.cancel)
            && row.supported,
        after(bridge, schema, row, steps).1 is Claim ==> row.pending && after(
            bridge,
            schema,
            row,
            steps,
        ).1 == ActionView::Claim(claim_statement(schema, row.id)),
        after(bridge, schema, row, steps).1 is RequestResult ==> !row.pending,
        after(bridge, schema, row, steps).1 is Cancel ==> !row.pending && row.cancel,
    decreases steps.len(),
{
    if steps.len() > 1 {
        lemma_begun(bridge, schema, row, steps.drop_last());
    }
}

/// A run finds the clients of its goal open wherever it needs them, so that
/// every reply to an action can be taken in.
pub proof fn lemma_clients_open(
    bridge: BridgeView,
    schema: Seq<char>,
    row: GoalRowView,
    steps: Seq<Step>,
)
    requires
        is_run(bridge, schema, row, steps),
        steps.len() > 0,
    ensures
        forall|reply: Reply|
            answers(after(bridge, schema, row, steps).1, reply) && #[trigger] needs_clients(reply)
                ==> after(bridge, schema, row, steps).0.active.dom().contains(row.id),
    decreases steps.len(),
{
    if steps.len() > 1 {
        lemma_clients_open(bridge, schema, row, steps.drop_last());
        assert(needs_clients(steps.last().reply) ==> after(
            bridge,
            schema,
            row,
            steps.drop_last(),
        ).0.active.dom().contains(row.id));
    }
}

/// A run comes to its end within six turns.
pub proof fn lemma_runs_end(
    bridge: BridgeView,
    schema: Seq<char>,
    row: GoalRowView,
    steps: Seq<Step>,
)
    requires
        is_run(bridge, schema, row, steps),
        steps.len() > 0,
    ensures
        steps.len() + turns_left(after(bridge, schema, row, steps).1) <= 6,
    decreases steps.len(),
{
    if steps.len() > 1 {
        lemma_runs_end(bridge, schema, row, steps.drop_last());
    }
}

/// Cancellation before dispatch is resolved locally: the goal is marked as
/// canceled and completed, and nothing is asked of ROS.
pub proof fn lemma_canceled_before_dispatch(
    bridge: BridgeView,
    schema: Seq<char>,
    row: GoalRowView,
    now: u64,
)
    requires
        row.pending,
        row.cancel,
    ensures
        advanced(bridge, schema, row, Reply::Begin, now).1.action is Finish,
        advanced(bridge, schema, row, Reply::Begin, now).1.updates == seq![
            update_statement(
                schema,
                row.id,
                "dispatch_state = 'canceled', completed_at = statement_timestamp()"@,
                None,
                None,
            ),
        ],
{
}

/// A goal that failed rests for five seconds.
pub proof fn lemma_failure_rests(
    bridge: BridgeView,
    schema: Seq<char>,
    id: Seq<char>,
    error: Seq<char>,
    now: u64,
    later: u64,
)
    requires
        now <= LATEST,
        later < now + RETRY,
    ensures
        ({
            let rested = failed(bridge, schema, id, error, now).0;
            rested.retry.dom().contains(id) && later < rested.retry[id]
        }),
{
}

/// Turns leave other goals alone, and open no clients but those of their goal.
pub proof fn lemma_other_goals(
    bridge: BridgeView,
    schema: Seq<char>,
    row: GoalRowView,
    reply: Reply,
    now: u64,
    other: Seq<char>,
)
    requires
        other != row.id,
    ensures
        ({
            let next = advanced(bridge, schema, row, reply, now).0;
            &&& next.extension == bridge.extension
            &&& next.active.dom().contains(other) == bridge.active.dom().contains(other)
            &&& bridge.active.dom().contains(other) ==> next.active[other] == bridge.active[other]
            &&& next.retry.dom().contains(other) == bridge.retry.dom().contains(other)
            &&& bridge.retry.dom().contains(other) ==> next.retry[other] == bridge.retry[other]
        }),
{
}

/// Clients are open only for goals that are listed, of the extension that is
/// installed; there are no more of them than rows.
pub proof fn lemma_active_listed(bridge: BridgeView, extension: u32, rows: Seq<GoalRowView>)
    ensures
        listed(bridge, extension, rows).extension == Some(extension),
        listed(bridge, extension, rows).active.dom().subset_of(row_ids(rows)),
        listed(bridge, extension, rows).retry.dom().subset_of(row_ids(rows)),
        listed(bridge, extension, rows).active.dom().finite(),
        listed(bridge, extension, rows).active.dom().len() <= rows.len(),
{
    let active = listed(bridge, extension, rows).active;
    let ids = rows.map_values(|row: GoalRowView| row.id);
    assert forall|id: Seq<char>| #[trigger] row_ids(rows).contains(id) implies ids.to_set().contains(
        id,
    ) by {
        let i = choose|i: int| 0 <= i < rows.len() && (#[trigger] rows[i]).id == id;
        assert(ids[i] == id);
    }
    ids.lemma_cardinality_of_set();
    vstd::set_lib::lemma_len_subset(active.dom(), ids.to_set());
}

/// A goal whose end the server has told, or which it rejected, is gone.
pub proof fn lemma_ended_goals_go(
    live: super::Live,
    schema: Seq<char>,
    id: Seq<char>,
    event: EventView,
    now: u64,
)
    ensures
        handled(live, schema, id, event, now).0 is None <==> event == EventView::Accepted(false) || (
        event matches EventView::Result(code, _) && 4 <= code <= 6),
{
}

/// The text of an update holds nothing of what ROS or a user has sent.
pub proof fn lemma_payloads_apart(
    schema: Seq<char>,
    id: Seq<char>,
    other: Seq<char>,
    assignments: Seq<char>,
    text: Option<Seq<char>>,
    other_text: Option<Seq<char>>,
    json: Option<JsonView>,
    other_json: Option<JsonView>,
)
    ensures
        update_statement(schema, id, assignments, text, json).sql == update_statement(
            schema,
            other,
            assignments,
            other_text,
            other_json,
        ).sql,
{
}

} // verus!
