//! What is done for a goal in each of its turns.
use vstd::prelude::*;

use super::goal::{order_of, uuid_of, GoalRowView};
use super::records::{binds, setting};
use super::transport::event_views;
use super::{
    advanced, handled_all, listed, opening, ActionView, BridgeView, Live, Reply, TurnView,
};
use crate::sql::ArgumentView;

verus! {

/// Whether a turn does nothing but name an action.
pub open spec fn only(turn: TurnView, action: ActionView) -> bool {
    turn.updates.len() == 0 && turn.warning is None && turn.action == action
}

/// Whether a turn ends with an error: it is recorded and warned of, the clients of
/// the goal are closed, and the goal rests for five seconds.
pub open spec fn gives_up(
    after: BridgeView,
    turn: TurnView,
    schema: Seq<char>,
    id: Seq<char>,
    error: Seq<char>,
    now: u64,
) -> bool {
    &&& turn.action is Finish
    &&& turn.updates.len() == 1
    &&& binds(turn.updates[0], setting(schema, "last_error = $2"@), id, Some(error), None)
    &&& turn.warning == Some(
        "pg_ros2 event=action_transport_failed goal_id="@ + id + " error="@ + error,
    )
    &&& !after.active.dom().contains(id)
    &&& after.retry.dom().contains(id)
    &&& after.retry[id] == now + 5000
}

/// Whether the clients of a goal are open, and have been for less than their time.
pub open spec fn has_clients(bridge: BridgeView, id: Seq<char>, now: u64) -> bool {
    bridge.active.dom().contains(id) && now < bridge.active[id].reconnect_at
}

/// A goal has its clients opened exactly where it is not canceled before it was
/// dispatched, its action type is known and it has no clients yet.
pub proof fn lemma_clients_wanted(bridge: BridgeView, row: GoalRowView, now: u64)
    ensures
        row.pending && row.cancel ==> !opening(bridge, row, now),
        !row.supported ==> !opening(bridge, row, now),
        has_clients(bridge, row.id, now) ==> !opening(bridge, row, now),
        row.supported && !has_clients(bridge, row.id, now) && (!row.pending || !row.cancel)
            ==> opening(bridge, row, now),
{
}

/// The first turn of a goal that is to be canceled and was not dispatched completes
/// it as canceled. One of another action type ends with an error. Any other goal is
/// polled where its clients are open; else they are opened, under the name of its
/// action and for the bytes of its identifier, or it ends with the error of the
/// identifier.
pub proof fn lemma_begins(bridge: BridgeView, schema: Seq<char>, row: GoalRowView, now: u64)
    requires
        now + 5000 <= u64::MAX,
    ensures
        ({
            let (after, turn) = advanced(bridge, schema, row, Reply::Begin, now);
            if row.pending && row.cancel {
                &&& turn.action is Finish
                &&& turn.warning is None
                &&& turn.updates.len() == 1
                &&& binds(
                    turn.updates[0],
                    setting(
                        schema,
                        "dispatch_state = 'canceled', completed_at = statement_timestamp()"@,
                    ),
                    row.id,
                    None,
                    None,
                )
                &&& !after.active.dom().contains(row.id)
            } else if !row.supported {
                gives_up(
                    after,
                    turn,
                    schema,
                    row.id,
                    "unsupported action type in action_goals"@,
                    now,
                )
            } else if has_clients(bridge, row.id, now) {
                only(turn, ActionView::Poll) && after == bridge
            } else {
                match uuid_of(row.id) {
                    Err(error) => gives_up(after, turn, schema, row.id, error, now),
                    Ok(uuid) => {
                        &&& row.action_name matches Some(name) ==> only(
                            turn,
                            ActionView::Open { name, uuid },
                        )
                        &&& !after.active.dom().contains(row.id)
                    },
                }
            }
        }),
{
}

/// Clients that were opened are kept for 30 seconds and polled at once; the result
/// and the cancellation can be asked for from now on. An error ends the turn.
pub proof fn lemma_opens(
    bridge: BridgeView,
    schema: Seq<char>,
    row: GoalRowView,
    error: String,
    now: u64,
)
    requires
        now + 30000 <= u64::MAX,
    ensures
        ({
            let (after, turn) = advanced(bridge, schema, row, Reply::Opened(Ok(())), now);
            &&& only(turn, ActionView::Poll)
            &&& after.active.dom().contains(row.id)
            &&& after.active[row.id] == (Live {
                reconnect_at: (now + 30000) as u64,
                result_at: now,
                cancel_at: now,
                awaiting_acceptance: false,
            })
        }),
        ({
            let (after, turn) = advanced(bridge, schema, row, Reply::Opened(Err(error)), now);
            gives_up(after, turn, schema, row.id, error@, now)
        }),
{
}

/// A poll records what it tells. A goal that has come to its end is gone, and its
/// turn over; for any other the services are asked for. An error ends the turn.
pub proof fn lemma_polls(
    bridge: BridgeView,
    schema: Seq<char>,
    row: GoalRowView,
    events: Vec<super::transport::Event>,
    error: String,
    now: u64,
)
    requires
        now + 5000 <= u64::MAX,
        bridge.active.dom().contains(row.id),
    ensures
        ({
            let (after, turn) = advanced(bridge, schema, row, Reply::Polled(Ok(events)), now);
            let (kept, told) = handled_all(
                bridge.active[row.id],
                schema,
                row.id,
                event_views(events@),
                now,
            );
            &&& turn.updates == told
            &&& turn.warning is None
            &&& kept is None ==> turn.action is Finish && !after.active.dom().contains(row.id)
            &&& kept is Some ==> turn.action is AskReady && after.active.dom().contains(row.id)
                && after.active[row.id] == kept->Some_0
            &&& after.retry == bridge.retry
        }),
        ({
            let (after, turn) = advanced(bridge, schema, row, Reply::Polled(Err(error)), now);
            gives_up(after, turn, schema, row.id, error@, now)
        }),
{
}

/// Where the services are not there, the turn is over. Where they are, a goal that
/// waits for dispatch is claimed; one whose acceptance is not awaited any more has
/// its result asked for as soon as that is due; and one that is to be canceled, and
/// whose cancellation the server has not refused, is asked to be canceled where
/// that is due. Nothing else is done, and nothing changes. An error ends the turn.
pub proof fn lemma_asks(
    bridge: BridgeView,
    schema: Seq<char>,
    row: GoalRowView,
    ready: bool,
    error: String,
    now: u64,
)
    requires
        now + 5000 <= u64::MAX,
        bridge.active.dom().contains(row.id),
    ensures
        ({
            let (after, turn) = advanced(bridge, schema, row, Reply::Ready(Ok(ready)), now);
            let live = bridge.active[row.id];
            &&& after == bridge
            &&& turn.updates.len() == 0
            &&& turn.warning is None
            &&& !ready ==> turn.action is Finish
            &&& ready && row.pending ==> {
                &&& turn.action is Claim
                &&& turn.action->Claim_0.arguments == seq![ArgumentView::Text(Some(row.id))]
            }
            &&& ready && !row.pending && !live.awaiting_acceptance && now >= live.result_at
                ==> turn.action is RequestResult
            &&& ready && !row.pending && (live.awaiting_acceptance || now < live.result_at) ==> (
            if row.cancel && !row.cancel_rejected && now >= live.cancel_at {
                turn.action is Cancel
            } else {
                turn.action is Finish
            })
        }),
        ({
            let (after, turn) = advanced(bridge, schema, row, Reply::Ready(Err(error)), now);
            gives_up(after, turn, schema, row.id, error@, now)
        }),
{
}

/// A goal that was claimed is sent with its order, and its acceptance awaited; the
/// clients are opened anew after five seconds without an answer. A goal without an
/// order ends with an error. One that was not claimed is left alone.
pub proof fn lemma_sends(
    bridge: BridgeView,
    schema: Seq<char>,
    row: GoalRowView,
    error: String,
    now: u64,
)
    requires
        now + 5000 <= u64::MAX,
        bridge.active.dom().contains(row.id),
    ensures
        ({
            let (after, turn) = advanced(bridge, schema, row, Reply::Claimed(true), now);
            match order_of(row.goal) {
                Some(order) => {
                    &&& only(turn, ActionView::Send(order))
                    &&& after.active.dom().contains(row.id)
                    &&& after.active[row.id].awaiting_acceptance
                    &&& after.active[row.id].reconnect_at == now + 5000
                    &&& after.active[row.id].result_at == bridge.active[row.id].result_at
                    &&& after.active[row.id].cancel_at == bridge.active[row.id].cancel_at
                },
                None => gives_up(after, turn, schema, row.id, "invalid Fibonacci goal"@, now),
            }
        }),
        ({
            let (after, turn) = advanced(bridge, schema, row, Reply::Claimed(false), now);
            only(turn, ActionView::Finish) && after == bridge
        }),
        ({
            let (after, turn) = advanced(bridge, schema, row, Reply::Sent(Ok(())), now);
            only(turn, ActionView::Finish) && after == bridge
        }),
        ({
            let (after, turn) = advanced(bridge, schema, row, Reply::Sent(Err(error)), now);
            gives_up(after, turn, schema, row.id, error@, now)
        }),
{
}

/// Once the result was asked for, a goal that is to be canceled is asked to be
/// where that is due. A second request to cancel comes at the earliest five seconds
/// after the first. An error ends the turn.
pub proof fn lemma_cancels(
    bridge: BridgeView,
    schema: Seq<char>,
    row: GoalRowView,
    error: String,
    now: u64,
)
    requires
        now + 5000 <= u64::MAX,
        bridge.active.dom().contains(row.id),
    ensures
        ({
            let (after, turn) = advanced(bridge, schema, row, Reply::Requested(Ok(())), now);
            &&& after == bridge
            &&& only(
                turn,
                if row.cancel && !row.cancel_rejected && now >= bridge.active[row.id].cancel_at {
                    ActionView::Cancel
                } else {
                    ActionView::Finish
                },
            )
        }),
        ({
            let (after, turn) = advanced(bridge, schema, row, Reply::Canceled(Ok(())), now);
            let live = bridge.active[row.id];
            &&& only(turn, ActionView::Finish)
            &&& after.active.dom().contains(row.id)
            &&& after.active[row.id] == (Live { cancel_at: (now + 5000) as u64, ..live })
        }),
        ({
            let (after, turn) = advanced(bridge, schema, row, Reply::Requested(Err(error)), now);
            gives_up(after, turn, schema, row.id, error@, now)
        }),
        ({
            let (after, turn) = advanced(bridge, schema, row, Reply::Canceled(Err(error)), now);
            gives_up(after, turn, schema, row.id, error@, now)
        }),
{
}

/// What is known of a goal is kept for as long as it is listed by one installation,
/// and forgotten with the first listing that lacks it or with another installation.
pub proof fn lemma_keeps_listed(
    bridge: BridgeView,
    extension: u32,
    rows: Seq<GoalRowView>,
    id: Seq<char>,
)
    ensures
        ({
            let after = listed(bridge, extension, rows);
            let kept = bridge.extension == Some(extension) && exists|i: int|
                0 <= i < rows.len() && (#[trigger] rows[i]).id == id;
            &&& after.extension == Some(extension)
            &&& after.active.dom().contains(id) <==> kept && bridge.active.dom().contains(id)
            &&& after.active.dom().contains(id) ==> after.active[id] == bridge.active[id]
            &&& after.retry.dom().contains(id) <==> kept && bridge.retry.dom().contains(id)
            &&& after.retry.dom().contains(id) ==> after.retry[id] == bridge.retry[id]
        }),
{
}

} // verus!
