//! Durable intent to run ROS actions, reconciled with what the servers say.
//!
//! The bridge decides; its caller talks to the database and to ROS. A goal is
//! advanced by turns: each turn takes what came of the last action, and names
//! the statements to run and the next action.
use vstd::prelude::*;
use vstd::string::*;

use crate::json::Json;
use crate::json::JsonView;
use crate::sql::{Argument, Statement};
use crate::sql::{statement_views, ArgumentView, StatementView};
use crate::table::Table;
use crate::text::{combine, render_integer};
use crate::text::integer_text;
use crate::time::LATEST;

use goal::{order, uuid_bytes, GoalRow};
use goal::{order_of, row_views, uuid_of, GoalRowView};
use transport::Event;
use transport::{event_views, EventView};

pub mod dispatch;
pub mod goal;
pub mod identity;
pub mod laws;
pub mod records;
pub mod telemetry;
pub mod transport;
pub mod turns;

verus! {

/// How long a goal rests after a failure, or between two requests.
pub const RETRY: u64 = 5000;

/// How long the clients of a goal are kept.
pub const RECONNECT: u64 = 30000;

/// How many goals are advanced at a time.
pub const MAX_ACTIVE: usize = 64;

/// The clock of a goal whose clients are open.
#[derive(Clone, Copy)]
pub struct Live {
    pub reconnect_at: u64,
    pub result_at: u64,
    pub cancel_at: u64,
    pub awaiting_acceptance: bool,
}

/// The goals under way, and those that rest after a failure.
pub struct Bridge {
    pub extension: Option<u32>,
    pub active: Table<Live>,
    pub retry: Table<u64>,
}

/// The mathematical content of a [`Bridge`].
#[verifier::ext_equal]
pub struct BridgeView {
    pub extension: Option<u32>,
    pub active: Map<Seq<char>, Live>,
    pub retry: Map<Seq<char>, u64>,
}

impl View for Bridge {
    type V = BridgeView;

    open spec fn view(&self) -> BridgeView {
        BridgeView { extension: self.extension, active: self.active@, retry: self.retry@ }
    }
}

/// What came of the last action on a goal.
pub enum Reply {
    /// Nothing was done yet.
    Begin,
    Opened(Result<(), String>),
    Polled(Result<Vec<Event>, String>),
    Ready(Result<bool, String>),
    /// Whether the goal was marked for dispatch, and the mark committed.
    Claimed(bool),
    Sent(Result<(), String>),
    Requested(Result<(), String>),
    Canceled(Result<(), String>),
}

/// What is to be done for a goal.
pub enum Action {
    /// Open the clients of an action.
    Open { name: String, uuid: Vec<u8> },
    /// Look what has come back.
    Poll,
    /// Ask whether the services are there.
    AskReady,
    /// Run a statement that marks the goal for dispatch, commit, and hand back
    /// whether it did.
    Claim(Statement),
    /// Send the goal.
    Send(i32),
    RequestResult,
    Cancel,
    Finish,
}

/// The mathematical content of an [`Action`].
pub enum ActionView {
    Open { name: Seq<char>, uuid: Seq<u8> },
    Poll,
    AskReady,
    Claim(StatementView),
    Send(int),
    RequestResult,
    Cancel,
    Finish,
}

impl View for Action {
    type V = ActionView;

    open spec fn view(&self) -> ActionView {
        match self {
            Action::Open { name, uuid } => ActionView::Open { name: name@, uuid: uuid@ },
            Action::Poll => ActionView::Poll,
            Action::AskReady => ActionView::AskReady,
            Action::Claim(statement) => ActionView::Claim(statement@),
            Action::Send(order) => ActionView::Send(*order as int),
            Action::RequestResult => ActionView::RequestResult,
            Action::Cancel => ActionView::Cancel,
            Action::Finish => ActionView::Finish,
        }
    }
}

/// The statements to run, each in a transaction of its own and in order, a
/// warning to give, and the action to take then.
pub struct Turn {
    pub updates: Vec<Statement>,
    pub warning: Option<String>,
    pub action: Action,
}

/// The mathematical content of a [`Turn`].
pub struct TurnView {
    pub updates: Seq<StatementView>,
    pub warning: Option<Seq<char>>,
    pub action: ActionView,
}

impl View for Turn {
    type V = TurnView;

    open spec fn view(&self) -> TurnView {
        TurnView {
            updates: statement_views(self.updates@),
            warning: crate::sql::text_view(self.warning),
            action: self.action@,
        }
    }
}

/// The query that lists the goals to advance.
pub open spec fn rows_query(schema: Seq<char>) -> Seq<char> {
    "SELECT coalesce(jsonb_agg(to_jsonb(g)), '[]'::jsonb) FROM (SELECT goal_id, action_name, action_type, goal, desired_state, dispatch_state, cancel_response FROM "@
        + schema
        + ".action_goals WHERE completed_at IS NULL ORDER BY created_at, goal_id LIMIT "@
        + integer_text(MAX_ACTIVE as int) + ") g"@
}

/// The query that lists the goals to advance.
pub fn rows_sql(schema: &str) -> (sql: String)
    ensures
        sql@ == rows_query(schema@),
{
    let mut sql = combine(
        "SELECT coalesce(jsonb_agg(to_jsonb(g)), '[]'::jsonb) FROM (SELECT goal_id, action_name, action_type, goal, desired_state, dispatch_state, cancel_response FROM ",
        schema,
    );
    sql.append(".action_goals WHERE completed_at IS NULL ORDER BY created_at, goal_id LIMIT ");
    sql.append(render_integer(MAX_ACTIVE as i128).as_str());
    sql.append(") g");
    sql
}

/// The statement that changes columns of a goal that is not completed. It
/// always has all three parameters, so that no payload stands in its text.
pub open spec fn update_statement(
    schema: Seq<char>,
    id: Seq<char>,
    assignments: Seq<char>,
    text: Option<Seq<char>>,
    json: Option<JsonView>,
) -> StatementView {
    StatementView {
        sql: "UPDATE "@ + schema + ".action_goals SET "@ + assignments
            + ", updated_at=statement_timestamp() WHERE goal_id=$1::uuid AND completed_at IS NULL AND ($2::text IS NULL OR true) AND ($3::jsonb IS NULL OR true)"@,
        arguments: seq![
            ArgumentView::Text(Some(id)),
            ArgumentView::Text(text),
            ArgumentView::Json(json),
        ],
    }
}

/// Changes columns of a goal that is not completed.
pub fn update(
    schema: &str,
    id: &str,
    assignments: &str,
    text: Option<String>,
    json: Option<Json>,
) -> (statement: Statement)
    ensures
        statement@ == update_statement(
            schema@,
            id@,
            assignments@,
            crate::sql::text_view(text),
            crate::sql::json_view(json),
        ),
{
    let mut sql = combine("UPDATE ", schema);
    sql.append(".action_goals SET ");
    sql.append(assignments);
    sql.append(
        ", updated_at=statement_timestamp() WHERE goal_id=$1::uuid AND completed_at IS NULL AND ($2::text IS NULL OR true) AND ($3::jsonb IS NULL OR true)",
    );
    let statement = Statement {
        sql,
        arguments: vec![
            Argument::Text(Some(id.to_owned())),
            Argument::Text(text),
            Argument::Json(json),
        ],
    };
    assert(statement@.arguments =~= seq![
        ArgumentView::Text(Some(id@)),
        ArgumentView::Text(crate::sql::text_view(text)),
        ArgumentView::Json(crate::sql::json_view(json)),
    ]);
    statement
}

/// The name of a status of a goal.
pub open spec fn state_name(code: i8) -> Option<Seq<char>> {
    if code == 1 {
        Some("accepted"@)
    } else if code == 2 {
        Some("executing"@)
    } else if code == 3 {
        Some("canceling"@)
    } else if code == 4 {
        Some("succeeded"@)
    } else if code == 5 {
        Some("canceled"@)
    } else if code == 6 {
        Some("aborted"@)
    } else {
        None
    }
}

/// The name of a status of a goal.
pub fn state(code: i8) -> (result: Option<&'static str>)
    ensures
        match state_name(code) {
            Some(name) => result is Some && result->Some_0@ == name,
            None => result is None,
        },
{
    match code {
        1 => Some("accepted"),
        2 => Some("executing"),
        3 => Some("canceling"),
        4 => Some("succeeded"),
        5 => Some("canceled"),
        6 => Some("aborted"),
        _ => None,
    }
}

/// The statement that moves the observed state of a goal forward. It does
/// nothing to a goal that is further along already.
pub open spec fn status_statement(
    schema: Seq<char>,
    id: Seq<char>,
    name: Seq<char>,
) -> StatementView {
    StatementView {
        sql: "UPDATE "@ + schema
            + ".action_goals SET observed_state=$2, dispatch_state='accepted', updated_at=statement_timestamp() WHERE goal_id=$1::uuid AND completed_at IS NULL AND array_position(ARRAY['unknown','accepted','executing','canceling','succeeded','canceled','aborted'], observed_state) < array_position(ARRAY['unknown','accepted','executing','canceling','succeeded','canceled','aborted'], $2) AND observed_state NOT IN ('succeeded','canceled','aborted')"@,
        arguments: seq![ArgumentView::Text(Some(id)), ArgumentView::Text(Some(name))],
    }
}

/// The statements that record a status: none where it has no name.
pub open spec fn status_statements(schema: Seq<char>, id: Seq<char>, code: i8) -> Seq<
    StatementView,
> {
    match state_name(code) {
        Some(name) => seq![status_statement(schema, id, name)],
        None => Seq::empty(),
    }
}

/// Records a status of a goal.
pub fn status(schema: &str, id: &str, code: i8) -> (result: Option<Statement>)
    ensures
        match state_name(code) {
            Some(name) => result is Some && result->Some_0@ == status_statement(
                schema@,
                id@,
                name,
            ),
            None => result is None,
        },
{
    match state(code) {
        None => None,
        Some(name) => {
            let mut sql = combine("UPDATE ", schema);
            sql.append(
                ".action_goals SET observed_state=$2, dispatch_state='accepted', updated_at=statement_timestamp() WHERE goal_id=$1::uuid AND completed_at IS NULL AND array_position(ARRAY['unknown','accepted','executing','canceling','succeeded','canceled','aborted'], observed_state) < array_position(ARRAY['unknown','accepted','executing','canceling','succeeded','canceled','aborted'], $2) AND observed_state NOT IN ('succeeded','canceled','aborted')",
            );
            let statement = Statement {
                sql,
                arguments: vec![
                    Argument::Text(Some(id.to_owned())),
                    Argument::Text(Some(name.to_owned())),
                ],
            };
            assert(statement@.arguments =~= seq![
                ArgumentView::Text(Some(id@)),
                ArgumentView::Text(Some(name@)),
            ]);
            Some(statement)
        },
    }
}

/// The statement that marks a goal for dispatch, if it still waits for it.
pub open spec fn claim_statement(schema: Seq<char>, id: Seq<char>) -> StatementView {
    StatementView {
        sql: "WITH claimed AS (UPDATE "@ + schema
            + ".action_goals SET dispatch_state='uncertain', updated_at=statement_timestamp() WHERE goal_id=$1::uuid AND dispatch_state='pending' AND desired_state='run' AND completed_at IS NULL RETURNING 1) SELECT EXISTS (SELECT FROM claimed)"@,
        arguments: seq![ArgumentView::Text(Some(id))],
    }
}

/// Marks a goal for dispatch, if it still waits for it.
pub fn claim(schema: &str, id: &str) -> (statement: Statement)
    ensures
        statement@ == claim_statement(schema@, id@),
{
    let mut sql = combine("WITH claimed AS (UPDATE ", schema);
    sql.append(
        ".action_goals SET dispatch_state='uncertain', updated_at=statement_timestamp() WHERE goal_id=$1::uuid AND dispatch_state='pending' AND desired_state='run' AND completed_at IS NULL RETURNING 1) SELECT EXISTS (SELECT FROM claimed)",
    );
    let statement = Statement { sql, arguments: vec![Argument::Text(Some(id.to_owned()))] };
    assert(statement@.arguments =~= seq![ArgumentView::Text(Some(id@))]);
    statement
}

/// What an answer to a request to cancel means.
pub open spec fn cancel_response(code: i8, named: bool) -> Seq<char> {
    if code == 0 && named {
        "accepted"@
    } else if code == 1 {
        "rejected"@
    } else if code == 2 {
        "unknown"@
    } else if code == 3 {
        "terminated"@
    } else {
        "unconfirmed"@
    }
}

/// What an answer to a request to cancel means.
pub fn response(code: i8, named: bool) -> (text: &'static str)
    ensures
        text@ == cancel_response(code, named),
{
    match (code, named) {
        (0, true) => "accepted",
        (1, _) => "rejected",
        (2, _) => "unknown",
        (3, _) => "terminated",
        _ => "unconfirmed",
    }
}

/// What an event does to a goal, and the statements that record it. A goal
/// that has come to its end is gone.
pub open spec fn handled(
    live: Live,
    schema: Seq<char>,
    id: Seq<char>,
    event: EventView,
    now: u64,
) -> (Option<Live>, Seq<StatementView>) {
    match event {
        EventView::Accepted(accepted) => if accepted {
            (
                Some(
                    Live {
                        awaiting_acceptance: false,
                        reconnect_at: (now + RECONNECT) as u64,
                        ..live
                    },
                ),
                seq![
                    update_statement(
                        schema,
                        id,
                        "dispatch_state = 'accepted', last_error = NULL"@,
                        None,
                        None,
                    ),
                ] + status_statements(schema, id, 1),
            )
        } else {
            (
                None,
                seq![
                    update_statement(
                        schema,
                        id,
                        "dispatch_state = 'rejected', completed_at = statement_timestamp(), last_error = NULL"@,
                        None,
                        None,
                    ),
                ],
            )
        },
        EventView::Status(code) => (Some(live), status_statements(schema, id, code)),
        EventView::Feedback(value) => (
            Some(live),
            seq![update_statement(schema, id, "feedback = $3"@, None, Some(value))],
        ),
        EventView::Cancel(code, named) => (
            Some(live),
            seq![
                update_statement(
                    schema,
                    id,
                    "cancel_response = $2"@,
                    Some(cancel_response(code, named)),
                    None,
                ),
            ],
        ),
        EventView::Result(code, result) => if 4 <= code <= 6 {
            (
                None,
                seq![
                    update_statement(
                        schema,
                        id,
                        "observed_state = $2, result = $3, completed_at = statement_timestamp(), dispatch_state = 'accepted', last_error = NULL"@,
                        state_name(code),
                        Some(result),
                    ),
                ],
            )
        } else {
            (
                Some(Live { result_at: (now + RETRY) as u64, ..live }),
                seq![
                    update_statement(
                        schema,
                        id,
                        "last_error = $2"@,
                        Some(
                            "server cannot establish the result; goal will not be resubmitted"@,
                        ),
                        None,
                    ),
                ],
            )
        },
    }
}

/// What events do to a goal, one after the other, until it has come to its
/// end.
pub open spec fn handled_all(
    live: Live,
    schema: Seq<char>,
    id: Seq<char>,
    events: Seq<EventView>,
    now: u64,
) -> (Option<Live>, Seq<StatementView>)
    decreases events.len(),
{
    if events.len() == 0 {
        (Some(live), Seq::empty())
    } else {
        let (before, statements) = handled_all(live, schema, id, events.drop_last(), now);
        match before {
            None => (None, statements),
            Some(before) => {
                let (after, more) = handled(before, schema, id, events.last(), now);
                (after, statements + more)
            },
        }
    }
}

/// Takes in an event; `None` where the goal has come to its end. Appends the
/// statements that record the event.
fn handle(
    live: Live,
    schema: &str,
    id: &str,
    event: &Event,
    now: u64,
    statements: &mut Vec<Statement>,
) -> (result: Option<Live>)
    requires
        now <= LATEST,
    ensures
        result == handled(live, schema@, id@, event@, now).0,
        statement_views(final(statements)@) == statement_views(old(statements)@) + handled(
            live,
            schema@,
            id@,
            event@,
            now,
        ).1,
{
    let ghost before = statement_views(statements@);
    let mut live = live;
    match event {
        Event::Accepted(true) => {
            live.awaiting_acceptance = false;
            live.reconnect_at = now + RECONNECT;
            statements.push(
                update(schema, id, "dispatch_state = 'accepted', last_error = NULL", None, None),
            );
            if let Some(statement) = status(schema, id, 1) {
                statements.push(statement);
            }
        },
        Event::Accepted(false) => {
            statements.push(
                update(
                    schema,
                    id,
                    "dispatch_state = 'rejected', completed_at = statement_timestamp(), last_error = NULL",
                    None,
                    None,
                ),
            );
            assert(statement_views(statements@) =~= before + handled(
                live,
                schema@,
                id@,
                event@,
                now,
            ).1);
            return None;
        },
        Event::Status(code) => {
            if let Some(statement) = status(schema, id, *code) {
                statements.push(statement);
            }
        },
        Event::Feedback(value) => {
            statements.push(update(schema, id, "feedback = $3", None, Some(value.copy())));
        },
        Event::Cancel(code, named) => {
            let text = response(*code, *named);
            statements.push(update(schema, id, "cancel_response = $2", Some(text.to_owned()), None));
        },
        Event::Result(code, result) => {
            if 4 <= *code && *code <= 6 {
                let name = match state(*code) {
                    Some(name) => Some(name.to_owned()),
                    None => None,
                };
                statements.push(
                    update(
                        schema,
                        id,
                        "observed_state = $2, result = $3, completed_at = statement_timestamp(), dispatch_state = 'accepted', last_error = NULL",
                        name,
                        Some(result.copy()),
                    ),
                );
                assert(statement_views(statements@) =~= before + handled(
                    live,
                    schema@,
                    id@,
                    event@,
                    now,
                ).1);
                return None;
            }
            statements.push(
                update(
                    schema,
                    id,
                    "last_error = $2",
                    Some(
                        "server cannot establish the result; goal will not be resubmitted".to_owned(),
                    ),
                    None,
                ),
            );
            live.result_at = now + RETRY;
        },
    }
    assert(statement_views(statements@) =~= before + handled(
        live,
        schema@,
        id@,
        event@,
        now,
    ).1);
    Some(live)
}

/// The bridge and the turn after a failure: the goal rests, its clients are
/// closed, and the error is recorded.
pub open spec fn failed(
    bridge: BridgeView,
    schema: Seq<char>,
    id: Seq<char>,
    error: Seq<char>,
    now: u64,
) -> (BridgeView, TurnView) {
    (
        BridgeView {
            extension: bridge.extension,
            active: bridge.active.remove(id),
            retry: bridge.retry.insert(id, (now + RETRY) as u64),
        },
        TurnView {
            updates: seq![update_statement(schema, id, "last_error = $2"@, Some(error), None)],
            warning: Some(
                "pg_ros2 event=action_transport_failed goal_id="@ + id + " error="@ + error,
            ),
            action: ActionView::Finish,
        },
    )
}

/// A turn that names an action and nothing else.
pub open spec fn just(action: ActionView) -> TurnView {
    TurnView { updates: Seq::empty(), warning: None, action }
}

/// The goals under way without one whose clients have been kept long enough.
/// Clients are opened anew from time to time to recover lost replies and
/// restarted servers, which also bounds what they keep in memory.
pub open spec fn refreshed(active: Map<Seq<char>, Live>, id: Seq<char>, now: u64) -> Map<
    Seq<char>,
    Live,
> {
    if active.dom().contains(id) && now >= active[id].reconnect_at {
        active.remove(id)
    } else {
        active
    }
}

/// Whether a goal has its clients opened when it is looked at: it must have the
/// name of an action.
pub open spec fn opening(bridge: BridgeView, row: GoalRowView, now: u64) -> bool {
    &&& !(row.pending && row.cancel)
    &&& row.supported
    &&& !refreshed(bridge.active, row.id, now).dom().contains(row.id)
}

/// The action that cancels a goal where it is time to ask for that.
pub open spec fn cancel_action(row: GoalRowView, live: Live, now: u64) -> ActionView {
    if row.cancel && !row.cancel_rejected && now >= live.cancel_at {
        ActionView::Cancel
    } else {
        ActionView::Finish
    }
}

/// The bridge and the turn after a reply.
pub open spec fn advanced(
    bridge: BridgeView,
    schema: Seq<char>,
    row: GoalRowView,
    reply: Reply,
    now: u64,
) -> (BridgeView, TurnView) {
    let id = row.id;
    let live = bridge.active[id];
    match reply {
        Reply::Begin => if row.pending && row.cancel {
            (
                BridgeView { active: bridge.active.remove(id), ..bridge },
                TurnView {
                    updates: seq![
                        update_statement(
                            schema,
                            id,
                            "dispatch_state = 'canceled', completed_at = statement_timestamp()"@,
                            None,
                            None,
                        ),
                    ],
                    warning: None,
                    action: ActionView::Finish,
                },
            )
        } else if !row.supported {
            failed(bridge, schema, id, "unsupported action type in action_goals"@, now)
        } else {
            let kept = BridgeView { active: refreshed(bridge.active, id, now), ..bridge };
            if kept.active.dom().contains(id) {
                (kept, just(ActionView::Poll))
            } else {
                match uuid_of(id) {
                    Ok(uuid) => (kept, just(ActionView::Open { name: row.action_name->Some_0, uuid })),
                    Err(error) => failed(kept, schema, id, error, now),
                }
            }
        },
        Reply::Opened(result) => match result {
            Ok(_) => (
                BridgeView {
                    active: bridge.active.insert(
                        id,
                        Live {
                            reconnect_at: (now + RECONNECT) as u64,
                            result_at: now,
                            cancel_at: now,
                            awaiting_acceptance: false,
                        },
                    ),
                    ..bridge
                },
                just(ActionView::Poll),
            ),
            Err(error) => failed(bridge, schema, id, error@, now),
        },
        Reply::Polled(result) => match result {
            Ok(events) => {
                let (after, updates) = handled_all(live, schema, id, event_views(events@), now);
                match after {
                    Some(after) => (
                        BridgeView { active: bridge.active.insert(id, after), ..bridge },
                        TurnView { updates, warning: None, action: ActionView::AskReady },
                    ),
                    None => (
                        BridgeView { active: bridge.active.remove(id), ..bridge },
                        TurnView { updates, warning: None, action: ActionView::Finish },
                    ),
                }
            },
            Err(error) => failed(bridge, schema, id, error@, now),
        },
        Reply::Ready(result) => match result {
            Ok(ready) => (
                bridge,
                just(
                    if !ready {
                        ActionView::Finish
                    } else if row.pending {
                        ActionView::Claim(claim_statement(schema, id))
                    } else if !live.awaiting_acceptance && now >= live.result_at {
                        ActionView::RequestResult
                    } else {
                        cancel_action(row, live, now)
                    },
                ),
            ),
            Err(error) => failed(bridge, schema, id, error@, now),
        },
        Reply::Claimed(claimed) => if claimed {
            let marked = BridgeView {
                active: bridge.active.insert(
                    id,
                    Live {
                        awaiting_acceptance: true,
                        reconnect_at: (now + RETRY) as u64,
                        ..live
                    },
                ),
                ..bridge
            };
            match order_of(row.goal) {
                Some(order) => (marked, just(ActionView::Send(order))),
                None => failed(marked, schema, id, "invalid Fibonacci goal"@, now),
            }
        } else {
            (bridge, just(ActionView::Finish))
        },
        Reply::Sent(result) => match result {
            Ok(_) => (bridge, just(ActionView::Finish)),
            Err(error) => failed(bridge, schema, id, error@, now),
        },
        Reply::Requested(result) => match result {
            Ok(_) => (bridge, just(cancel_action(row, live, now))),
            Err(error) => failed(bridge, schema, id, error@, now),
        },
        Reply::Canceled(result) => match result {
            Ok(_) => (
                BridgeView {
                    active: bridge.active.insert(
                        id,
                        Live { cancel_at: (now + RETRY) as u64, ..live },
                    ),
                    ..bridge
                },
                just(ActionView::Finish),
            ),
            Err(error) => failed(bridge, schema, id, error@, now),
        },
    }
}

/// Whether a reply is one to an action that needs open clients.
pub open spec fn needs_clients(reply: Reply) -> bool {
    match reply {
        Reply::Begin => false,
        Reply::Opened(_) => false,
        _ => true,
    }
}

/// The identifiers of rows.
pub open spec fn row_ids(rows: Seq<GoalRowView>) -> Set<Seq<char>> {
    Set::new(|id: Seq<char>| exists|i: int| 0 <= i < rows.len() && (#[trigger] rows[i]).id == id)
}

/// The bridge when the goals of an installed extension have been listed.
/// Nothing of another installation is kept, nor anything of a goal that is not
/// listed any more.
pub open spec fn listed(bridge: BridgeView, extension: u32, rows: Seq<GoalRowView>) -> BridgeView {
    if bridge.extension == Some(extension) {
        BridgeView {
            extension: Some(extension),
            active: bridge.active.restrict(row_ids(rows)),
            retry: bridge.retry.restrict(row_ids(rows)),
        }
    } else {
        BridgeView {
            extension: Some(extension),
            active: Map::empty(),
            retry: Map::empty(),
        }
    }
}

impl Bridge {
    /// The tables are in order.
    pub open spec fn well_formed(&self) -> bool {
        self.active.well_formed() && self.retry.well_formed()
    }

    /// A bridge that knows of no extension.
    pub fn new() -> (bridge: Bridge)
        ensures
            bridge.well_formed(),
            bridge@ == (BridgeView { extension: None, active: Map::empty(), retry: Map::empty() }),
    {
        Bridge { extension: None, active: Table::new(), retry: Table::new() }
    }

    /// Takes in the goals of the installed extension, or that none is
    /// installed.
    pub fn begin(&mut self, extension: Option<u32>, rows: &Vec<GoalRow>)
        requires
            old(self).well_formed(),
        ensures
            final(self).well_formed(),
            final(self)@ == (match extension {
                Some(oid) => listed(old(self)@, oid, row_views(rows@)),
                None => BridgeView {
                    extension: None,
                    active: Map::empty(),
                    retry: Map::empty(),
                },
            }),
    {
        let oid: u32 = match extension {
            None => {
                *self = Bridge::new();
                return ;
            },
            Some(oid) => oid,
        };
        let same: bool = match self.extension {
            Some(known) => known == oid,
            None => false,
        };
        if !same {
            *self = Bridge::new();
            self.extension = Some(oid);
            return ;
        }
        let mut ids: Vec<String> = Vec::new();
        let mut i: usize = 0;
        while i < rows.len()
            invariant
                i <= rows@.len(),
                ids@.len() == i,
                forall|k: int| 0 <= k < i ==> (#[trigger] ids@[k])@ == rows@[k].id@,
            decreases rows@.len() - i,
        {
            ids.push(rows[i].id.clone());
            i += 1;
        }
        proof {
            let kept = Set::new(|key: Seq<char>| crate::sql::text_views(ids@).contains(key));
            assert forall|id: Seq<char>| kept.contains(id) <==> #[trigger] row_ids(
                row_views(rows@),
            ).contains(id) by {
                let texts = crate::sql::text_views(ids@);
                let views = row_views(rows@);
                if texts.contains(id) {
                    let k = choose|k: int| 0 <= k < texts.len() && texts[k] == id;
                    assert(ids@[k]@ == rows@[k].id@);
                    assert(views[k].id == id);
                }
                if row_ids(views).contains(id) {
                    let k = choose|k: int| 0 <= k < views.len() && (#[trigger] views[k]).id == id;
                    assert(ids@[k]@ == rows@[k].id@);
                    assert(texts[k] == id);
                }
            }
            assert(kept =~= row_ids(row_views(rows@)));
        }
        self.active.retain(&ids);
        self.retry.retain(&ids);
    }

    /// Whether a goal does not rest after a failure.
    pub fn due(&self, id: &String, now: u64) -> (result: bool)
        requires
            self.well_formed(),
        ensures
            result == !(self@.retry.dom().contains(id@) && now < self@.retry[id@]),
    {
        match self.retry.get(id) {
            Some(at) => now >= at,
            None => true,
        }
    }

    /// Whether a goal has its clients opened when it is looked at.
    pub fn opens(&self, row: &GoalRow, now: u64) -> (result: bool)
        requires
            self.well_formed(),
        ensures
            result == opening(self@, row@, now),
    {
        if (row.pending && row.cancel) || !row.supported {
            return false;
        }
        match self.active.get(&row.id) {
            Some(live) => now >= live.reconnect_at,
            None => true,
        }
    }

    /// Records a failure of a goal.
    fn fail(&mut self, schema: &str, id: &String, error: String, now: u64) -> (turn: Turn)
        requires
            old(self).well_formed(),
            now <= LATEST,
        ensures
            final(self).well_formed(),
            (final(self)@, turn@) == failed(old(self)@, schema@, id@, error@, now),
    {
        self.active.remove(id);
        self.retry.insert(id, now + RETRY);
        let mut warning = combine(
            "pg_ros2 event=action_transport_failed goal_id=",
            id.as_str(),
        );
        warning.append(" error=");
        warning.append(error.as_str());
        let statement = update(schema, id.as_str(), "last_error = $2", Some(error), None);
        let turn = Turn {
            updates: vec![statement],
            warning: Some(warning),
            action: Action::Finish,
        };
        assert(turn@.updates =~= seq![statement@]);
        turn
    }

    fn only(action: Action) -> (turn: Turn)
        ensures
            turn@ == just(action@),
    {
        let turn = Turn { updates: Vec::new(), warning: None, action };
        assert(turn@.updates =~= Seq::empty());
        turn
    }

    fn cancel_or_finish(row: &GoalRow, live: Live, now: u64) -> (turn: Turn)
        ensures
            turn@ == just(cancel_action(row@, live, now)),
    {
        if row.cancel && !row.cancel_rejected && now >= live.cancel_at {
            Bridge::only(Action::Cancel)
        } else {
            Bridge::only(Action::Finish)
        }
    }

    /// Takes in what came of the last action on a goal, and decides on the
    /// next.
    pub fn advance(&mut self, schema: &str, row: &GoalRow, reply: Reply, now: u64) -> (turn: Turn)
        requires
            old(self).well_formed(),
            now <= LATEST,
            needs_clients(reply) ==> old(self)@.active.dom().contains(row@.id),
            reply is Begin && opening(old(self)@, row@, now) ==> row@.action_name is Some,
        ensures
            final(self).well_formed(),
            (final(self)@, turn@) == advanced(old(self)@, schema@, row@, reply, now),
    {
        match reply {
            Reply::Begin => self.start(schema, row, now),
            Reply::Opened(Ok(_)) => {
                self.active.insert(
                    &row.id,
                    Live {
                        reconnect_at: now + RECONNECT,
                        result_at: now,
                        cancel_at: now,
                        awaiting_acceptance: false,
                    },
                );
                Bridge::only(Action::Poll)
            },
            Reply::Opened(Err(error)) => self.fail(schema, &row.id, error, now),
            Reply::Polled(Ok(events)) => self.events(schema, row, events, now),
            Reply::Polled(Err(error)) => self.fail(schema, &row.id, error, now),
            Reply::Ready(Ok(ready)) => {
                let live: Live = self.active.get(&row.id).unwrap();
                if !ready {
                    Bridge::only(Action::Finish)
                } else if row.pending {
                    // The intent is committed before the goal is sent. After a
                    // crash an uncertain row is reconciled, never sent again.
                    Bridge::only(Action::Claim(claim(schema, row.id.as_str())))
                } else if !live.awaiting_acceptance && now >= live.result_at {
                    Bridge::only(Action::RequestResult)
                } else {
                    Bridge::cancel_or_finish(row, live, now)
                }
            },
            Reply::Ready(Err(error)) => self.fail(schema, &row.id, error, now),
            Reply::Claimed(claimed) => {
                if !claimed {
                    return Bridge::only(Action::Finish);
                }
                let mut live: Live = self.active.get(&row.id).unwrap();
                live.awaiting_acceptance = true;
                // A lost answer must not block reconciliation forever.
                live.reconnect_at = now + RETRY;
                self.active.insert(&row.id, live);
                match order(&row.goal) {
                    Some(order) => Bridge::only(Action::Send(order)),
                    None => self.fail(
                        schema,
                        &row.id,
                        "invalid Fibonacci goal".to_owned(),
                        now,
                    ),
                }
            },
            Reply::Sent(Ok(_)) => Bridge::only(Action::Finish),
            Reply::Sent(Err(error)) => self.fail(schema, &row.id, error, now),
            Reply::Requested(Ok(_)) => {
                let live: Live = self.active.get(&row.id).unwrap();
                Bridge::cancel_or_finish(row, live, now)
            },
            Reply::Requested(Err(error)) => self.fail(schema, &row.id, error, now),
            Reply::Canceled(Ok(_)) => {
                let mut live: Live = self.active.get(&row.id).unwrap();
                live.cancel_at = now + RETRY;
                self.active.insert(&row.id, live);
                Bridge::only(Action::Finish)
            },
            Reply::Canceled(Err(error)) => self.fail(schema, &row.id, error, now),
        }
    }

    /// The first turn of a goal.
    fn start(&mut self, schema: &str, row: &GoalRow, now: u64) -> (turn: Turn)
        requires
            old(self).well_formed(),
            now <= LATEST,
            opening(old(self)@, row@, now) ==> row@.action_name is Some,
        ensures
            final(self).well_formed(),
            (final(self)@, turn@) == advanced(old(self)@, schema@, row@, Reply::Begin, now),
    {
        // Cancellation before dispatch is resolved locally, without contacting
        // ROS.
        if row.pending && row.cancel {
            let statement = update(
                schema,
                row.id.as_str(),
                "dispatch_state = 'canceled', completed_at = statement_timestamp()",
                None,
                None,
            );
            self.active.remove(&row.id);
            let turn = Turn { updates: vec![statement], warning: None, action: Action::Finish };
            assert(turn@.updates =~= seq![statement@]);
            return turn;
        }
        if !row.supported {
            return self.fail(
                schema,
                &row.id,
                "unsupported action type in action_goals".to_owned(),
                now,
            );
        }
        let open: bool = match self.active.get(&row.id) {
            Some(live) => {
                if now >= live.reconnect_at {
                    self.active.remove(&row.id);
                    false
                } else {
                    true
                }
            },
            None => false,
        };
        if open {
            return Bridge::only(Action::Poll);
        }
        match uuid_bytes(row.id.as_str()) {
            Ok(uuid) => {
                let name: &String = row.action_name.as_ref().unwrap();
                Bridge::only(Action::Open { name: name.clone(), uuid })
            },
            Err(error) => self.fail(schema, &row.id, error, now),
        }
    }

    /// The turn of a goal that takes in events.
    fn events(&mut self, schema: &str, row: &GoalRow, events: Vec<Event>, now: u64) -> (turn: Turn)
        requires
            old(self).well_formed(),
            now <= LATEST,
            old(self)@.active.dom().contains(row@.id),
        ensures
            final(self).well_formed(),
            (final(self)@, turn@) == advanced(
                old(self)@,
                schema@,
                row@,
                Reply::Polled(Ok(events)),
                now,
            ),
    {
        let first: Live = self.active.get(&row.id).unwrap();
        let mut live: Live = first;
        let mut updates: Vec<Statement> = Vec::new();
        let ghost views = event_views(events@);
        let mut i: usize = 0;
        assert(views.take(0) =~= Seq::empty());
        assert(statement_views(updates@) =~= Seq::empty());
        while i < events.len()
            invariant
                i <= events@.len(),
                now <= LATEST,
                views == event_views(events@),
                first == old(self)@.active[row@.id],
                handled_all(first, schema@, row.id@, views.take(i as int), now) == (
                    Some(live),
                    statement_views(updates@),
                ),
                *self == *old(self),
                self.well_formed(),
            decreases events@.len() - i,
        {
            proof {
                assert(views.take(i + 1).drop_last() =~= views.take(i as int));
                assert(views.take(i + 1).last() == events@[i as int]@);
            }
            match handle(live, schema, row.id.as_str(), &events[i], now, &mut updates) {
                Some(after) => {
                    live = after;
                },
                None => {
                    proof {
                        lemma_ended(first, schema@, row.id@, views, i + 1, now);
                    }
                    self.active.remove(&row.id);
                    return Turn { updates, warning: None, action: Action::Finish };
                },
            }
            i += 1;
        }
        assert(views.take(i as int) =~= views);
        self.active.insert(&row.id, live);
        Turn { updates, warning: None, action: Action::AskReady }
    }
}

proof fn lemma_ended(
    live: Live,
    schema: Seq<char>,
    id: Seq<char>,
    events: Seq<EventView>,
    count: int,
    now: u64,
)
    requires
        0 <= count <= events.len(),
        handled_all(live, schema, id, events.take(count), now).0 is None,
    ensures
        handled_all(live, schema, id, events, now) == handled_all(
            live,
            schema,
            id,
            events.take(count),
            now,
        ),
    decreases events.len() - count,
{
    if count < events.len() {
        assert(events.take(count + 1).drop_last() =~= events.take(count));
        lemma_ended(live, schema, id, events, count + 1, now);
    } else {
        assert(events.take(count) =~= events);
    }
}

} // verus!
