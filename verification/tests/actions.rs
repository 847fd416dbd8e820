//! Action goals: their identifiers, rows, transports and turns.
use pg_ros2::actions::goal::{get, order, read_rows, uuid_bytes, GoalRow};
use pg_ros2::actions::transport::{
    endpoint, same_bytes, sequence_json, CancelReply, Event, Replies, ResultReply, Transport,
    FEEDBACK_LIMIT,
};
use pg_ros2::actions::{
    claim, response, rows_sql, state, status, update, Action, Bridge, Reply, Turn,
};
use pg_ros2::json::{Entry, Json};
use pg_ros2::sql::{Argument, Statement};
use pg_ros2::table::{among, Table};

const ID: &str = "00112233-4455-6677-8899-aabbccddeeff";

fn text(value: &str) -> Json {
    Json::Text(value.to_string())
}

fn object(entries: Vec<(&str, Json)>) -> Json {
    Json::Object(
        entries
            .into_iter()
            .map(|(key, value)| Entry {
                key: key.to_string(),
                value,
            })
            .collect(),
    )
}

fn goal(order: i64) -> Json {
    object(vec![("order", Json::Signed(order))])
}

fn row_json(desired: &str, dispatch: &str, cancel: Json) -> Json {
    object(vec![
        ("goal_id", text(ID)),
        ("action_name", text("/fibonacci")),
        ("action_type", text("example_interfaces/action/Fibonacci")),
        ("goal", goal(10)),
        ("desired_state", text(desired)),
        ("dispatch_state", text(dispatch)),
        ("cancel_response", cancel),
    ])
}

fn row(desired: &str, dispatch: &str) -> GoalRow {
    GoalRow::read(&row_json(desired, dispatch, Json::Null)).unwrap()
}

fn sql(turn: &Turn) -> Vec<String> {
    turn.updates
        .iter()
        .map(|statement| statement.sql.clone())
        .collect()
}

fn assignments(turn: &Turn) -> Vec<String> {
    sql(turn)
        .iter()
        .map(|sql| {
            let start = sql.find(" SET ").unwrap() + 5;
            let end = sql.find(", updated_at").unwrap();
            sql[start..end].to_string()
        })
        .collect()
}

fn bound_text(statement: &Statement) -> Option<String> {
    match &statement.arguments[1] {
        Argument::Text(text) => text.clone(),
        _ => panic!("not a text"),
    }
}

fn listed(rows: Vec<GoalRow>) -> Bridge {
    let mut bridge = Bridge::new();
    bridge.begin(Some(1), &rows);
    bridge
}

fn open(bridge: &mut Bridge, row: &GoalRow, now: u64) {
    assert!(matches!(
        bridge.advance("ros2", row, Reply::Begin, now).action,
        Action::Open { .. }
    ));
    assert!(matches!(
        bridge.advance("ros2", row, Reply::Opened(Ok(())), now).action,
        Action::Poll
    ));
}

#[test]
fn identifiers_are_read_as_bytes() {
    assert_eq!(
        uuid_bytes(ID),
        Ok(vec![
            0x00, 0x11, 0x22, 0x33, 0x44, 0x55, 0x66, 0x77, 0x88, 0x99, 0xaa, 0xbb, 0xcc, 0xdd,
            0xee, 0xff
        ])
    );
    assert_eq!(
        uuid_bytes("-0011223344556677-8899AABBCCDDEEFF-"),
        uuid_bytes(ID)
    );
    assert_eq!(uuid_bytes("0011"), Err("invalid goal UUID".to_string()));
    assert_eq!(
        uuid_bytes(&"é".repeat(16)),
        Err("invalid goal UUID".to_string())
    );
    assert_eq!(
        uuid_bytes("0011223344556677-8899AABBCCDDEEFg"),
        Err("invalid digit found in string".to_string())
    );
    assert_eq!(
        uuid_bytes(&"0".repeat(32)),
        Err("zero UUID is reserved by ROS cancellation".to_string())
    );
    let mut expected = vec![0; 15];
    expected.push(15);
    assert_eq!(uuid_bytes(&format!("{}+f", "0".repeat(30))), Ok(expected));
    assert_eq!(
        u8::from_str_radix("+f", 16).ok(),
        Some(15),
        "a plus sign is part of a number"
    );
}

#[test]
fn rows_are_read_from_json() {
    let rows = Json::Array(vec![
        row_json("run", "pending", Json::Null),
        row_json("cancel", "accepted", text("rejected")),
    ]);
    let rows = read_rows(&rows).unwrap();
    assert_eq!(rows.len(), 2);
    assert_eq!(rows[0].id, ID);
    assert_eq!(rows[0].action_name.as_deref(), Some("/fibonacci"));
    assert!(rows[0].supported && rows[0].pending && !rows[0].cancel);
    assert!(!rows[0].cancel_rejected);
    assert!(!rows[1].pending && rows[1].cancel && rows[1].cancel_rejected);
    assert!(read_rows(&Json::Null).is_none());
    assert!(read_rows(&Json::Array(vec![Json::Null])).is_none());
    let other = object(vec![
        ("goal_id", text("x")),
        ("action_type", text("other")),
    ]);
    let other = GoalRow::read(&other).unwrap();
    assert!(!other.supported && !other.pending && !other.cancel);
    assert!(other.action_name.is_none());
    assert!(get(&goal(3), "missing").is_none());
    assert_eq!(order(&goal(3)), Some(3));
    assert_eq!(order(&goal(1 << 40)), None);
    assert_eq!(order(&object(vec![("order", text("3"))])), None);
    assert_eq!(order(&Json::Null), None);
    assert_eq!(
        order(&object(vec![("order", Json::Unsigned(2147483647))])),
        Some(2147483647)
    );
}

#[test]
fn statements_bind_what_was_sent() {
    assert_eq!(
        rows_sql("ros2"),
        "SELECT coalesce(jsonb_agg(to_jsonb(g)), '[]'::jsonb) FROM \
         (SELECT goal_id, action_name, action_type, goal, desired_state, dispatch_state, cancel_response \
         FROM ros2.action_goals WHERE completed_at IS NULL \
         ORDER BY created_at, goal_id LIMIT 64) g"
    );
    let statement = update("ros2", ID, "last_error = $2", Some("'; DROP".to_string()), None);
    assert_eq!(
        statement.sql,
        "UPDATE ros2.action_goals SET last_error = $2, updated_at=statement_timestamp() \
         WHERE goal_id=$1::uuid AND completed_at IS NULL AND ($2::text IS NULL OR true) \
         AND ($3::jsonb IS NULL OR true)"
    );
    assert_eq!(statement.arguments.len(), 3);
    assert_eq!(bound_text(&statement), Some("'; DROP".to_string()));
    assert!(matches!(&statement.arguments[2], Argument::Json(None)));
    assert_eq!(
        claim("ros2", ID).sql,
        "WITH claimed AS (UPDATE ros2.action_goals SET dispatch_state='uncertain', \
         updated_at=statement_timestamp() WHERE goal_id=$1::uuid AND dispatch_state='pending' \
         AND desired_state='run' AND completed_at IS NULL RETURNING 1) \
         SELECT EXISTS (SELECT FROM claimed)"
    );
    assert_eq!(
        status("ros2", ID, 2).unwrap().sql,
        "UPDATE ros2.action_goals SET observed_state=$2, dispatch_state='accepted', \
         updated_at=statement_timestamp() WHERE goal_id=$1::uuid AND completed_at IS NULL \
         AND array_position(ARRAY['unknown','accepted','executing','canceling','succeeded','canceled','aborted'], observed_state) \
         < array_position(ARRAY['unknown','accepted','executing','canceling','succeeded','canceled','aborted'], $2) \
         AND observed_state NOT IN ('succeeded','canceled','aborted')"
    );
    assert!(status("ros2", ID, 0).is_none());
    let names: Vec<Option<&str>> = (0..8).map(state).collect();
    assert_eq!(
        names,
        vec![
            None,
            Some("accepted"),
            Some("executing"),
            Some("canceling"),
            Some("succeeded"),
            Some("canceled"),
            Some("aborted"),
            None
        ]
    );
    assert_eq!(response(0, true), "accepted");
    assert_eq!(response(0, false), "unconfirmed");
    assert_eq!(response(1, true), "rejected");
    assert_eq!(response(2, false), "unknown");
    assert_eq!(response(3, false), "terminated");
    assert_eq!(response(9, true), "unconfirmed");
}

#[test]
fn a_pending_goal_is_claimed_and_sent() {
    let row = row("run", "pending");
    let mut bridge = listed(vec![GoalRow::read(&row_json("run", "pending", Json::Null)).unwrap()]);
    match bridge.advance("ros2", &row, Reply::Begin, 100).action {
        Action::Open { name, uuid } => {
            assert_eq!(name, "/fibonacci");
            assert_eq!(uuid, uuid_bytes(ID).unwrap());
        }
        _ => panic!("not opened"),
    }
    let turn = bridge.advance("ros2", &row, Reply::Opened(Ok(())), 100);
    assert!(matches!(turn.action, Action::Poll));
    let turn = bridge.advance("ros2", &row, Reply::Polled(Ok(vec![])), 100);
    assert!(matches!(turn.action, Action::AskReady));
    let turn = bridge.advance("ros2", &row, Reply::Ready(Ok(false)), 100);
    assert!(matches!(turn.action, Action::Finish));
    assert!(matches!(
        bridge.advance("ros2", &row, Reply::Begin, 200).action,
        Action::Poll
    ));
    bridge.advance("ros2", &row, Reply::Polled(Ok(vec![])), 200);
    match bridge.advance("ros2", &row, Reply::Ready(Ok(true)), 200).action {
        Action::Claim(statement) => assert_eq!(statement.sql, claim("ros2", ID).sql),
        _ => panic!("not claimed"),
    }
    assert!(matches!(
        bridge.advance("ros2", &row, Reply::Claimed(false), 200).action,
        Action::Finish
    ));
    assert!(matches!(
        bridge.advance("ros2", &row, Reply::Claimed(true), 200).action,
        Action::Send(10)
    ));
    let live = bridge.active.get(&ID.to_string()).unwrap();
    assert!(live.awaiting_acceptance);
    assert_eq!(live.reconnect_at, 5200);
    let turn = bridge.advance("ros2", &row, Reply::Sent(Ok(())), 200);
    assert!(matches!(turn.action, Action::Finish));
    assert!(turn.updates.is_empty());
}

#[test]
fn an_invalid_goal_is_not_sent() {
    let mut bad = row("run", "pending");
    bad.goal = Json::Null;
    let mut bridge = Bridge::new();
    open(&mut bridge, &bad, 0);
    let turn = bridge.advance("ros2", &bad, Reply::Claimed(true), 0);
    assert!(matches!(turn.action, Action::Finish));
    assert_eq!(
        bound_text(&turn.updates[0]),
        Some("invalid Fibonacci goal".to_string())
    );
}

#[test]
fn cancellation_before_dispatch_is_local() {
    let row = row("cancel", "pending");
    let mut bridge = Bridge::new();
    let turn = bridge.advance("ros2", &row, Reply::Begin, 0);
    assert!(matches!(turn.action, Action::Finish));
    assert_eq!(
        assignments(&turn),
        vec!["dispatch_state = 'canceled', completed_at = statement_timestamp()"]
    );
    assert!(turn.warning.is_none());
}

#[test]
fn clients_are_opened_when_there_are_none() {
    let row = row("run", "accepted");
    let mut bridge = Bridge::new();
    assert!(bridge.opens(&row, 0));
    open(&mut bridge, &row, 0);
    assert!(!bridge.opens(&row, 29_999));
    assert!(bridge.opens(&row, 30_000));
    assert!(matches!(
        bridge.advance("ros2", &row, Reply::Begin, 30_000).action,
        Action::Open { .. }
    ));
    let mut other = row_with_id(ID);
    other.supported = false;
    assert!(!Bridge::new().opens(&other, 0));
    let mut canceled = row_with_id(ID);
    canceled.cancel = true;
    canceled.action_name = None;
    assert!(!Bridge::new().opens(&canceled, 0));
    let turn = Bridge::new().advance("ros2", &canceled, Reply::Begin, 0);
    assert!(matches!(turn.action, Action::Finish));
}

#[test]
fn failures_rest_for_five_seconds() {
    let mut other = row("run", "pending");
    other.supported = false;
    let mut bridge = Bridge::new();
    let turn = bridge.advance("ros2", &other, Reply::Begin, 1000);
    assert!(matches!(turn.action, Action::Finish));
    assert_eq!(assignments(&turn), vec!["last_error = $2"]);
    assert_eq!(
        bound_text(&turn.updates[0]),
        Some("unsupported action type in action_goals".to_string())
    );
    assert_eq!(
        turn.warning,
        Some(format!(
            "pg_ros2 event=action_transport_failed goal_id={} error=unsupported action type in action_goals",
            ID
        ))
    );
    let id = ID.to_string();
    assert!(!bridge.due(&id, 5999));
    assert!(bridge.due(&id, 6000));
    let row = row("run", "accepted");
    let failing = vec![
        Reply::Opened(Err("e".to_string())),
        Reply::Polled(Err("e".to_string())),
        Reply::Ready(Err("e".to_string())),
        Reply::Sent(Err("e".to_string())),
        Reply::Requested(Err("e".to_string())),
        Reply::Canceled(Err("e".to_string())),
    ];
    for reply in failing {
        let mut bridge = Bridge::new();
        open(&mut bridge, &row, 0);
        let turn = bridge.advance("ros2", &row, reply, 0);
        assert!(matches!(turn.action, Action::Finish));
        assert_eq!(bound_text(&turn.updates[0]), Some("e".to_string()));
        assert!(bridge.active.get(&id).is_none());
        assert!(!bridge.due(&id, 4999));
    }
    let mut bad = row_with_id("not-a-uuid");
    bad.pending = false;
    let turn = Bridge::new().advance("ros2", &bad, Reply::Begin, 0);
    assert_eq!(
        bound_text(&turn.updates[0]),
        Some("invalid goal UUID".to_string())
    );
}

fn row_with_id(id: &str) -> GoalRow {
    let mut row = row("run", "pending");
    row.id = id.to_string();
    row
}

#[test]
fn events_are_recorded_in_order() {
    let row = row("run", "uncertain");
    let mut bridge = Bridge::new();
    open(&mut bridge, &row, 0);
    let events = vec![
        Event::Accepted(true),
        Event::Status(2),
        Event::Status(99),
        Event::Feedback(sequence_json(&vec![0, 1])),
        Event::Cancel(0, true),
        Event::Result(0, Json::Null),
    ];
    let turn = bridge.advance("ros2", &row, Reply::Polled(Ok(events)), 1000);
    assert!(matches!(turn.action, Action::AskReady));
    assert_eq!(
        assignments(&turn),
        vec![
            "dispatch_state = 'accepted', last_error = NULL",
            "observed_state=$2, dispatch_state='accepted'",
            "observed_state=$2, dispatch_state='accepted'",
            "feedback = $3",
            "cancel_response = $2",
            "last_error = $2",
        ]
    );
    assert_eq!(
        bound_text(&turn.updates[1]),
        Some("accepted".to_string())
    );
    assert_eq!(
        bound_text(&turn.updates[2]),
        Some("executing".to_string())
    );
    assert_eq!(
        bound_text(&turn.updates[5]),
        Some("server cannot establish the result; goal will not be resubmitted".to_string())
    );
    let live = bridge.active.get(&ID.to_string()).unwrap();
    assert_eq!(live.reconnect_at, 31_000);
    assert_eq!(live.result_at, 6000);
}

#[test]
fn a_result_completes_a_goal() {
    for (event, assignment) in [
        (
            Event::Result(4, sequence_json(&vec![0, 1, 1])),
            "observed_state = $2, result = $3, completed_at = statement_timestamp(), dispatch_state = 'accepted', last_error = NULL",
        ),
        (
            Event::Accepted(false),
            "dispatch_state = 'rejected', completed_at = statement_timestamp(), last_error = NULL",
        ),
    ] {
        let row = row("run", "accepted");
        let mut bridge = Bridge::new();
        open(&mut bridge, &row, 0);
        let events = vec![event, Event::Status(2)];
        let turn = bridge.advance("ros2", &row, Reply::Polled(Ok(events)), 0);
        assert!(matches!(turn.action, Action::Finish));
        assert_eq!(assignments(&turn), vec![assignment]);
        assert!(bridge.active.get(&ID.to_string()).is_none());
    }
}

#[test]
fn results_and_cancellations_are_asked_for() {
    let row = GoalRow::read(&row_json("cancel", "accepted", text("accepted"))).unwrap();
    let mut bridge = Bridge::new();
    open(&mut bridge, &row, 0);
    bridge.advance("ros2", &row, Reply::Polled(Ok(vec![])), 0);
    assert!(matches!(
        bridge.advance("ros2", &row, Reply::Ready(Ok(true)), 0).action,
        Action::RequestResult
    ));
    assert!(matches!(
        bridge.advance("ros2", &row, Reply::Requested(Ok(())), 0).action,
        Action::Cancel
    ));
    assert!(matches!(
        bridge.advance("ros2", &row, Reply::Canceled(Ok(())), 0).action,
        Action::Finish
    ));
    assert!(matches!(
        bridge.advance("ros2", &row, Reply::Requested(Ok(())), 4999).action,
        Action::Finish
    ));
    let refused = GoalRow::read(&row_json("cancel", "accepted", text("rejected"))).unwrap();
    assert!(matches!(
        bridge.advance("ros2", &refused, Reply::Requested(Ok(())), 9000).action,
        Action::Finish
    ));
    // Clients are opened anew when they have been kept long enough.
    assert!(matches!(
        bridge.advance("ros2", &row, Reply::Begin, 29_999).action,
        Action::Poll
    ));
    assert!(matches!(
        bridge.advance("ros2", &row, Reply::Begin, 30_000).action,
        Action::Open { .. }
    ));
}

#[test]
fn the_bridge_forgets_goals_that_are_not_listed() {
    let row = row("run", "accepted");
    let id = ID.to_string();
    let mut bridge = listed(vec![]);
    open(&mut bridge, &row, 0);
    bridge.begin(Some(1), &vec![row_with_id(ID)]);
    assert!(bridge.active.get(&id).is_some());
    bridge.begin(Some(1), &vec![row_with_id("other")]);
    assert!(bridge.active.get(&id).is_none());
    open(&mut bridge, &row, 0);
    bridge.begin(Some(2), &vec![row_with_id(ID)]);
    assert!(bridge.active.get(&id).is_none());
    assert_eq!(bridge.extension, Some(2));
    open(&mut bridge, &row, 0);
    bridge.begin(None, &vec![]);
    assert!(bridge.active.get(&id).is_none());
    assert_eq!(bridge.extension, None);
}

#[test]
fn transports_coalesce_telemetry() {
    assert_eq!(
        endpoint("/fibonacci", "feedback"),
        "/fibonacci/_action/feedback"
    );
    let uuid = uuid_bytes(ID).unwrap();
    let other = vec![1; 16];
    assert!(same_bytes(&uuid, &uuid.clone()));
    assert!(!same_bytes(&uuid, &other));
    assert!(!same_bytes(&uuid, &vec![]));
    let mut transport = Transport::new(uuid.clone());
    transport.on_feedback(&other, &vec![9]);
    assert!(transport.feedback.is_none());
    transport.on_feedback(&uuid, &vec![1]);
    transport.on_feedback(&uuid, &vec![1, 2]);
    transport.on_feedback(&uuid, &vec![0; FEEDBACK_LIMIT + 1]);
    transport.on_status(&vec![
        (uuid.clone(), 1),
        (other.clone(), 6),
        (uuid.clone(), 2),
        (other.clone(), 5),
    ]);
    let events = transport
        .poll(Replies {
            send: Ok(Some(true)),
            cancel: Ok(None),
            result: Ok(None),
        })
        .unwrap();
    // Nothing was sent, so an answer to it is not one.
    assert_eq!(events.len(), 2);
    assert!(matches!(events[0], Event::Status(2)));
    match &events[1] {
        Event::Feedback(Json::Object(entries)) => {
            assert_eq!(entries[0].key, "sequence");
            assert!(matches!(&entries[0].value, Json::Array(items) if items.len() == 2));
        }
        _ => panic!("no feedback"),
    }
    assert!(transport.status.is_none() && transport.feedback.is_none());
}

#[test]
fn transports_turn_answers_into_events() {
    let uuid = uuid_bytes(ID).unwrap();
    let mut transport = Transport::new(uuid.clone());
    transport.sent();
    assert!(transport.needs_result());
    transport.request_result();
    assert!(!transport.needs_result());
    assert!(transport.needs_cancel());
    transport.cancel();
    assert!(!transport.needs_cancel());
    let events = transport
        .poll(Replies {
            send: Ok(Some(true)),
            cancel: Ok(Some(CancelReply {
                return_code: 0,
                canceling: vec![vec![2; 16], uuid.clone()],
            })),
            result: Ok(Some(ResultReply {
                status: 4,
                sequence: vec![-1],
            })),
        })
        .unwrap();
    assert_eq!(events.len(), 3);
    assert!(matches!(events[0], Event::Accepted(true)));
    assert!(matches!(events[1], Event::Cancel(0, true)));
    assert!(matches!(events[2], Event::Result(4, _)));
    assert!(!transport.send_pending && !transport.result_pending && !transport.cancel_pending);
    // What was taken in before an error is gone.
    transport.cancel();
    transport.on_status(&vec![(uuid.clone(), 2)]);
    let error = transport.poll(Replies {
        send: Err("ignored".to_string()),
        cancel: Err("lost".to_string()),
        result: Ok(None),
    });
    assert!(matches!(error, Err(text) if text == "lost"));
    assert!(transport.cancel_pending && transport.status.is_none());
    // An error of the first answer leaves everything as it was.
    transport.sent();
    transport.on_status(&vec![(uuid.clone(), 3)]);
    let error = transport.poll(Replies {
        send: Err("gone".to_string()),
        cancel: Ok(None),
        result: Ok(None),
    });
    assert!(matches!(error, Err(text) if text == "gone"));
    assert!(transport.send_pending && transport.status == Some(3));
}

#[test]
fn polls_tell_the_latest_telemetry_once() {
    let (uuid, other) = (vec![7u8; 16], vec![8u8; 16]);
    let quiet = || Replies {
        send: Ok(None),
        cancel: Ok(None),
        result: Ok(None),
    };
    let mut transport = Transport::new(uuid.clone());
    transport.on_feedback(&uuid, &vec![0]);
    transport.on_status(&vec![(uuid.clone(), 1), (other.clone(), 6), (uuid.clone(), 2)]);
    transport.on_feedback(&uuid, &vec![0, 1]);
    transport.on_feedback(&other, &vec![9]);
    transport.on_feedback(&uuid, &vec![1; 16385]);
    transport.on_status(&vec![(other, 4)]);
    transport.sent();
    let replies = Replies {
        send: Ok(Some(true)),
        cancel: Ok(None),
        result: Ok(None),
    };
    let events = transport.poll(replies).unwrap();
    assert_eq!(events.len(), 3);
    assert!(matches!(events[0], Event::Accepted(true)));
    assert!(matches!(events[1], Event::Status(2)));
    match &events[2] {
        Event::Feedback(Json::Object(entries)) => {
            assert!(matches!(&entries[0].value, Json::Array(items) if items.len() == 2));
        }
        _ => panic!("no feedback"),
    }
    assert!(transport.poll(quiet()).unwrap().is_empty());
    // An error in the answer to the goal leaves the telemetry for the next poll.
    transport.on_status(&vec![(uuid, 3)]);
    transport.sent();
    let lost = Replies {
        send: Err("lost".to_string()),
        cancel: Ok(None),
        result: Ok(None),
    };
    assert!(transport.poll(lost).is_err());
    let events = transport.poll(quiet()).unwrap();
    assert!(matches!(events[..], [Event::Status(3)]));
}

// How often a goal is sent over four restarts, and whether the bridge crashes
// right after its first claim was committed.
fn sends_over_restarts(crash: bool) -> usize {
    let mut sent: usize = 0;
    let mut pending: bool = true;
    for _ in 0..4 {
        // A bridge that was restarted knows nothing of earlier looks.
        let dispatch = if pending { "pending" } else { "uncertain" };
        let goal_row = row("run", dispatch);
        let mut bridge = listed(vec![row("run", dispatch)]);
        open(&mut bridge, &goal_row, 0);
        let mut reply = Reply::Polled(Ok(vec![]));
        loop {
            reply = match bridge.advance("ros2", &goal_row, reply, 0).action {
                Action::AskReady => Reply::Ready(Ok(true)),
                Action::Claim(_) => {
                    let claimed = pending;
                    pending = false;
                    if crash && claimed {
                        break;
                    }
                    Reply::Claimed(claimed)
                }
                Action::Send(_) => {
                    sent += 1;
                    Reply::Sent(Ok(()))
                }
                Action::RequestResult => Reply::Requested(Ok(())),
                Action::Cancel => Reply::Canceled(Ok(())),
                Action::Finish => break,
                _ => panic!("unexpected action"),
            };
        }
    }
    sent
}

#[test]
fn a_goal_is_sent_at_most_once_over_restarts() {
    assert_eq!(sends_over_restarts(false), 1);
    assert_eq!(sends_over_restarts(true), 0);
}

#[test]
fn tables_hold_one_value_for_a_key() {
    let key = |name: &str| name.to_string();
    let mut table: Table<u64> = Table::new();
    table.insert(&key("a"), 1);
    table.insert(&key("b"), 2);
    table.insert(&key("a"), 3);
    assert_eq!(table.get(&key("a")), Some(3));
    table.retain(&vec![key("b"), key("c")]);
    assert_eq!(table.get(&key("a")), None);
    assert_eq!(table.get(&key("b")), Some(2));
    table.remove(&key("b"));
    table.remove(&key("b"));
    assert_eq!(table.get(&key("b")), None);
    assert!(among(&vec![key("x")], &key("x")));
    assert!(!among(&vec![], &key("x")));
}
