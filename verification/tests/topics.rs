//! Names of topics and nodes, and subscriptions.
use pg_ros2::message::{Field, Message, Simple, Value};
use pg_ros2::naming;
use pg_ros2::sql::{Argument, Statement};
use pg_ros2::subscriptions::{check_call, failure, validate_topic, Session, QUEUE};

fn message(text: &str) -> Message {
    Message {
        fields: vec![Field {
            name: "data".to_string(),
            value: Value::Simple(Simple::Text {
                bound: None,
                text: text.to_string(),
            }),
        }],
    }
}

fn payload_of(statement: &Statement) -> (String, String) {
    assert_eq!(statement.sql, "SELECT pg_catalog.pg_notify($1, $2)");
    match (&statement.arguments[0], &statement.arguments[1]) {
        (Argument::Text(Some(topic)), Argument::Text(Some(payload))) => {
            (topic.clone(), payload.clone())
        }
        _ => panic!("unexpected arguments"),
    }
}

fn subscribed(topic: &str) -> Session {
    let mut session = Session::new(topic, 0);
    session.subscribed("std_msgs/msg/String");
    session
}

#[test]
fn test_topic_channel_names() {
    for topic in ["/chatter", "/robot_1/joint_states", "/_private"] {
        assert_eq!(validate_topic(topic), Ok(()));
    }
    assert_eq!(validate_topic(&format!("/{}", "a".repeat(62))), Ok(()));
    for topic in [
        "",
        "/",
        "relative",
        "/double//slash",
        "/trailing/",
        "/0digit",
        "/bad'quote",
        "/white space",
        "/世界",
    ] {
        assert!(validate_topic(topic).is_err(), "{}", topic);
    }
    assert!(validate_topic(&format!("/{}", "a".repeat(63))).is_err());
}

#[test]
fn test_publish_topic_names() {
    for topic in ["/chatter", "/robot_1/joint_states", "/_private"] {
        assert_eq!(naming::validate_topic(topic), Ok(()));
    }
    for topic in [
        "",
        "/",
        "relative",
        "/double//slash",
        "/trailing/",
        "/0digit",
        "/bad'quote",
        "/white space",
        "/世界",
    ] {
        assert!(naming::validate_topic(topic).is_err(), "{}", topic);
    }
    // Publishing is not bound by the limit of a notification channel.
    assert_eq!(
        naming::validate_topic(&format!("/{}", "a".repeat(200))),
        Ok(())
    );
}

#[test]
fn topic_errors_say_what_is_wrong() {
    assert_eq!(
        validate_topic(&"é".repeat(32)),
        Err("topic exceeds PostgreSQL's 63-byte notification channel limit")
    );
    assert_eq!(
        validate_topic("chatter"),
        Err("topic must be a fully qualified ROS name starting with '/'")
    );
    assert_eq!(
        naming::validate_topic("/a/9"),
        Err("topic must contain nonempty ROS name segments (letters, digits, underscores; no leading digits)")
    );
    assert_eq!(naming::validate_topic("/a9/_9"), Ok(()));
}

#[test]
fn nodes_are_named_after_their_process() {
    assert_eq!(naming::node_name("worker", 42), "pg_ros2_worker_42");
}

#[test]
fn subscriptions_need_a_call_that_can_commit() {
    assert_eq!(check_call(true, false), Ok(()));
    for (call, atomic) in [(false, false), (true, true), (false, true)] {
        assert_eq!(
            check_call(call, atomic),
            Err("subscribe must be invoked with a top-level CALL outside a transaction block")
        );
    }
    assert_eq!(failure("/t", "no"), "subscribe failed for /t: no");
}

#[test]
fn discovery_wants_a_unique_type_once_per_second() {
    let mut session = Session::new("/chatter", 500);
    assert!(!session.discovers(499));
    assert!(session.discovers(500));
    assert_eq!(session.discovered(None, 500), Ok(None));
    assert!(!session.discovers(1499));
    assert!(session.discovers(1500));
    let two = vec!["a/msg/A".to_string(), "b/msg/B".to_string()];
    assert_eq!(
        session.discovered(Some(two), 1500),
        Err("topic has multiple message types; a unique type is required".to_string())
    );
    assert_eq!(
        session.discovered(Some(vec!["a/msg/A".to_string()]), 2500),
        Ok(Some("a/msg/A".to_string()))
    );
    assert_eq!(
        session.subscribed("a/msg/A"),
        "subscribed to /chatter; cancel this CALL to stop"
    );
    assert!(!session.discovers(10_000));
}

#[test]
fn messages_are_delivered_in_order_with_numbers() {
    let mut session = subscribed("/chatter");
    session.on_message(&message("a"));
    session.on_message(&message("a"));
    let statements = session.deliver();
    assert_eq!(statements.len(), 2);
    assert_eq!(
        payload_of(&statements[0]),
        (
            "/chatter".to_string(),
            r#"{"topic":"/chatter","message_type":"std_msgs/msg/String","sequence":0,"message":{"data":"a"}}"#.to_string()
        )
    );
    assert_eq!(
        payload_of(&statements[1]).1,
        r#"{"topic":"/chatter","message_type":"std_msgs/msg/String","sequence":1,"message":{"data":"a"}}"#
    );
    assert!(session.deliver().is_empty());
}

#[test]
fn a_full_queue_drops_new_messages() {
    let mut session = subscribed("/t");
    for _ in 0..QUEUE {
        session.on_message(&message("kept"));
    }
    session.on_message(&message("dropped"));
    assert_eq!(session.dropped, 1);
    assert_eq!(session.sequence, QUEUE as u64 + 1);
    let statements = session.deliver();
    assert_eq!(statements.len(), QUEUE);
    session.on_message(&message("next"));
    let statements = session.deliver();
    assert!(payload_of(&statements[0])
        .1
        .contains(&format!("\"sequence\":{}", QUEUE + 1)));
}

#[test]
fn drops_are_reported_once_per_second() {
    let mut session = subscribed("/t");
    assert_eq!(session.report(0), None);
    session.on_message(&message(&"x".repeat(8000)));
    assert!(session.deliver().is_empty());
    assert_eq!(session.report(999), None);
    assert_eq!(
        session.report(1000),
        Some(
            "pg_ros2 topic=/t queue_drops=0 encoding_drops=1 last_error=notification payload exceeds 7999 bytes"
                .to_string()
        )
    );
    assert_eq!(session.report(2000), None);
    for _ in 0..QUEUE + 2 {
        session.on_message(&message(""));
    }
    assert_eq!(
        session.report(3000),
        Some("pg_ros2 topic=/t queue_drops=2 encoding_drops=0 last_error=none".to_string())
    );
}

fn number_of(statement: &Statement) -> u64 {
    let payload = payload_of(statement).1;
    let parsed: serde_json::Value = serde_json::from_str(&payload).unwrap();
    parsed["sequence"].as_u64().unwrap()
}

#[test]
fn a_session_accounts_for_every_message() {
    let mut session = subscribed("/t");
    let long = "x".repeat(8000);
    let mut numbers: Vec<u64> = Vec::new();
    let mut warnings: Vec<(u64, String)> = Vec::new();
    for turn in 0..6u64 {
        for i in 0..QUEUE + 1 {
            session.on_message(&message(if i == 3 { &long } else { "short" }));
        }
        let statements = session.deliver();
        assert_eq!(statements.len(), QUEUE - 1);
        numbers.extend(statements.iter().map(number_of));
        let now = 400 * (turn + 1);
        if let Some(warning) = session.report(now) {
            warnings.push((now, warning));
        }
    }
    assert_eq!(numbers.len(), 6 * (QUEUE - 1));
    assert!(numbers.windows(2).all(|pair| pair[0] < pair[1]));
    assert_eq!(
        warnings,
        vec![
            (
                400,
                "pg_ros2 topic=/t queue_drops=1 encoding_drops=1 last_error=notification payload exceeds 7999 bytes"
                    .to_string()
            ),
            (
                1600,
                "pg_ros2 topic=/t queue_drops=3 encoding_drops=3 last_error=notification payload exceeds 7999 bytes"
                    .to_string()
            ),
        ]
    );
    // What was received, notified and dropped adds up.
    assert_eq!(session.sequence, 6 * (QUEUE as u64 + 1));
    assert_eq!(session.sequence, numbers.len() as u64 + 6 + 6);
}

#[test]
fn numbers_start_again_after_the_last() {
    let mut session = subscribed("/t");
    session.sequence = u64::MAX;
    session.on_message(&message(""));
    assert_eq!(session.sequence, 0);
}

#[test]
fn test_hello_pg_ros2() {
    assert_eq!(pg_ros2::hello_pg_ros2(), "Hello, pg_ros2");
}
