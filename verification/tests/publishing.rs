//! The turns of a publication.
use pg_ros2::json::{Entry, Json};
use pg_ros2::message::{Field, Message, Simple, Value};
use pg_ros2::publish::{discover, failure, Action, Phase, Publication, Reply};

fn blank() -> Message {
    Message {
        fields: vec![Field {
            name: "data".to_string(),
            value: Value::Simple(Simple::Text {
                bound: None,
                text: String::new(),
            }),
        }],
    }
}

fn hello() -> Json {
    Json::Object(vec![Entry {
        key: "data".to_string(),
        value: Json::Text("hello".to_string()),
    }])
}

fn error(action: Action) -> String {
    match action {
        Action::Fail(error) => error,
        _ => panic!("no failure"),
    }
}

fn creating() -> Publication {
    let (mut publication, _) = Publication::start("/chatter", Some("k"), &hello());
    publication.run(Reply::Opened(Ok(())), 0);
    publication.run(Reply::Made(Ok(blank())), 0);
    publication
}

#[test]
fn a_typed_publication_sends_the_decoded_message() {
    let (mut publication, action) = Publication::start("/chatter", Some("k"), &hello());
    assert!(matches!(action, Action::Open));
    assert!(publication.awaits(&Reply::Opened(Ok(()))));
    assert!(!publication.awaits(&Reply::Spun(Ok(()))));
    assert!(matches!(publication.run(Reply::Opened(Ok(())), 0), Action::Make(kind) if kind == "k"));
    assert!(matches!(
        publication.run(Reply::Made(Ok(blank())), 0),
        Action::Create(kind) if kind == "k"
    ));
    assert!(matches!(
        publication.run(Reply::Created(Ok(())), 0),
        Action::CountSubscriptions
    ));
    match publication.run(Reply::Matched(Ok(1)), 0) {
        Action::Send(message) => match &message.fields[0].value {
            Value::Simple(Simple::Text { text, .. }) => assert_eq!(text, "hello"),
            _ => panic!("no text"),
        },
        _ => panic!("not sent"),
    }
    assert!(matches!(
        publication.run(Reply::Sent(Ok(())), 1000),
        Action::Spin
    ));
    assert!(matches!(
        publication.run(Reply::Spun(Ok(())), 1099),
        Action::Spin
    ));
    assert!(matches!(
        publication.run(Reply::Spun(Ok(())), 1100),
        Action::Done(kind) if kind == "k"
    ));
    assert!(publication.phase == Phase::Over);
}

#[test]
fn a_publication_is_done_after_one_send() {
    let (mut publication, mut action) = Publication::start("/chatter", None, &hello());
    let mut sent: usize = 0;
    let mut accepted: usize = 0;
    let mut now: u64 = 0;
    loop {
        now += 50;
        let reply = match action {
            Action::Open => Reply::Opened(Ok(())),
            Action::ReadGraph => Reply::Types(Ok(Some(vec!["k".to_string()]))),
            Action::Make(_) => Reply::Made(Ok(blank())),
            Action::Create(_) => Reply::Created(Ok(())),
            Action::CountSubscriptions => Reply::Matched(Ok(0)),
            Action::Send(_) => {
                sent += 1;
                accepted += 1;
                Reply::Sent(Ok(()))
            }
            Action::Spin => Reply::Spun(Ok(())),
            Action::Done(kind) => {
                assert_eq!(kind, "k");
                break;
            }
            Action::Fail(error) => panic!("{}", error),
        };
        action = publication.run(reply, now);
    }
    assert_eq!((sent, accepted), (1, 1));
    // A message that was not accepted is never reported as published.
    let mut publication = creating();
    publication.run(Reply::Created(Ok(())), 0);
    publication.run(Reply::Matched(Ok(1)), 0);
    assert_eq!(
        error(publication.run(Reply::Sent(Err("refused".to_string())), 0)),
        "refused"
    );
    assert!(publication.phase == Phase::Over);
}

#[test]
fn the_type_is_discovered_where_it_is_not_given() {
    let (mut publication, _) = Publication::start("/chatter", None, &hello());
    assert!(matches!(
        publication.run(Reply::Opened(Ok(())), 0),
        Action::ReadGraph
    ));
    assert!(matches!(
        publication.run(Reply::Types(Ok(None)), 4999),
        Action::Spin
    ));
    assert!(matches!(
        publication.run(Reply::Spun(Ok(())), 5000),
        Action::ReadGraph
    ));
    assert!(matches!(
        publication.run(Reply::Types(Ok(Some(vec!["std_msgs/msg/String".to_string()]))), 5000),
        Action::Make(kind) if kind == "std_msgs/msg/String"
    ));
    let (mut publication, _) = Publication::start("/chatter", None, &hello());
    publication.run(Reply::Opened(Ok(())), 0);
    assert_eq!(
        error(publication.run(Reply::Types(Ok(None)), 5000)),
        "topic /chatter has no unique advertised message type; pass the message type explicitly"
    );
    assert_eq!(
        discover("/t", Some(vec![]), 0, 0),
        Some(Err(
            "topic has multiple message types; a unique type is required".to_string()
        ))
    );
    assert_eq!(discover("/t", None, 1, 0), None);
}

#[test]
fn a_topic_without_subscriber_is_published_after_the_wait() {
    let mut publication = creating();
    publication.run(Reply::Created(Ok(())), 0);
    assert!(matches!(
        publication.run(Reply::Matched(Ok(0)), 1999),
        Action::Spin
    ));
    assert!(matches!(
        publication.run(Reply::Spun(Ok(())), 2000),
        Action::CountSubscriptions
    ));
    assert!(matches!(
        publication.run(Reply::Matched(Ok(0)), 2000),
        Action::Send(_)
    ));
}

#[test]
fn failures_publish_nothing() {
    let (publication, action) = Publication::start("chatter", Some("k"), &hello());
    assert_eq!(
        error(action),
        "topic must be a fully qualified ROS name starting with '/'"
    );
    assert!(publication.phase == Phase::Over);
    let (mut publication, _) = Publication::start("/chatter", Some("k"), &Json::Null);
    publication.run(Reply::Opened(Ok(())), 0);
    assert_eq!(
        error(publication.run(Reply::Made(Ok(blank())), 0)),
        "message must be a JSON object"
    );
    let mut publication = creating();
    assert_eq!(
        error(publication.run(Reply::Created(Err("no package".to_string())), 0)),
        "no package (message packages are resolved from the database server's AMENT_PREFIX_PATH; start the server with the ROS environment sourced)"
    );
    let (mut publication, _) = Publication::start("/chatter", None, &hello());
    assert_eq!(
        error(publication.run(Reply::Opened(Err("no node".to_string())), 0)),
        "no node"
    );
    assert_eq!(
        failure("/chatter", "no node"),
        "publish to /chatter failed: no node"
    );
}
