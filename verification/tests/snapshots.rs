//! Snapshots of the graph and of parameters, and the observer that saves them.
use pg_ros2::graph::{persist_snapshot, GraphSnapshot};
use pg_ros2::json::Json;
use pg_ros2::message::Real;
use pg_ros2::observer::{Notice, Observer};
use pg_ros2::order::{dedup, sort, text_before};
use pg_ros2::parameters::poll::{advertises, collect, normalize, peers, Input, Output, Poll, Stage};
use pg_ros2::parameters::{persist, value, Parameter, ParameterValue};
use pg_ros2::sql::{Argument, Statement};

fn pair(a: &str, b: &str) -> (String, String) {
    (a.to_string(), b.to_string())
}

fn first_snapshot() -> GraphSnapshot {
    GraphSnapshot {
        nodes: vec![pair("duplicate", "/"), pair("duplicate", "/")],
        topics: vec![
            pair("/quoted'_topic", "test/msg/A"),
            pair("/quoted'_topic", "test/msg/B"),
        ],
    }
}

fn texts(argument: &Argument) -> Vec<String> {
    match argument {
        Argument::Texts(texts) => texts.clone(),
        _ => panic!("not a list of texts"),
    }
}

fn status(statement: &Statement) -> (bool, Option<String>) {
    match (&statement.arguments[0], &statement.arguments[1]) {
        (Argument::Flag(changed), Argument::Text(error)) => (*changed, error.clone()),
        _ => panic!("not a status"),
    }
}

#[test]
fn test_snapshot_reconciliation() {
    let first = first_snapshot();
    let installed = Some((7, "ros2"));
    let statements = persist_snapshot(installed, Ok(&first), None, None);
    assert_eq!(statements.len(), 4);
    assert_eq!(
        statements[0].sql,
        "LOCK TABLE ros2.nodes, ros2.topics IN SHARE ROW EXCLUSIVE MODE; DELETE FROM ros2.nodes; DELETE FROM ros2.topics"
    );
    assert!(statements[0].arguments.is_empty());
    assert_eq!(
        statements[1].sql,
        "INSERT INTO ros2.nodes SELECT n, ns, statement_timestamp() FROM unnest($1::text[], $2::text[]) AS t(n, ns)"
    );
    assert_eq!(
        texts(&statements[1].arguments[0]),
        vec!["duplicate", "duplicate"]
    );
    assert_eq!(texts(&statements[1].arguments[1]), vec!["/", "/"]);
    assert_eq!(
        statements[2].sql,
        "INSERT INTO ros2.topics SELECT n, ty, statement_timestamp() FROM unnest($1::text[], $2::text[]) AS t(n, ty)"
    );
    assert_eq!(
        texts(&statements[2].arguments[1]),
        vec!["test/msg/A", "test/msg/B"]
    );
    assert_eq!(
        statements[3].sql,
        "INSERT INTO ros2.worker_status AS s (singleton, worker_pid, last_checked, last_refreshed, last_error) \
         VALUES (true, pg_backend_pid(), statement_timestamp(), \
         CASE WHEN $1 THEN statement_timestamp() END, $2) \
         ON CONFLICT (singleton) DO UPDATE SET worker_pid = EXCLUDED.worker_pid, \
         last_checked = EXCLUDED.last_checked, \
         last_refreshed = CASE WHEN $1 THEN EXCLUDED.last_refreshed ELSE s.last_refreshed END, \
         last_error = EXCLUDED.last_error"
    );
    assert_eq!(status(&statements[3]), (true, None));
    // Rechecking an unchanged graph must not rewrite either table.
    let statements = persist_snapshot(installed, Ok(&first), Some(&first), Some(7));
    assert_eq!(statements.len(), 1);
    assert_eq!(status(&statements[0]), (false, None));
    // A discovery failure records an error and preserves both tables.
    let statements = persist_snapshot(
        installed,
        Err("injected discovery failure"),
        Some(&first),
        Some(7),
    );
    assert_eq!(statements.len(), 1);
    assert_eq!(
        status(&statements[0]),
        (false, Some("injected discovery failure".to_string()))
    );
    let empty = GraphSnapshot {
        nodes: vec![],
        topics: vec![],
    };
    let statements = persist_snapshot(installed, Ok(&empty), Some(&first), Some(7));
    assert_eq!(statements.len(), 4);
    assert!(texts(&statements[1].arguments[0]).is_empty());
    assert_eq!(status(&statements[3]), (true, None));
    // Another installation is filled even where the graph has not changed.
    let statements = persist_snapshot(Some((8, "ros2")), Ok(&first), Some(&first), Some(7));
    assert_eq!(statements.len(), 4);
    assert!(persist_snapshot(None, Ok(&first), None, None).is_empty());
}

#[test]
fn snapshots_are_sorted_without_the_observer() {
    let snapshot = GraphSnapshot::read(
        &"me".to_string(),
        &"/".to_string(),
        vec![
            pair("talker", "/b"),
            pair("me", "/"),
            pair("talker", "/a"),
            pair("me", "/other"),
            pair("talker", "/a"),
        ],
        vec![
            ("/z".to_string(), vec!["b".to_string(), "a".to_string()]),
            ("/a".to_string(), vec!["c".to_string()]),
            ("/empty".to_string(), vec![]),
        ],
    );
    assert_eq!(
        snapshot.nodes,
        vec![
            pair("me", "/other"),
            pair("talker", "/a"),
            pair("talker", "/a"),
            pair("talker", "/b"),
        ]
    );
    assert_eq!(
        snapshot.topics,
        vec![pair("/a", "c"), pair("/z", "a"), pair("/z", "b")]
    );
    assert!(snapshot.same(&snapshot.copy()));
    assert!(!snapshot.same(&first_snapshot()));
}

#[test]
fn sorting_follows_the_order_of_strings() {
    let words: Vec<String> = ["b", "", "é", "a", "ab", "世", "a", "Z", "z"]
        .iter()
        .map(|word| word.to_string())
        .collect();
    let mut expected = words.clone();
    expected.sort();
    let sorted = sort(words);
    assert_eq!(sorted, expected);
    expected.dedup();
    assert_eq!(dedup(sorted), expected);
    assert!(text_before("a", "b"));
    assert!(text_before("a", "ab"));
    assert!(!text_before("a", "a"));
    assert_eq!(
        normalize(vec!["b".to_string(), "a".to_string(), "b".to_string()]),
        vec!["a".to_string(), "b".to_string()]
    );
}

fn double(value: f64) -> Real {
    if value.is_nan() {
        Real::Nan
    } else if value.is_infinite() {
        Real::Infinite {
            negative: value < 0.0,
        }
    } else {
        Real::Finite(format!("{}", value))
    }
}

fn parameter_value(kind: u8) -> ParameterValue {
    ParameterValue {
        kind,
        bool_value: true,
        integer_value: i64::MAX,
        double_value: double(1.5),
        string_value: "quote'\\\"".to_string(),
        byte_array_value: vec![0, 255],
        bool_array_value: vec![true, false],
        integer_array_value: vec![i64::MIN],
        double_array_value: vec![double(1.5)],
        string_array_value: vec!["a".to_string(), "b".to_string()],
    }
}

fn rendered(value: &Json) -> String {
    match value {
        Json::Null => "null".to_string(),
        Json::Bool(flag) => format!("{}", flag),
        Json::Unsigned(n) => format!("{}", n),
        Json::Signed(n) => format!("{}", n),
        Json::Float(text) => format!("float {}", text),
        Json::Text(text) => format!("text {}", text),
        Json::Array(items) => {
            let items: Vec<String> = items.iter().map(rendered).collect();
            format!("[{}]", items.join(","))
        }
        Json::Object(_) => panic!("no parameter is an object"),
    }
}

#[test]
fn test_parameter_types() {
    let expected = [
        ("not_set", "null"),
        ("bool", "true"),
        ("integer", "9223372036854775807"),
        ("double", "float 1.5"),
        ("string", "text quote'\\\""),
        ("byte_array", "[0,255]"),
        ("bool_array", "[true,false]"),
        ("integer_array", "[-9223372036854775808]"),
        ("double_array", "[float 1.5]"),
        ("string_array", "[text a,text b]"),
    ];
    for (kind, (name, json)) in expected.iter().enumerate() {
        let (found, value) = value(&parameter_value(kind as u8)).unwrap();
        assert_eq!(found, *name);
        assert_eq!(rendered(&value), *json);
    }
    let mut nan = parameter_value(3);
    nan.double_value = double(f64::NAN);
    assert_eq!(rendered(&value(&nan).unwrap().1), "null");
    let mut infinite = parameter_value(8);
    infinite.double_array_value = vec![double(0.5), double(f64::NEG_INFINITY)];
    assert_eq!(rendered(&value(&infinite).unwrap().1), "[float 0.5,null]");
    match value(&parameter_value(255)) {
        Err(error) => assert_eq!(error, "unknown ROS parameter type 255"),
        Ok(_) => panic!("no error"),
    }
}

fn row(text: &str) -> Parameter {
    Parameter {
        node: "node'".to_string(),
        namespace: "/ns".to_string(),
        name: "nested.greeting".to_string(),
        kind: "string",
        value: Json::Text(text.to_string()),
    }
}

#[test]
fn test_parameter_reconciliation() {
    let rows = vec![row("hello'\\\"")];
    let installed = Some((7, "ros2"));
    let statements = persist(installed, Ok(&rows), None, None);
    assert_eq!(statements.len(), 3);
    assert_eq!(
        statements[0].sql,
        "LOCK TABLE ros2.parameters IN SHARE ROW EXCLUSIVE MODE; DELETE FROM ros2.parameters"
    );
    assert_eq!(
        statements[1].sql,
        "INSERT INTO ros2.parameters VALUES ($1, $2, $3, $4, $5, statement_timestamp())"
    );
    assert!(matches!(
        &statements[1].arguments[0],
        Argument::Text(Some(node)) if node == "node'"
    ));
    assert!(matches!(
        &statements[1].arguments[4],
        Argument::Json(Some(Json::Text(text))) if text == "hello'\\\""
    ));
    assert_eq!(status(&statements[2]), (true, None));
    assert!(statements[2].sql.starts_with("INSERT INTO ros2.parameter_status AS s"));
    let statements = persist(installed, Ok(&rows), Some(&rows), Some(7));
    assert_eq!(statements.len(), 1);
    assert_eq!(status(&statements[0]), (false, None));
    let statements = persist(installed, Err("unreachable peer"), Some(&rows), Some(7));
    assert_eq!(statements.len(), 1);
    assert_eq!(
        status(&statements[0]),
        (false, Some("unreachable peer".to_string()))
    );
    let changed = vec![row("changed")];
    let statements = persist(installed, Ok(&changed), Some(&rows), Some(7));
    assert_eq!(statements.len(), 3);
    let none: Vec<Parameter> = vec![];
    let statements = persist(installed, Ok(&none), Some(&rows), Some(7));
    assert_eq!(statements.len(), 2);
    assert_eq!(status(&statements[1]), (true, None));
    assert!(persist(None, Ok(&rows), None, None).is_empty());
}

#[test]
fn zeros_of_either_sign_are_equal() {
    let with = |value: Json| {
        vec![Parameter {
            value,
            kind: "double",
            ..row("")
        }]
    };
    let zero = with(Json::Float("0".to_string()));
    let negative = with(Json::Float("-0".to_string()));
    let other = with(Json::Float("0.5".to_string()));
    let whole = with(Json::Unsigned(0));
    let installed = Some((7, "ros2"));
    assert_eq!(
        persist(installed, Ok(&zero), Some(&negative), Some(7)).len(),
        1
    );
    assert_eq!(persist(installed, Ok(&zero), Some(&other), Some(7)).len(), 3);
    assert_eq!(persist(installed, Ok(&zero), Some(&whole), Some(7)).len(), 3);
    let lists = |text: &str| {
        with(Json::Array(vec![
            Json::Float(text.to_string()),
            Json::Bool(true),
        ]))
    };
    assert_eq!(
        persist(installed, Ok(&lists("1.5")), Some(&lists("1.5")), Some(7)).len(),
        1
    );
    assert_eq!(
        persist(installed, Ok(&lists("1.5")), Some(&lists("2.5")), Some(7)).len(),
        3
    );
}

fn listing() -> Vec<(String, Vec<String>)> {
    vec![(
        "/ns/a/list_parameters".to_string(),
        vec!["rcl_interfaces/srv/ListParameters".to_string()],
    )]
}

fn names(list: &[&str]) -> Vec<String> {
    list.iter().map(|name| name.to_string()).collect()
}

#[test]
fn peers_are_the_distinct_nodes() {
    let found = peers(vec![
        pair("b", "/"),
        pair("a", "/ns//"),
        pair("b", "/"),
        pair("a", ""),
    ]);
    assert_eq!(found.len(), 3);
    assert_eq!(found[0].list, "/a/list_parameters");
    assert_eq!(found[1].namespace, "/ns//");
    assert_eq!(found[1].get, "/ns/a/get_parameters");
    assert_eq!(found[2].list, "/b/list_parameters");
    assert!(advertises(&listing(), &"/ns/a/list_parameters".to_string()));
    assert!(!advertises(&listing(), &"/b/list_parameters".to_string()));
    let wrong = vec![("/b/list_parameters".to_string(), names(&["other/srv/X"]))];
    assert!(!advertises(&wrong, &"/b/list_parameters".to_string()));
}

fn started() -> Poll {
    let found = peers(vec![pair("a", "/ns"), pair("b", "/")]);
    Poll::start(found, &vec![listing(), vec![]], 1000)
}

#[test]
fn a_poll_lists_and_gets() {
    let mut poll = started();
    assert_eq!(poll.clients.len(), 1);
    assert!(matches!(poll.tick(Input::Tick, 1000), Output::CheckReady));
    assert!(matches!(
        poll.tick(Input::Ready(Ok(false)), 1000),
        Output::Wait
    ));
    assert!(matches!(poll.tick(Input::Tick, 2000), Output::CheckReady));
    assert!(matches!(
        poll.tick(Input::Ready(Ok(true)), 2000),
        Output::CallList
    ));
    assert!(matches!(
        poll.tick(Input::ListCalled(Ok(())), 2000),
        Output::Wait
    ));
    assert_eq!(poll.deadline, 5000);
    assert!(matches!(poll.tick(Input::Tick, 2100), Output::CollectList));
    assert!(matches!(
        poll.tick(Input::Listed(vec![Ok(None)]), 2100),
        Output::Wait
    ));
    assert!(matches!(poll.tick(Input::Tick, 2200), Output::CollectList));
    let listed = vec![Ok(Some(names(&["z", "a", "z"])))];
    match poll.tick(Input::Listed(listed), 2200) {
        Output::CallGet(asked) => assert_eq!(asked, vec![names(&["a", "z"])]),
        _ => panic!("no request"),
    }
    assert!(matches!(
        poll.tick(Input::GetCalled(Ok(())), 2300),
        Output::Wait
    ));
    assert_eq!(poll.deadline, 5300);
    assert!(matches!(poll.tick(Input::Tick, 2400), Output::CollectGet));
    assert!(matches!(
        poll.tick(Input::Got(vec![Ok(None)]), 2400),
        Output::Wait
    ));
    let got = vec![Ok(Some(vec![parameter_value(1), parameter_value(4)]))];
    match poll.tick(Input::Got(got), 2500) {
        Output::Done(rows) => {
            assert_eq!(rows.len(), 2);
            assert_eq!(rows[0].node, "a");
            assert_eq!(rows[0].namespace, "/ns");
            assert_eq!(rows[0].name, "a");
            assert_eq!(rows[0].kind, "bool");
            assert_eq!(rows[1].name, "z");
            assert_eq!(rendered(&rows[1].value), "text quote'\\\"");
        }
        _ => panic!("not done"),
    }
}

#[test]
fn the_rows_of_a_poll_are_complete_and_in_order() {
    let kind = vec!["rcl_interfaces/srv/ListParameters".to_string()];
    let services = vec![
        ("/a/list_parameters".to_string(), kind.clone()),
        ("/b/list_parameters".to_string(), kind.clone()),
        ("/z/a/list_parameters".to_string(), kind),
    ];
    let getting = || {
        let found = peers(vec![pair("b", "/"), pair("a", "/z"), pair("a", "/")]);
        let mut poll = Poll::start(found, &vec![services.clone(), services.clone(), services.clone()], 0);
        assert_eq!(poll.clients.len(), 3);
        poll.tick(Input::ListCalled(Ok(())), 0);
        let listed = vec![
            Ok(Some(names(&["y", "x", "y"]))),
            Ok(Some(names(&[]))),
            Ok(Some(names(&["w"]))),
        ];
        match poll.tick(Input::Listed(listed), 0) {
            Output::CallGet(asked) => {
                assert_eq!(asked, vec![names(&["x", "y"]), names(&[]), names(&["w"])])
            }
            _ => panic!("no request"),
        }
        poll.tick(Input::GetCalled(Ok(())), 0);
        poll
    };
    // The answers come one by one and out of order.
    let mut poll = getting();
    let late = vec![Ok(None), Ok(Some(vec![])), Ok(Some(vec![parameter_value(1)]))];
    assert!(matches!(poll.tick(Input::Got(late), 0), Output::Wait));
    let first = vec![
        Ok(Some(vec![parameter_value(1), parameter_value(4)])),
        Ok(None),
        Ok(None),
    ];
    match poll.tick(Input::Got(first), 0) {
        Output::Done(rows) => {
            let found: Vec<(&str, &str, &str)> = rows
                .iter()
                .map(|row| (row.node.as_str(), row.namespace.as_str(), row.name.as_str()))
                .collect();
            assert_eq!(
                found,
                vec![("a", "/", "x"), ("a", "/", "y"), ("b", "/", "w")]
            );
        }
        _ => panic!("not done"),
    }
    // One value too few or too many from any node and there are no rows.
    for last in [vec![], vec![parameter_value(1), parameter_value(1)]] {
        let got = vec![
            Ok(Some(vec![parameter_value(1), parameter_value(4)])),
            Ok(Some(vec![])),
            Ok(Some(last)),
        ];
        let mut poll = getting();
        assert_eq!(
            failure(poll.tick(Input::Got(got), 0)),
            "//b: parameter response length mismatch"
        );
        // The answers were taken when their turn came.
        assert!(matches!(&poll.stage, Stage::Getting(values, _) if values.iter().all(Option::is_none)));
    }
    let got = vec![Ok(Some(vec![])), Ok(Some(vec![])), Ok(Some(vec![parameter_value(1)]))];
    let mut poll = getting();
    assert_eq!(
        failure(poll.tick(Input::Got(got), 0)),
        "//a: parameter response length mismatch"
    );
    match &poll.stage {
        Stage::Getting(values, _) => {
            assert!(values[0].is_none());
            assert_eq!(values[1].as_ref().unwrap().len(), 0);
            assert_eq!(values[2].as_ref().unwrap().len(), 1);
        }
        _ => panic!("not getting"),
    }
}

fn failure(output: Output) -> String {
    match output {
        Output::Fail(error) => error,
        _ => panic!("no failure"),
    }
}

#[test]
fn polls_fail_with_the_reason() {
    let mut poll = started();
    assert!(matches!(poll.tick(Input::Tick, 3999), Output::CheckReady));
    assert_eq!(
        failure(poll.tick(Input::Tick, 4000)),
        "parameter service discovery timed out after 3 seconds"
    );
    assert_eq!(
        failure(started().tick(Input::Ready(Err("gone".to_string())), 1000)),
        "gone"
    );
    assert_eq!(
        failure(started().tick(Input::ListCalled(Err("no call".to_string())), 1000)),
        "no call"
    );
    let mut poll = started();
    poll.tick(Input::ListCalled(Ok(())), 1000);
    assert_eq!(
        failure(poll.tick(Input::Tick, 4000)),
        "parameter list timed out after 3 seconds"
    );
    let mut poll = started();
    poll.tick(Input::ListCalled(Ok(())), 1000);
    assert_eq!(
        failure(poll.tick(Input::Listed(vec![Err("lost".to_string())]), 1000)),
        "lost"
    );
    let mut poll = started();
    poll.tick(Input::ListCalled(Ok(())), 1000);
    poll.tick(Input::Listed(vec![Ok(Some(names(&["p"])))]), 1000);
    assert!(poll.expects(&Input::GetCalled(Ok(()))));
    assert!(!poll.expects(&Input::Got(vec![])));
    assert_eq!(
        failure(poll.tick(Input::GetCalled(Err("no call".to_string())), 1000)),
        "no call"
    );
    assert!(matches!(&poll.stage, Stage::Listing(lists) if lists[0].is_none()));
    let getting = || {
        let mut poll = started();
        poll.tick(Input::ListCalled(Ok(())), 1000);
        poll.tick(Input::Listed(vec![Ok(Some(names(&["p"])))]), 1000);
        poll.tick(Input::GetCalled(Ok(())), 1000);
        poll
    };
    assert_eq!(
        failure(getting().tick(Input::Tick, 4000)),
        "parameter get timed out after 3 seconds"
    );
    assert_eq!(
        failure(getting().tick(Input::Got(vec![Ok(Some(vec![]))]), 1000)),
        "/ns/a: parameter response length mismatch"
    );
    assert_eq!(
        failure(getting().tick(
            Input::Got(vec![Ok(Some(vec![parameter_value(77)]))]),
            1000
        )),
        "unknown ROS parameter type 77"
    );
}

#[test]
fn answers_are_taken_in_until_the_first_error() {
    let mut results = vec![None, Some(1), None, None];
    assert_eq!(
        collect(
            &mut results,
            vec![Ok(Some(7)), Err("late".to_string()), Ok(None), Ok(Some(9))]
        ),
        Ok(false)
    );
    assert_eq!(results, vec![Some(7), Some(1), None, Some(9)]);
    let mut results = vec![None, None, None];
    assert_eq!(
        collect(
            &mut results,
            vec![Ok(Some(7)), Err("gone".to_string()), Ok(Some(9))]
        ),
        Err("gone".to_string())
    );
    assert_eq!(results, vec![Some(7), None, None]);
    let mut results = vec![None];
    assert_eq!(collect(&mut results, vec![Ok(Some(7))]), Ok(true));
}

fn log(notice: Option<Notice>) -> String {
    match notice {
        Some(Notice::Log(text)) => format!("log {}", text),
        Some(Notice::Warning(text)) => format!("warning {}", text),
        None => "nothing".to_string(),
    }
}

#[test]
fn the_observer_saves_what_has_changed() {
    let mut observer = Observer::new(0);
    assert!(!observer.started(999));
    assert!(observer.started(1000));
    let installed = Some((7, "ros2"));
    let read = || Ok(first_snapshot());
    assert_eq!(log(observer.discovered(&read())), "nothing");
    assert_eq!(observer.statements(installed, &read()).len(), 4);
    let (notice, poll) = observer.settle(read(), Some(7), 1000);
    assert_eq!(log(notice), "nothing");
    assert_eq!(poll.unwrap().len(), 1);
    assert_eq!(observer.statements(installed, &read()).len(), 1);
    // No second poll while one is under way.
    assert!(observer.settle(read(), Some(7), 9000).1.is_none());
    let rows = || Ok(vec![row("x")]);
    assert_eq!(observer.parameter_statements(installed, &rows()).len(), 3);
    assert_eq!(log(observer.finish_poll(rows(), Some(7), 9000)), "nothing");
    assert_eq!(observer.parameter_statements(installed, &rows()).len(), 1);
    assert!(observer.settle(read(), Some(7), 13_999).1.is_none());
    assert!(observer.settle(read(), Some(7), 14_000).1.is_some());
    assert_eq!(
        log(observer.finish_poll(Err("late".to_string()), Some(7), 14_000)),
        "warning pg_ros2 event=parameter_discovery_failed error=late"
    );
    // The failed poll keeps what was saved.
    assert_eq!(observer.parameter_statements(installed, &rows()).len(), 1);
}

#[test]
fn the_observer_logs_changes_only() {
    let mut observer = Observer::new(0);
    let broken = || Err("broken".to_string());
    assert_eq!(
        log(observer.discovered(&broken())),
        "warning pg_ros2 event=discovery_failed error=broken"
    );
    observer.settle(Ok(first_snapshot()), Some(7), 0);
    observer.settle(broken(), Some(7), 1000);
    assert_eq!(log(observer.discovered(&broken())), "nothing");
    assert_eq!(
        log(observer.discovered(&Err("worse".to_string()))),
        "warning pg_ros2 event=discovery_failed error=worse"
    );
    assert_eq!(
        log(observer.discovered(&Ok(first_snapshot()))),
        "log pg_ros2 event=discovery_recovered"
    );
    // A failure forgets nothing, an extension that is gone everything.
    let installed = Some((7, "ros2"));
    assert_eq!(
        observer
            .statements(installed, &Ok(first_snapshot()))
            .len(),
        1
    );
    let (notice, poll) = observer.settle(Ok(first_snapshot()), None, 2000);
    assert_eq!(
        log(notice),
        "log pg_ros2 event=waiting_for_extension hint=run_CREATE_EXTENSION_pg_ros2_in_configured_database"
    );
    assert!(poll.is_none());
    assert_eq!(
        log(observer.settle(Ok(first_snapshot()), None, 3000).0),
        "nothing"
    );
    assert_eq!(
        observer
            .statements(installed, &Ok(first_snapshot()))
            .len(),
        4
    );
}
