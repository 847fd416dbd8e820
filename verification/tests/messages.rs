//! Encoding and decoding of messages, and the round trip between the two.
use pg_ros2::json::{Entry, Json};
use pg_ros2::message::{is_single, Field, List, Message, Precision, Real, Simple, Value, Width};
use pg_ros2::publish::json::{
    check_bound, check_length, decode, float64, hold, integer, json_array, reset, resize, unknown_field,
    unsupported,
};
use pg_ros2::subscriptions::json::{payload, Output, LIMIT};
use pg_ros2::text::{byte_len, characters, combine, render_integer};

fn to_json(value: &serde_json::Value) -> Json {
    match value {
        serde_json::Value::Null => Json::Null,
        serde_json::Value::Bool(flag) => Json::Bool(*flag),
        serde_json::Value::Number(number) => {
            if let Some(n) = number.as_u64() {
                Json::Unsigned(n)
            } else if let Some(n) = number.as_i64() {
                Json::Signed(n)
            } else {
                Json::Float(format!("{}", number.as_f64().unwrap()))
            }
        }
        serde_json::Value::String(text) => Json::Text(text.clone()),
        serde_json::Value::Array(items) => Json::Array(items.iter().map(to_json).collect()),
        serde_json::Value::Object(entries) => Json::Object(
            entries
                .iter()
                .map(|(key, value)| Entry {
                    key: key.clone(),
                    value: to_json(value),
                })
                .collect(),
        ),
    }
}

fn parse(text: &str) -> Json {
    to_json(&serde_json::from_str::<serde_json::Value>(text).unwrap())
}

fn text(value: &str) -> Simple {
    Simple::Text {
        bound: None,
        text: value.to_string(),
    }
}

fn bounded_text(bound: usize, value: &str) -> Simple {
    Simple::Text {
        bound: Some(bound),
        text: value.to_string(),
    }
}

fn number(value: &str) -> Simple {
    Simple::Real(Precision::Single, Real::Finite(value.to_string()))
}

fn double(value: &str) -> Simple {
    Simple::Real(Precision::Double, Real::Finite(value.to_string()))
}

fn field(name: &str, value: Value) -> Field {
    Field {
        name: name.to_string(),
        value,
    }
}

fn list(prototype: Simple, elements: Vec<Simple>) -> List {
    List {
        prototype,
        elements,
    }
}

fn string_message(data: &str) -> Message {
    Message {
        fields: vec![field("data", Value::Simple(text(data)))],
    }
}

fn scalars() -> Message {
    Message {
        fields: vec![
            field("flag", Value::Simple(Simple::Boolean(false))),
            field("byte", Value::Simple(Simple::Integer(Width::U8, 0))),
            field("single", Value::Simple(number("1.125"))),
        ],
    }
}

fn int32(value: i128) -> Simple {
    Simple::Integer(Width::I32, value)
}

fn uint64(value: i128) -> Simple {
    Simple::Integer(Width::U64, value)
}

fn lists(kind: &str) -> Message {
    let ints = || {
        list(
            int32(0),
            vec![int32(0), int32(2147483647), int32(-2147483648)],
        )
    };
    let longs = || {
        list(
            uint64(0),
            vec![uint64(0), uint64(1), uint64(18446744073709551615)],
        )
    };
    let floats = || {
        list(
            number("0"),
            vec![number("1.125"), number("0"), number("-1.125")],
        )
    };
    let doubles = || list(double("0"), vec![double("3.1415"), double("0"), double("-3.1415")]);
    let strings = || list(text(""), vec![text(""), text("max value"), text("min value")]);
    let bounded = || list(bounded_text(3, ""), vec![bounded_text(3, "abc")]);
    let messages = || {
        list(
            Simple::Message(scalars()),
            vec![Simple::Message(scalars()), Simple::Message(scalars())],
        )
    };
    let wrap = |list: List| match kind {
        "Arrays" => Value::Array(list),
        "UnboundedSequences" => Value::Sequence(list),
        _ => Value::BoundedSequence { bound: 3, list },
    };
    Message {
        fields: vec![
            field("int32_values_default", wrap(ints())),
            field("uint64_values_default", wrap(longs())),
            field("float32_values_default", wrap(floats())),
            field("string_values_default", wrap(strings())),
            field("bounded_values", wrap(bounded())),
            field("basic_types_values", wrap(messages())),
            field("alignment_check", Value::Simple(int32(0))),
            field("float64_values_default", wrap(doubles())),
        ],
    }
}

fn nested() -> Message {
    Message {
        fields: vec![field(
            "basic_types_value",
            Value::Simple(Simple::Message(scalars())),
        )],
    }
}

fn deep(levels: usize) -> Message {
    let mut message = Message { fields: vec![] };
    for _ in 0..levels {
        message = Message {
            fields: vec![field("inner", Value::Simple(Simple::Message(message)))],
        };
    }
    message
}

fn stored_simple(simple: Simple) -> Simple {
    match simple {
        Simple::Nearest(text) => number(&format!("{}", text.parse::<f64>().unwrap() as f32)),
        Simple::Message(message) => Simple::Message(stored(message)),
        other => other,
    }
}

fn stored_list(list: List) -> List {
    List {
        prototype: list.prototype,
        elements: list.elements.into_iter().map(stored_simple).collect(),
    }
}

// What a message holds once its numbers are rounded to their fields.
fn stored(message: Message) -> Message {
    let value = |value: Value| match value {
        Value::Simple(simple) => Value::Simple(stored_simple(simple)),
        Value::Array(list) => Value::Array(stored_list(list)),
        Value::Sequence(list) => Value::Sequence(stored_list(list)),
        Value::BoundedSequence { bound, list } => Value::BoundedSequence {
            bound,
            list: stored_list(list),
        },
    };
    Message {
        fields: message
            .fields
            .into_iter()
            .map(|field| Field {
                name: field.name,
                value: value(field.value),
            })
            .collect(),
    }
}

fn encoded(message: &Message) -> String {
    payload("/test", "test/msg/Kind", 0, message).unwrap()
}

#[test]
fn test_json_string_and_payload_limit() {
    let message = string_message("hello \"ROS\"\n世界");
    let encoded = payload("/test", "std_msgs/msg/String", 7, &message).unwrap();
    let parsed: serde_json::Value = serde_json::from_str(&encoded).unwrap();
    assert_eq!(parsed["message"]["data"], "hello \"ROS\"\n世界");
    assert_eq!(parsed["sequence"], 7);
    let message = string_message(&"x".repeat(8000));
    assert_eq!(
        payload("/test", "std_msgs/msg/String", 8, &message),
        Err("notification payload exceeds 7999 bytes")
    );
}

#[test]
fn test_json_nested_arrays_and_sequences() {
    for kind in ["Arrays", "UnboundedSequences", "BoundedSequences", "Nested"] {
        let message = if kind == "Nested" {
            nested()
        } else {
            lists(kind)
        };
        let encoded = payload("/test", kind, 0, &message).unwrap();
        let parsed: serde_json::Value = serde_json::from_str(&encoded).unwrap();
        assert!(parsed["message"].is_object());
        if kind.ends_with("Sequences") {
            let values = &parsed["message"]["int32_values_default"];
            assert_eq!(values[0], 0);
            assert_eq!(values[1], 2147483647_i32);
            assert_eq!(values[2], -2147483648_i32);
            assert_eq!(parsed["message"]["uint64_values_default"][2], u64::MAX);
        }
    }
    let mut output = Output::default();
    output
        .value(
            &Value::Array(list(int32(0), vec![int32(1), int32(-2), int32(3)])),
            0,
        )
        .unwrap();
    assert_eq!(output.text, "[1,-2,3]");
    let mut output = Output::default();
    output
        .value(&Value::Simple(Simple::Real(Precision::Double, Real::Nan)), 0)
        .unwrap();
    assert_eq!(output.text, "null");
}

#[test]
fn test_output_byte_limit() {
    let mut output = Output::default();
    output.push(&"x".repeat(LIMIT)).unwrap();
    assert!(output.push("x").is_err());
    assert_eq!(output.text.len(), LIMIT);
    let mut output = Output::default();
    assert!(output.string(&"\n".repeat(4000)).is_err());
}

// The text of an output with room for `room` bytes after a write that fails.
fn cut(room: usize, write: impl Fn(&mut Output) -> Result<(), &'static str>) -> String {
    let mut output = Output::default();
    output.push(&"x".repeat(LIMIT - room)).unwrap();
    assert_eq!(
        write(&mut output),
        Err("notification payload exceeds 7999 bytes")
    );
    output.text[LIMIT - room..].to_string()
}

#[test]
fn numbers_are_written_in_steps() {
    // A sign stands where the digits do not fit.
    assert_eq!(cut(0, |output| output.number(-7)), "");
    assert_eq!(cut(1, |output| output.number(-7)), "-");
    assert_eq!(cut(2, |output| output.number(-75)), "-");
    assert_eq!(cut(1, |output| output.number(75)), "");
    let real = |text: &str| Real::Finite(text.to_string());
    // The digits before the point, the point, and those behind it.
    assert_eq!(cut(3, |output| output.float(&real("-12.5"))), "-12");
    assert_eq!(cut(4, |output| output.float(&real("-12.5"))), "-12.");
    assert_eq!(cut(2, |output| output.float(&real("-12.5"))), "-");
    // Below one: a zero with the point, zeros, and the digits.
    assert_eq!(cut(1, |output| output.float(&real("0.00125"))), "");
    assert_eq!(cut(3, |output| output.float(&real("0.00125"))), "0.");
    assert_eq!(cut(6, |output| output.float(&real("0.00125"))), "0.00");
    // Without a point: the digits, and runs of zeros.
    assert_eq!(cut(1, |output| output.float(&real("10"))), "1");
    assert_eq!(cut(2, |output| output.float(&real("1200"))), "12");
    assert_eq!(cut(0, |output| output.float(&real("0"))), "");
    let huge = format!("1{}", "0".repeat(100));
    assert_eq!(cut(64, |output| output.float(&real(&huge))), "1");
    assert_eq!(
        cut(100, |output| output.float(&real(&huge))),
        format!("1{}", "0".repeat(64))
    );
    assert_eq!(cut(3, |output| output.float(&Real::Nan)), "");
    // A number that fits is written whole.
    for text in ["0", "-0", "0.5", "-0.001", "12.25", "100", "123", "-1200"] {
        let mut output = Output::default();
        output.push(&"x".repeat(LIMIT - text.len())).unwrap();
        assert_eq!(output.float(&real(text)), Ok(()));
        assert!(output.text.ends_with(text));
    }
}

#[test]
fn payload_is_the_documented_envelope() {
    assert_eq!(
        payload("/chatter", "std_msgs/msg/String", 0, &string_message("hello")).unwrap(),
        r#"{"topic":"/chatter","message_type":"std_msgs/msg/String","sequence":0,"message":{"data":"hello"}}"#
    );
}

#[test]
fn payload_escapes_control_characters() {
    let message = string_message("\u{8}\t\n\u{c}\r\u{1f}\u{7f}\\\"é");
    assert_eq!(
        encoded(&message),
        "{\"topic\":\"/test\",\"message_type\":\"test/msg/Kind\",\"sequence\":0,\"message\":{\"data\":\"\\b\\t\\n\\f\\r\\u001f\u{7f}\\\\\\\"é\"}}"
    );
}

#[test]
fn payload_fills_the_limit_exactly() {
    let envelope = encoded(&string_message("")).len();
    let fits = string_message(&"x".repeat(LIMIT - envelope));
    assert_eq!(encoded(&fits).len(), LIMIT);
    let over = string_message(&"x".repeat(LIMIT - envelope + 1));
    assert_eq!(
        payload("/test", "test/msg/Kind", 0, &over),
        Err("notification payload exceeds 7999 bytes")
    );
}

#[test]
fn payload_rejects_deep_nesting() {
    assert!(payload("/test", "test/msg/Kind", 0, &deep(64)).is_ok());
    assert_eq!(
        payload("/test", "test/msg/Kind", 0, &deep(65)),
        Err("message nesting exceeds 64 levels")
    );
}

#[test]
fn payload_rejects_long_doubles() {
    let values = vec![
        Value::Simple(Simple::LongDouble),
        Value::Array(list(Simple::LongDouble, vec![Simple::LongDouble])),
        Value::Sequence(list(Simple::LongDouble, vec![])),
        Value::BoundedSequence {
            bound: 2,
            list: list(Simple::LongDouble, vec![]),
        },
    ];
    for value in values {
        let message = Message {
            fields: vec![field("wide", value)],
        };
        assert_eq!(
            payload("/test", "test/msg/Kind", 0, &message),
            Err("long double fields are unsupported")
        );
    }
}

#[test]
fn payloads_of_equal_messages_differ_by_number() {
    let message = string_message("same");
    let first = payload("/t", "k", 9, &message).unwrap();
    let second = payload("/t", "k", 10, &message).unwrap();
    assert_ne!(first, second);
    assert_eq!(
        first,
        r#"{"topic":"/t","message_type":"k","sequence":9,"message":{"data":"same"}}"#
    );
}

fn round_trip(original: Message, blank: Message) {
    let encoded = payload("/test", "kind", 0, &original).unwrap();
    let parsed: serde_json::Value = serde_json::from_str(&encoded).unwrap();
    let mut decoded = blank;
    decode(&mut decoded, &to_json(&parsed["message"])).unwrap();
    let reencoded = payload("/test", "kind", 0, &stored(decoded)).unwrap();
    assert_eq!(encoded, reencoded);
}

#[test]
fn test_round_trip_string() {
    round_trip(string_message(""), string_message(""));
    round_trip(string_message("a \"b\" \\ \u{1}"), string_message("old"));
}

#[test]
fn test_round_trip_arrays() {
    round_trip(lists("Arrays"), lists("Arrays"));
}

#[test]
fn test_round_trip_unbounded_sequences() {
    round_trip(lists("UnboundedSequences"), lists("UnboundedSequences"));
}

#[test]
fn test_round_trip_bounded_sequences() {
    round_trip(lists("BoundedSequences"), lists("BoundedSequences"));
}

#[test]
fn test_round_trip_nested() {
    round_trip(nested(), nested());
}

#[test]
fn infinite_numbers_come_back_as_not_a_number() {
    let original = Message {
        fields: vec![field(
            "value",
            Value::Simple(Simple::Real(Precision::Double, Real::Infinite { negative: true })),
        )],
    };
    let blank = Message {
        fields: vec![field("value", Value::Simple(number("3")))],
    };
    let encoded = payload("/t", "k", 0, &original).unwrap();
    assert!(encoded.ends_with(r#""message":{"value":null}}"#));
    let mut decoded = blank;
    decode(&mut decoded, &parse(r#"{"value":null}"#)).unwrap();
    assert!(matches!(
        decoded.fields[0].value,
        Value::Simple(Simple::Real(_, Real::Nan))
    ));
    round_trip(original, decoded);
}

fn decoded(mut message: Message, json: &str) -> Result<Message, String> {
    decode(&mut message, &parse(json))?;
    Ok(message)
}

fn error_of(message: Message, json: &str) -> String {
    match decoded(message, json) {
        Ok(_) => panic!("no error for {}", json),
        Err(error) => error,
    }
}

fn texts(value: &Value) -> Vec<String> {
    match value {
        Value::Array(list) | Value::Sequence(list) => list
            .elements
            .iter()
            .map(|element| match element {
                Simple::Text { text, .. } => text.clone(),
                _ => panic!("not a text"),
            })
            .collect(),
        _ => panic!("not a list"),
    }
}

fn integers(value: &Value) -> Vec<i128> {
    match value {
        Value::Array(list) | Value::Sequence(list) => list
            .elements
            .iter()
            .map(|element| match element {
                Simple::Integer(_, value) => *value,
                _ => panic!("not an integer"),
            })
            .collect(),
        _ => panic!("not a list"),
    }
}

#[test]
fn test_decode_scalars_and_rejections() {
    let message = decoded(string_message(""), r#"{"data":"hello \"ROS\"\n世界"}"#).unwrap();
    match &message.fields[0].value {
        Value::Simple(Simple::Text { text, .. }) => assert_eq!(text, "hello \"ROS\"\n世界"),
        _ => panic!("missing string field"),
    }
    for json in [r#"{"missing":1}"#, r#"{"data":1}"#, r#"[1,2]"#, "null"] {
        assert!(decoded(string_message(""), json).is_err(), "{}", json);
    }
}

#[test]
fn test_decode_arrays_and_sequences() {
    let message = decoded(
        lists("Arrays"),
        r#"{"int32_values_default":[1,-2,3],"uint64_values_default":[0,1,18446744073709551615],"string_values_default":["a","b","c"]}"#,
    )
    .unwrap();
    assert_eq!(
        integers(&message.fields[1].value),
        vec![0, 1, u64::MAX as i128]
    );
    assert_eq!(texts(&message.fields[3].value), vec!["a", "b", "c"]);
    assert_eq!(integers(&message.fields[0].value), vec![1, -2, 3]);
    assert!(decoded(lists("Arrays"), r#"{"int32_values_default":[1,2]}"#).is_err());
    assert!(decoded(
        lists("Arrays"),
        r#"{"int32_values_default":[1,2,9999999999]}"#
    )
    .is_err());
}

#[test]
fn test_decode_sequences() {
    let message = decoded(
        lists("UnboundedSequences"),
        r#"{"int32_values_default":[1,-2,3],"float64_values_default":[0.5,1.5]}"#,
    )
    .unwrap();
    assert_eq!(integers(&message.fields[0].value), vec![1, -2, 3]);
    match &message.fields[7].value {
        Value::Sequence(list) => {
            assert_eq!(list.elements.len(), 2);
            assert_eq!(finite(&list.elements[0]), 0.5);
            assert_eq!(finite(&list.elements[1]), 1.5);
        }
        _ => panic!("missing float sequence"),
    }
}

fn finite(simple: &Simple) -> f64 {
    match simple {
        Simple::Real(_, Real::Finite(text)) => text.parse().unwrap(),
        Simple::Nearest(text) => f64::from(text.parse::<f64>().unwrap() as f32),
        _ => panic!("not a finite number"),
    }
}

#[test]
fn test_decode_null_float_is_nan() {
    let message = decoded(
        lists("Arrays"),
        r#"{"float32_values_default":[1.5,null,2.5]}"#,
    )
    .unwrap();
    match &message.fields[2].value {
        Value::Array(list) => {
            assert_eq!(finite(&list.elements[0]), 1.5);
            assert!(matches!(list.elements[1], Simple::Real(_, Real::Nan)));
            assert_eq!(finite(&list.elements[2]), 2.5);
        }
        _ => panic!("missing float array"),
    }
}

#[test]
fn integers_are_read_into_numbers() {
    let blank = || Message {
        fields: vec![field("value", Value::Simple(number("0")))],
    };
    let message = decoded(blank(), r#"{"value":7}"#).unwrap();
    match &message.fields[0].value {
        Value::Simple(Simple::Nearest(text)) => assert_eq!(text, "7"),
        _ => panic!("not a number"),
    }
    assert!(encoded(&stored(message)).ends_with(r#""message":{"value":7}}"#));
    // The nearest double is not the integer itself.
    let wide = Message {
        fields: vec![field("value", Value::Simple(double("0")))],
    };
    let message = decoded(wide, r#"{"value":9007199254740993}"#).unwrap();
    match &message.fields[0].value {
        Value::Simple(Simple::Real(Precision::Double, Real::Finite(text))) => {
            assert_eq!(text, "9007199254740992")
        }
        _ => panic!("not a number"),
    }
    match float64(&Json::Signed(-5), "x") {
        Ok(Real::Finite(text)) => assert_eq!(text, "-5"),
        _ => panic!("not a number"),
    }
}

#[test]
fn fields_of_single_precision_hold_the_nearest_number() {
    let blank = || Message {
        fields: vec![field("value", Value::Simple(number("0")))],
    };
    for (json, nearest, rounded) in [
        ("16777217", "16777217", "16777216"),
        ("0.1", "0.1", "0.1"),
        ("1.00000001", "1.00000001", "1"),
        ("9007199254740993", "9007199254740992", "9007199000000000"),
    ] {
        let mut message = decoded(blank(), &format!(r#"{{"value":{}}}"#, json)).unwrap();
        match &message.fields[0].value {
            Value::Simple(Simple::Nearest(text)) => assert_eq!(text, nearest),
            _ => panic!("not a number to be rounded"),
        }
        // It has no text of its own until it is rounded.
        assert_eq!(
            payload("/t", "k", 0, &message),
            Err("number has not been rounded")
        );
        // The field can be read into again.
        decode(&mut message, &parse(r#"{"value":null}"#)).unwrap();
        assert!(matches!(
            message.fields[0].value,
            Value::Simple(Simple::Real(Precision::Single, Real::Nan))
        ));
        decode(&mut message, &parse(&format!(r#"{{"value":{}}}"#, json))).unwrap();
        assert!(error_of(stored(blank()), r#"{"value":true}"#)
            .ends_with("expected a JSON number or null"));
        assert!(encoded(&stored(message)).ends_with(&format!(r#"{{"value":{}}}}}"#, rounded)));
    }
    // A field of double precision holds the number itself.
    assert!(matches!(
        hold(Precision::Double, Real::Finite("16777217".to_string())),
        Simple::Real(Precision::Double, Real::Finite(text)) if text == "16777217"
    ));
    assert!(matches!(
        hold(Precision::Single, Real::Finite("16777217".to_string())),
        Simple::Nearest(text) if text == "16777217"
    ));
}

#[test]
fn numbers_must_be_finite_in_the_precision_of_their_field() {
    let huge = format!("1{}", "0".repeat(300));
    let error = |name: &str| format!("{}: number {} is out of range", name, huge);
    // A scalar.
    let mut message = scalars();
    assert_eq!(
        decode(&mut message, &parse(r#"{"byte":3,"single":1e300}"#)),
        Err(error("single"))
    );
    assert!(matches!(
        message.fields[1].value,
        Value::Simple(Simple::Integer(Width::U8, 3))
    ));
    match &message.fields[2].value {
        Value::Simple(simple) => assert_eq!(finite(simple), 1.125),
        _ => panic!("not a number"),
    }
    assert_eq!(
        error_of(scalars(), r#"{"single":-1e300}"#),
        format!("single: number -{} is out of range", huge)
    );
    // An array, and both kinds of sequence.
    for kind in ["Arrays", "UnboundedSequences", "BoundedSequences"] {
        assert_eq!(
            error_of(lists(kind), r#"{"float32_values_default":[1.5,1e300,2.5]}"#),
            error("float32_values_default")
        );
        assert!(decoded(lists(kind), r#"{"float32_values_default":[1.5,1e38,2.5]}"#).is_ok());
    }
    // A nested message.
    assert_eq!(
        error_of(nested(), r#"{"basic_types_value":{"single":1e300}}"#),
        error("basic_types_value.single")
    );
    // A field of double precision holds it.
    let double = Message {
        fields: vec![field(
            "value",
            Value::Simple(Simple::Real(Precision::Double, Real::Nan)),
        )],
    };
    let message = decoded(double, r#"{"value":1e300}"#).unwrap();
    match &message.fields[0].value {
        Value::Simple(Simple::Real(Precision::Double, Real::Finite(text))) => {
            assert_eq!(text, &huge)
        }
        _ => panic!("not a double"),
    }
}

#[test]
fn single_precision_ends_where_rounding_gives_infinity() {
    for number in [
        0.0,
        -0.0,
        1.5,
        -1e-300,
        f32::MAX as f64,
        f32::MIN as f64,
        3.4028235677973362e38,
        -3.4028235677973362e38,
        3.4028235677973366e38,
        -3.4028235677973366e38,
        9e38,
        1e39,
        1e300,
        f64::MAX,
        f64::MIN,
    ] {
        assert_eq!(
            is_single(&number.to_string()),
            (number as f32).is_finite(),
            "{}",
            number
        );
    }
    assert!(is_single("000340282350000000000000000000000000000000.75"));
    assert!(is_single(&f32::MAX.to_string()));
    assert!(decoded(scalars(), r#"{"single":18446744073709551615}"#).is_ok());
}

#[test]
fn decoding_errors_say_what_is_wrong() {
    let message = || lists("BoundedSequences");
    for (json, error) in [
        ("[]", "message must be a JSON object"),
        (r#"{"a\"b":1}"#, r#"unknown message field "a\"b""#),
        (
            r#"{"int32_values_default":1}"#,
            "int32_values_default: expected a JSON array",
        ),
        (
            r#"{"int32_values_default":[true]}"#,
            "int32_values_default: expected a JSON integer",
        ),
        (
            r#"{"int32_values_default":[1.0]}"#,
            "int32_values_default: expected a JSON integer",
        ),
        (
            r#"{"int32_values_default":[2147483648]}"#,
            "int32_values_default: integer 2147483648 is out of range",
        ),
        (
            r#"{"uint64_values_default":[-1]}"#,
            "uint64_values_default: integer -1 is out of range",
        ),
        (
            r#"{"int32_values_default":[1,2,3,4]}"#,
            "int32_values_default: 4 sequence elements exceed the ROS bound of 3",
        ),
        (
            r#"{"float32_values_default":["x"]}"#,
            "float32_values_default: expected a JSON number or null",
        ),
        (
            r#"{"string_values_default":[1]}"#,
            "string_values_default: expected a JSON string",
        ),
        (
            r#"{"bounded_values":["abcd"]}"#,
            "bounded_values: string exceeds its ROS bound",
        ),
        (
            r#"{"basic_types_values":[1]}"#,
            "basic_types_values: expected a JSON object",
        ),
        (
            r#"{"basic_types_values":[{"flag":1}]}"#,
            "basic_types_values.flag: expected a JSON boolean",
        ),
        (
            r#"{"basic_types_values":[{"other":1}]}"#,
            r#"basic_types_values: unknown message field "other""#,
        ),
    ] {
        assert_eq!(error_of(message(), json), error);
    }
    assert_eq!(
        error_of(lists("Arrays"), r#"{"int32_values_default":[1,2]}"#),
        "int32_values_default: expected 3 array elements, got 2"
    );
}

#[test]
fn bounds_count_characters() {
    let message = decoded(
        lists("UnboundedSequences"),
        r#"{"bounded_values":["äöü","x"]}"#,
    )
    .unwrap();
    assert_eq!(texts(&message.fields[4].value), vec!["äöü", "x"]);
}

#[test]
fn long_doubles_cannot_be_decoded() {
    for (value, json) in [
        (Value::Simple(Simple::LongDouble), r#"{"wide":1}"#),
        (
            Value::Array(list(Simple::LongDouble, vec![Simple::LongDouble])),
            r#"{"wide":[1]}"#,
        ),
        (
            Value::Sequence(list(Simple::LongDouble, vec![])),
            r#"{"wide":[]}"#,
        ),
        (
            Value::BoundedSequence {
                bound: 1,
                list: list(Simple::LongDouble, vec![]),
            },
            r#"{"wide":[]}"#,
        ),
    ] {
        let message = Message {
            fields: vec![field("wide", value)],
        };
        assert_eq!(
            error_of(message, json),
            "wide: long double fields are unsupported"
        );
    }
    assert_eq!(
        unsupported("wide"),
        "wide: long double fields are unsupported"
    );
}

#[test]
fn absent_fields_keep_their_values() {
    let message = decoded(lists("Arrays"), r#"{"alignment_check":5}"#).unwrap();
    assert_eq!(
        integers(&message.fields[0].value),
        vec![0, 2147483647, -2147483648]
    );
    assert_eq!(texts(&message.fields[3].value), vec!["", "max value", "min value"]);
}

#[test]
fn absent_fields_keep_their_values_where_decoding_fails() {
    let mut message = lists("Arrays");
    let value = parse(r#"{"alignment_check":5,"int32_values_default":[1,true,3]}"#);
    assert!(decode(&mut message, &value).is_err());
    let blank = lists("Arrays");
    for i in 1..6 {
        let kept = Message {
            fields: vec![field("kept", message.fields.remove(1).value)],
        };
        let before = Message {
            fields: vec![field("kept", lists("Arrays").fields.remove(i).value)],
        };
        assert_eq!(encoded(&kept), encoded(&before), "{}", blank.fields[i].name);
    }
}

#[test]
fn a_payload_is_read_back() {
    let message = Message {
        fields: vec![
            field("text", Value::Simple(text("\u{1}\"\\\n\u{1f}é/"))),
            field("half", Value::Simple(number("-0.5"))),
            field("whole", Value::Simple(number("2"))),
            field("count", Value::Simple(int32(-7))),
            field("none", Value::Sequence(list(int32(0), vec![]))),
        ],
    };
    let written = payload("/a\"b", "kind", u64::MAX, &message).unwrap();
    let read: serde_json::Value = serde_json::from_str(&written).unwrap();
    assert_eq!(read["topic"].as_str(), Some("/a\"b"));
    assert_eq!(read["message_type"].as_str(), Some("kind"));
    assert_eq!(read["sequence"].as_u64(), Some(u64::MAX));
    assert_eq!(
        read["message"]["text"].as_str(),
        Some("\u{1}\"\\\n\u{1f}é/")
    );
    assert_eq!(read["message"]["half"].as_f64(), Some(-0.5));
    assert_eq!(read["message"]["whole"].as_f64(), Some(2.0));
    assert_eq!(read["message"]["count"].as_i64(), Some(-7));
    assert_eq!(read["message"]["none"].as_array().unwrap().len(), 0);
    // Numbers of 32 bits and integers are written alike.
    let whole = |value: Simple| {
        encoded(&Message {
            fields: vec![field("value", Value::Simple(value))],
        })
    };
    assert_eq!(whole(number("2")), whole(int32(2)));
    assert_ne!(whole(number("2.5")), whole(int32(2)));
}

#[test]
fn an_unknown_field_changes_nothing() {
    let mut message = lists("Arrays");
    let before = encoded(&message);
    let result = decode(&mut message, &parse(r#"{"alignment_check":5,"missing":1}"#));
    assert_eq!(
        result,
        Err("unknown message field \"missing\"".to_string())
    );
    assert_eq!(encoded(&message), before);
}

#[test]
fn a_value_that_does_not_fit_ends_the_decoding() {
    // The fields before it are written, a list of the wrong length is left alone.
    let mut message = lists("Arrays");
    let result = decode(
        &mut message,
        &parse(r#"{"alignment_check":5,"int32_values_default":[1]}"#),
    );
    assert_eq!(
        result,
        Err("int32_values_default: expected 3 array elements, got 1".to_string())
    );
    assert_eq!(
        integers(&message.fields[0].value),
        vec![0, 2147483647, -2147483648]
    );
    assert!(matches!(
        message.fields[6].value,
        Value::Simple(Simple::Integer(Width::I32, 5))
    ));
    // An array is written element by element.
    let mut message = lists("Arrays");
    let value = parse(r#"{"int32_values_default":[1,true,3]}"#);
    assert!(decode(&mut message, &value).is_err());
    assert_eq!(
        integers(&message.fields[0].value),
        vec![1, 2147483647, -2147483648]
    );
    // A sequence of integers is written as a whole.
    let mut message = lists("UnboundedSequences");
    assert!(decode(&mut message, &value).is_err());
    assert_eq!(
        integers(&message.fields[0].value),
        vec![0, 2147483647, -2147483648]
    );
    // A sequence of bounded texts is written element by element.
    let value = parse(r#"{"bounded_values":["xy","long",""]}"#);
    assert_eq!(
        decode(&mut message, &value),
        Err("bounded_values: string exceeds its ROS bound".to_string())
    );
    assert_eq!(texts(&message.fields[4].value), vec!["xy", "", ""]);
}

#[test]
fn nested_messages_in_sequences_start_from_the_default() {
    let mut blank = lists("UnboundedSequences");
    if let Value::Sequence(list) = &mut blank.fields[5].value {
        if let Simple::Message(first) = &mut list.elements[0] {
            first.fields[1].value = Value::Simple(Simple::Integer(Width::U8, 9));
        }
    }
    let message = decoded(blank, r#"{"basic_types_values":[{"flag":true}]}"#).unwrap();
    match &message.fields[5].value {
        Value::Sequence(list) => {
            assert_eq!(list.elements.len(), 1);
            match &list.elements[0] {
                Simple::Message(first) => {
                    assert!(matches!(
                        first.fields[0].value,
                        Value::Simple(Simple::Boolean(true))
                    ));
                    assert!(matches!(
                        first.fields[1].value,
                        Value::Simple(Simple::Integer(Width::U8, 0))
                    ));
                }
                _ => panic!("not a message"),
            }
        }
        _ => panic!("not a sequence"),
    }
}

#[test]
fn helpers_check_lengths_and_ranges() {
    assert_eq!(check_length(2, 2, "a"), Ok(()));
    assert_eq!(
        check_length(2, 3, "a"),
        Err("a: expected 2 array elements, got 3".to_string())
    );
    assert_eq!(check_bound(2, 2, "a"), Ok(()));
    assert_eq!(
        check_bound(2, 3, "a"),
        Err("a: 3 sequence elements exceed the ROS bound of 2".to_string())
    );
    assert_eq!(integer(&Json::Unsigned(255), Width::U8, "a"), Ok(255));
    assert_eq!(
        integer(&Json::Unsigned(256), Width::U8, "a"),
        Err("a: integer 256 is out of range".to_string())
    );
    assert_eq!(integer(&Json::Signed(-128), Width::I8, "a"), Ok(-128));
    assert_eq!(
        integer(&Json::Unsigned(u64::MAX), Width::I64, "a"),
        Err("a: integer 18446744073709551615 is out of range".to_string())
    );
    assert_eq!(
        integer(&Json::Unsigned(u64::MAX), Width::U64, "a"),
        Ok(u64::MAX as i128)
    );
    assert!(json_array(&Json::Null, "a").is_err());
    let mut slot = list(int32(4), vec![]);
    assert_eq!(resize(2, &mut slot, 2, "a"), Ok(()));
    assert_eq!(slot.elements.len(), 2);
    assert!(matches!(slot.elements[1], Simple::Integer(Width::I32, 4)));
    assert!(resize(2, &mut slot, 3, "a").is_err());
    reset(&mut slot, 1);
    assert_eq!(slot.elements.len(), 1);
    assert_eq!(
        unknown_field(None, "\"x\""),
        "unknown message field \"x\""
    );
    assert_eq!(
        unknown_field(Some("a.b"), "\"x\""),
        "a.b: unknown message field \"x\""
    );
}

#[test]
fn texts_are_measured_and_rendered() {
    assert_eq!(byte_len("é世"), 5);
    assert_eq!(characters("é世"), vec!['é', '世']);
    assert_eq!(combine("a", "b"), "ab");
    assert_eq!(render_integer(0), "0");
    assert_eq!(render_integer(-10), "-10");
    assert_eq!(
        render_integer(i128::MIN),
        "-170141183460469231731687303715884105728"
    );
    assert_eq!(render_integer(u64::MAX as i128), "18446744073709551615");
}
