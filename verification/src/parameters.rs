//! Read-only snapshots of remote parameter services, and the statements that
//! save them.
use vstd::prelude::*;
use vstd::string::*;

use crate::json::Json;
use crate::json::JsonView;
use crate::message::Real;
use crate::sql::{Argument, Statement};
use crate::sql::{statement_views, ArgumentView, StatementView};
use crate::subscriptions::json::real_tree;
use crate::text::{combine, render_integer};
use crate::text::integer_text;

pub mod laws;
pub mod poll;
pub mod run;
pub mod saved;
pub mod turns;

verus! {

/// A parameter value as a service hands it out: a kind, and a value for each
/// kind, of which one counts.
pub struct ParameterValue {
    pub kind: u8,
    pub bool_value: bool,
    pub integer_value: i64,
    pub double_value: Real,
    pub string_value: String,
    pub byte_array_value: Vec<u8>,
    pub bool_array_value: Vec<bool>,
    pub integer_array_value: Vec<i64>,
    pub double_array_value: Vec<Real>,
    pub string_array_value: Vec<String>,
}

/// The name of a kind of parameter and the JSON value of a parameter of that
/// kind, or the message that says that there is no such kind.
pub open spec fn value_of(parameter: ParameterValue) -> Result<(Seq<char>, JsonView), Seq<char>> {
    if parameter.kind == 0 {
        Ok(("not_set"@, JsonView::Null))
    } else if parameter.kind == 1 {
        Ok(("bool"@, JsonView::Bool(parameter.bool_value)))
    } else if parameter.kind == 2 {
        Ok(("integer"@, JsonView::Integer(parameter.integer_value as int)))
    } else if parameter.kind == 3 {
        Ok(("double"@, real_tree(parameter.double_value@)))
    } else if parameter.kind == 4 {
        Ok(("string"@, JsonView::Text(parameter.string_value@)))
    } else if parameter.kind == 5 {
        Ok(
            (
                "byte_array"@,
                JsonView::Array(
                    parameter.byte_array_value@.map_values(
                        |value: u8| JsonView::Integer(value as int),
                    ),
                ),
            ),
        )
    } else if parameter.kind == 6 {
        Ok(
            (
                "bool_array"@,
                JsonView::Array(
                    parameter.bool_array_value@.map_values(|value: bool| JsonView::Bool(value)),
                ),
            ),
        )
    } else if parameter.kind == 7 {
        Ok(
            (
                "integer_array"@,
                JsonView::Array(
                    parameter.integer_array_value@.map_values(
                        |value: i64| JsonView::Integer(value as int),
                    ),
                ),
            ),
        )
    } else if parameter.kind == 8 {
        Ok(
            (
                "double_array"@,
                JsonView::Array(
                    parameter.double_array_value@.map_values(|value: Real| real_tree(value@)),
                ),
            ),
        )
    } else if parameter.kind == 9 {
        Ok(
            (
                "string_array"@,
                JsonView::Array(
                    parameter.string_array_value@.map_values(
                        |value: String| JsonView::Text(value@),
                    ),
                ),
            ),
        )
    } else {
        Err("unknown ROS parameter type "@ + integer_text(parameter.kind as int))
    }
}

fn real_json(number: &Real) -> (result: Json)
    ensures
        result@ == real_tree(number@),
{
    match number {
        Real::Finite(text) => Json::Float(text.clone()),
        _ => Json::Null,
    }
}

fn bytes_json(values: &Vec<u8>) -> (result: Json)
    ensures
        result@ == JsonView::Array(values@.map_values(|value: u8| JsonView::Integer(value as int))),
{
    let mut items: Vec<Json> = Vec::new();
    let mut i: usize = 0;
    while i < values.len()
        invariant
            i <= values@.len(),
            items@.len() == i,
            forall|k: int|
                0 <= k < i ==> (#[trigger] items@[k])@ == JsonView::Integer(values@[k] as int),
        decreases values@.len() - i,
    {
        items.push(Json::Unsigned(values[i] as u64));
        i += 1;
    }
    let result = Json::Array(items);
    proof {
        result.lemma_view();
        assert(crate::json::views(items@) =~= values@.map_values(
            |value: u8| JsonView::Integer(value as int),
        ));
    }
    result
}

fn bools_json(values: &Vec<bool>) -> (result: Json)
    ensures
        result@ == JsonView::Array(values@.map_values(|value: bool| JsonView::Bool(value))),
{
    let mut items: Vec<Json> = Vec::new();
    let mut i: usize = 0;
    while i < values.len()
        invariant
            i <= values@.len(),
            items@.len() == i,
            forall|k: int| 0 <= k < i ==> (#[trigger] items@[k])@ == JsonView::Bool(values@[k]),
        decreases values@.len() - i,
    {
        items.push(Json::Bool(values[i]));
        i += 1;
    }
    let result = Json::Array(items);
    proof {
        result.lemma_view();
        assert(crate::json::views(items@) =~= values@.map_values(
            |value: bool| JsonView::Bool(value),
        ));
    }
    result
}

fn integers_json(values: &Vec<i64>) -> (result: Json)
    ensures
        result@ == JsonView::Array(
            values@.map_values(|value: i64| JsonView::Integer(value as int)),
        ),
{
    let mut items: Vec<Json> = Vec::new();
    let mut i: usize = 0;
    while i < values.len()
        invariant
            i <= values@.len(),
            items@.len() == i,
            forall|k: int|
                0 <= k < i ==> (#[trigger] items@[k])@ == JsonView::Integer(values@[k] as int),
        decreases values@.len() - i,
    {
        items.push(Json::Signed(values[i]));
        i += 1;
    }
    let result = Json::Array(items);
    proof {
        result.lemma_view();
        assert(crate::json::views(items@) =~= values@.map_values(
            |value: i64| JsonView::Integer(value as int),
        ));
    }
    result
}

fn doubles_json(values: &Vec<Real>) -> (result: Json)
    ensures
        result@ == JsonView::Array(values@.map_values(|value: Real| real_tree(value@))),
{
    let mut items: Vec<Json> = Vec::new();
    let mut i: usize = 0;
    while i < values.len()
        invariant
            i <= values@.len(),
            items@.len() == i,
            forall|k: int| 0 <= k < i ==> (#[trigger] items@[k])@ == real_tree(values@[k]@),
        decreases values@.len() - i,
    {
        items.push(real_json(&values[i]));
        i += 1;
    }
    let result = Json::Array(items);
    proof {
        result.lemma_view();
        assert(crate::json::views(items@) =~= values@.map_values(
            |value: Real| real_tree(value@),
        ));
    }
    result
}

fn texts_json(values: &Vec<String>) -> (result: Json)
    ensures
        result@ == JsonView::Array(values@.map_values(|value: String| JsonView::Text(value@))),
{
    let mut items: Vec<Json> = Vec::new();
    let mut i: usize = 0;
    while i < values.len()
        invariant
            i <= values@.len(),
            items@.len() == i,
            forall|k: int| 0 <= k < i ==> (#[trigger] items@[k])@ == JsonView::Text(values@[k]@),
        decreases values@.len() - i,
    {
        items.push(Json::Text(values[i].clone()));
        i += 1;
    }
    let result = Json::Array(items);
    proof {
        result.lemma_view();
        assert(crate::json::views(items@) =~= values@.map_values(
            |value: String| JsonView::Text(value@),
        ));
    }
    result
}

/// The name of the kind of a parameter and its JSON value. Unset values and
/// numbers that are not finite become `null`.
pub fn value(parameter: &ParameterValue) -> (result: Result<(&'static str, Json), String>)
    ensures
        match value_of(*parameter) {
            Ok((kind, value)) => result is Ok && result->Ok_0.0@ == kind && result->Ok_0.1@
                == value,
            Err(error) => result is Err && result->Err_0@ == error,
        },
{
    match parameter.kind {
        0 => Ok(("not_set", Json::Null)),
        1 => Ok(("bool", Json::Bool(parameter.bool_value))),
        2 => Ok(("integer", Json::Signed(parameter.integer_value))),
        3 => Ok(("double", real_json(&parameter.double_value))),
        4 => Ok(("string", Json::Text(parameter.string_value.clone()))),
        5 => Ok(("byte_array", bytes_json(&parameter.byte_array_value))),
        6 => Ok(("bool_array", bools_json(&parameter.bool_array_value))),
        7 => Ok(("integer_array", integers_json(&parameter.integer_array_value))),
        8 => Ok(("double_array", doubles_json(&parameter.double_array_value))),
        9 => Ok(("string_array", texts_json(&parameter.string_array_value))),
        other => Err(
            combine("unknown ROS parameter type ", render_integer(other as i128).as_str()),
        ),
    }
}

/// A parameter of a node.
pub struct Parameter {
    pub node: String,
    pub namespace: String,
    pub name: String,
    pub kind: &'static str,
    pub value: Json,
}

/// The mathematical content of a [`Parameter`].
pub struct ParameterView {
    pub node: Seq<char>,
    pub namespace: Seq<char>,
    pub name: Seq<char>,
    pub kind: Seq<char>,
    pub value: JsonView,
}

impl View for Parameter {
    type V = ParameterView;

    open spec fn view(&self) -> ParameterView {
        ParameterView {
            node: self.node@,
            namespace: self.namespace@,
            name: self.name@,
            kind: self.kind@,
            value: self.value@,
        }
    }
}

/// The contents of parameters.
pub open spec fn parameter_views(parameters: Seq<Parameter>) -> Seq<ParameterView> {
    parameters.map_values(|parameter: Parameter| parameter@)
}

/// Whether two texts denote one number: they are equal, or both denote zero.
pub open spec fn same_number(a: Seq<char>, b: Seq<char>) -> bool {
    a == b || (is_zero(a) && is_zero(b))
}

/// Whether a text denotes zero, with either sign.
pub open spec fn is_zero(text: Seq<char>) -> bool {
    text == "0"@ || text == "-0"@
}

/// Whether two JSON values are equal; numbers are compared by value.
pub open spec fn same_json(a: JsonView, b: JsonView) -> bool
    decreases a,
{
    match (a, b) {
        (JsonView::Float(x), JsonView::Float(y)) => same_number(x, y),
        (JsonView::Array(x), JsonView::Array(y)) => x.len() == y.len() && forall|i: int|
            0 <= i < x.len() ==> same_json(#[trigger] x[i], y[i]),
        (JsonView::Object(x), JsonView::Object(y)) => x.len() == y.len() && forall|i: int|
            0 <= i < x.len() ==> (#[trigger] x[i]).key == y[i].key && same_json(
                x[i].value,
                y[i].value,
            ),
        _ => a == b,
    }
}

fn denotes_zero(text: &String) -> (result: bool)
    ensures
        result == is_zero(text@),
{
    *text == "0".to_owned() || *text == "-0".to_owned()
}

fn json_eq(a: &Json, b: &Json) -> (result: bool)
    ensures
        result == same_json(a@, b@),
    decreases a,
{
    proof {
        a.lemma_view();
        b.lemma_view();
    }
    match (a, b) {
        (Json::Null, Json::Null) => true,
        (Json::Bool(x), Json::Bool(y)) => *x == *y,
        (Json::Unsigned(x), Json::Unsigned(y)) => *x == *y,
        (Json::Signed(x), Json::Signed(y)) => *x == *y,
        (Json::Unsigned(x), Json::Signed(y)) => *x as i128 == *y as i128,
        (Json::Signed(x), Json::Unsigned(y)) => *x as i128 == *y as i128,
        (Json::Float(x), Json::Float(y)) => *x == *y || (denotes_zero(x) && denotes_zero(y)),
        (Json::Text(x), Json::Text(y)) => *x == *y,
        (Json::Array(x), Json::Array(y)) => {
            if x.len() != y.len() {
                return false;
            }
            let ghost left = crate::json::views(x@);
            let ghost right = crate::json::views(y@);
            let mut i: usize = 0;
            while i < x.len()
                invariant
                    i <= x@.len(),
                    x@.len() == y@.len(),
                    left == crate::json::views(x@),
                    right == crate::json::views(y@),
                    a@ == JsonView::Array(left),
                    b@ == JsonView::Array(right),
                    decreases_to!(a => x),
                    forall|k: int| 0 <= k < i ==> same_json(#[trigger] left[k], right[k]),
                decreases x@.len() - i,
            {
                assert(decreases_to!(x => x@));
                assert(left[i as int] == x@[i as int]@ && right[i as int] == y@[i as int]@);
                if !json_eq(&x[i], &y[i]) {
                    return false;
                }
                i += 1;
            }
            true
        },
        (Json::Object(x), Json::Object(y)) => {
            if x.len() != y.len() {
                return false;
            }
            let ghost left = crate::json::entry_views(x@);
            let ghost right = crate::json::entry_views(y@);
            let mut i: usize = 0;
            while i < x.len()
                invariant
                    i <= x@.len(),
                    x@.len() == y@.len(),
                    left == crate::json::entry_views(x@),
                    right == crate::json::entry_views(y@),
                    a@ == JsonView::Object(left),
                    b@ == JsonView::Object(right),
                    decreases_to!(a => x),
                    forall|k: int|
                        0 <= k < i ==> (#[trigger] left[k]).key == right[k].key && same_json(
                            left[k].value,
                            right[k].value,
                        ),
                decreases x@.len() - i,
            {
                assert(decreases_to!(x => x@));
                assert(decreases_to!(x@ => x@[i as int]));
                assert(decreases_to!(x@[i as int] => x@[i as int].value));
                assert(left[i as int].key == x@[i as int].key@ && right[i as int].key
                    == y@[i as int].key@);
                assert(left[i as int].value == x@[i as int].value@ && right[i as int].value
                    == y@[i as int].value@);
                if x[i].key != y[i].key || !json_eq(&x[i].value, &y[i].value) {
                    return false;
                }
                i += 1;
            }
            true
        },
        _ => false,
    }
}

/// Whether two parameters are equal.
pub open spec fn same_parameter(a: ParameterView, b: ParameterView) -> bool {
    &&& a.node == b.node
    &&& a.namespace == b.namespace
    &&& a.name == b.name
    &&& a.kind == b.kind
    &&& same_json(a.value, b.value)
}

/// Whether two lists of parameters are equal.
pub open spec fn same_parameters(a: Seq<ParameterView>, b: Seq<ParameterView>) -> bool {
    a.len() == b.len() && forall|i: int|
        0 <= i < a.len() ==> same_parameter(#[trigger] a[i], b[i])
}

fn parameters_eq(a: &Vec<Parameter>, b: &Vec<Parameter>) -> (result: bool)
    ensures
        result == same_parameters(parameter_views(a@), parameter_views(b@)),
{
    if a.len() != b.len() {
        return false;
    }
    let ghost left = parameter_views(a@);
    let ghost right = parameter_views(b@);
    let mut i: usize = 0;
    while i < a.len()
        invariant
            i <= a@.len(),
            a@.len() == b@.len(),
            left == parameter_views(a@),
            right == parameter_views(b@),
            forall|k: int| 0 <= k < i ==> same_parameter(#[trigger] left[k], right[k]),
        decreases a@.len() - i,
    {
        let x = &a[i];
        let y = &b[i];
        assert(left[i as int] == x@ && right[i as int] == y@);
        if x.node != y.node || x.namespace != y.namespace || x.name != y.name
            || x.kind.to_owned() != y.kind.to_owned() || !json_eq(&x.value, &y.value) {
            return false;
        }
        i += 1;
    }
    true
}

/// Whether parameters differ from those that are saved, or are the first of an
/// installation.
pub open spec fn is_changed(
    parameters: Seq<ParameterView>,
    extension: u32,
    previous: Option<Seq<ParameterView>>,
    previous_extension: Option<u32>,
) -> bool {
    !((previous matches Some(before) && same_parameters(before, parameters)) && previous_extension
        == Some(extension))
}

/// The statement that takes out the saved parameters.
pub open spec fn clearing_statement(schema: Seq<char>) -> StatementView {
    StatementView {
        sql: "LOCK TABLE "@ + schema
            + ".parameters IN SHARE ROW EXCLUSIVE MODE; DELETE FROM "@ + schema + ".parameters"@,
        arguments: Seq::empty(),
    }
}

/// The statement that saves a parameter.
pub open spec fn inserting_statement(schema: Seq<char>, parameter: ParameterView) -> StatementView {
    StatementView {
        sql: "INSERT INTO "@ + schema
            + ".parameters VALUES ($1, $2, $3, $4, $5, statement_timestamp())"@,
        arguments: seq![
            ArgumentView::Text(Some(parameter.node)),
            ArgumentView::Text(Some(parameter.namespace)),
            ArgumentView::Text(Some(parameter.name)),
            ArgumentView::Text(Some(parameter.kind)),
            ArgumentView::Json(Some(parameter.value)),
        ],
    }
}

/// The statement that records a poll: whether parameters were saved, and the
/// error where there was one.
pub open spec fn status_statement(
    schema: Seq<char>,
    changed: bool,
    error: Option<Seq<char>>,
) -> StatementView {
    StatementView {
        sql: "INSERT INTO "@ + schema
            + ".parameter_status AS s (singleton, worker_pid, last_checked, last_refreshed, last_error) VALUES (true, pg_backend_pid(), statement_timestamp(), CASE WHEN $1 THEN statement_timestamp() END, $2) ON CONFLICT (singleton) DO UPDATE SET worker_pid = EXCLUDED.worker_pid, last_checked = EXCLUDED.last_checked, last_refreshed = CASE WHEN $1 THEN EXCLUDED.last_refreshed ELSE s.last_refreshed END, last_error = EXCLUDED.last_error"@,
        arguments: seq![ArgumentView::Flag(changed), ArgumentView::Text(error)],
    }
}

/// The statements that replace the saved parameters.
pub open spec fn replacing_statements(schema: Seq<char>, parameters: Seq<ParameterView>) -> Seq<
    StatementView,
> {
    seq![clearing_statement(schema)] + parameters.map_values(
        |parameter: ParameterView| inserting_statement(schema, parameter),
    )
}

/// The statements, to be run in one transaction, that save the outcome of a
/// poll.
pub open spec fn saving_statements(
    schema: Seq<char>,
    extension: u32,
    outcome: Result<Seq<ParameterView>, Seq<char>>,
    previous: Option<Seq<ParameterView>>,
    previous_extension: Option<u32>,
) -> Seq<StatementView> {
    match outcome {
        Ok(parameters) => if is_changed(parameters, extension, previous, previous_extension) {
            replacing_statements(schema, parameters).push(status_statement(schema, true, None))
        } else {
            seq![status_statement(schema, false, None)]
        },
        Err(error) => seq![status_statement(schema, false, Some(error))],
    }
}

/// The content of an outcome.
pub open spec fn outcome_view(outcome: Result<&Vec<Parameter>, &str>) -> Result<
    Seq<ParameterView>,
    Seq<char>,
> {
    match outcome {
        Ok(parameters) => Ok(parameter_views(parameters@)),
        Err(error) => Err(error@),
    }
}

/// The content of an optional list of parameters.
pub open spec fn list_view(parameters: Option<&Vec<Parameter>>) -> Option<Seq<ParameterView>> {
    match parameters {
        Some(parameters) => Some(parameter_views(parameters@)),
        None => None,
    }
}

fn insert(schema: &str, parameter: &Parameter) -> (statement: Statement)
    ensures
        statement@ == inserting_statement(schema@, parameter@),
{
    let mut sql = combine("INSERT INTO ", schema);
    sql.append(".parameters VALUES ($1, $2, $3, $4, $5, statement_timestamp())");
    let statement = Statement {
        sql,
        arguments: vec![
            Argument::Text(Some(parameter.node.clone())),
            Argument::Text(Some(parameter.namespace.clone())),
            Argument::Text(Some(parameter.name.clone())),
            Argument::Text(Some(parameter.kind.to_owned())),
            Argument::Json(Some(parameter.value.copy())),
        ],
    };
    assert(statement@.arguments =~= inserting_statement(schema@, parameter@).arguments);
    statement
}

/// The statements, to be run in one transaction, that save the outcome of a
/// poll. The saved parameters are replaced where they differ and left alone
/// where they do not, or where the poll failed; the poll is recorded in any
/// case. Nothing is saved where the extension is not installed: then there are
/// no statements.
pub fn persist(
    installed: Option<(u32, &str)>,
    snapshot: Result<&Vec<Parameter>, &str>,
    previous: Option<&Vec<Parameter>>,
    previous_extension: Option<u32>,
) -> (statements: Vec<Statement>)
    ensures
        statement_views(statements@) == (match installed {
            Some((extension, schema)) => saving_statements(
                schema@,
                extension,
                outcome_view(snapshot),
                list_view(previous),
                previous_extension,
            ),
            None => Seq::empty(),
        }),
{
    let mut statements: Vec<Statement> = Vec::new();
    let (extension, schema) = match installed {
        Some((extension, schema)) => (extension, schema),
        None => {
            assert(statement_views(statements@) =~= Seq::empty());
            return statements;
        },
    };
    let mut changed: bool = false;
    let mut failure: Option<String> = None;
    match snapshot {
        Ok(parameters) => {
            let known: bool = match (previous, previous_extension) {
                (Some(before), Some(oid)) => oid == extension && parameters_eq(
                    before,
                    parameters,
                ),
                _ => false,
            };
            if !known {
                changed = true;
                let mut sql = combine("LOCK TABLE ", schema);
                sql.append(".parameters IN SHARE ROW EXCLUSIVE MODE; DELETE FROM ");
                sql.append(schema);
                sql.append(".parameters");
                let lock = Statement { sql, arguments: Vec::new() };
                assert(lock@.arguments =~= Seq::empty());
                statements.push(lock);
                let ghost rows = parameter_views(parameters@).map_values(
                    |parameter: ParameterView| inserting_statement(schema@, parameter),
                );
                let mut i: usize = 0;
                assert(statement_views(statements@) =~= seq![clearing_statement(schema@)]
                    + rows.take(0));
                while i < parameters.len()
                    invariant
                        i <= parameters@.len(),
                        rows == parameter_views(parameters@).map_values(
                            |parameter: ParameterView| inserting_statement(schema@, parameter),
                        ),
                        statement_views(statements@) == seq![clearing_statement(schema@)]
                            + rows.take(i as int),
                    decreases parameters@.len() - i,
                {
                    let ghost before = statement_views(statements@);
                    statements.push(insert(schema, &parameters[i]));
                    proof {
                        assert(rows[i as int] == inserting_statement(
                            schema@,
                            parameters@[i as int]@,
                        ));
                        assert(statement_views(statements@) =~= before.push(rows[i as int]));
                        assert(seq![clearing_statement(schema@)] + rows.take(i + 1) =~= before.push(
                            rows[i as int],
                        ));
                    }
                    i += 1;
                }
                assert(rows.take(i as int) =~= rows);
            }
        },
        Err(message) => {
            failure = Some(message.to_owned());
        },
    }
    let ghost earlier = statement_views(statements@);
    let mut sql = combine("INSERT INTO ", schema);
    sql.append(
        ".parameter_status AS s (singleton, worker_pid, last_checked, last_refreshed, last_error) VALUES (true, pg_backend_pid(), statement_timestamp(), CASE WHEN $1 THEN statement_timestamp() END, $2) ON CONFLICT (singleton) DO UPDATE SET worker_pid = EXCLUDED.worker_pid, last_checked = EXCLUDED.last_checked, last_refreshed = CASE WHEN $1 THEN EXCLUDED.last_refreshed ELSE s.last_refreshed END, last_error = EXCLUDED.last_error",
    );
    let status = Statement {
        sql,
        arguments: vec![Argument::Flag(changed), Argument::Text(failure)],
    };
    proof {
        let error = crate::sql::text_view(failure);
        assert(status@.arguments =~= seq![ArgumentView::Flag(changed), ArgumentView::Text(error)]);
        assert(status@ == status_statement(schema@, changed, error));
    }
    statements.push(status);
    assert(statement_views(statements@) =~= earlier.push(status@));
    assert(statement_views(statements@) =~= saving_statements(
        schema@,
        extension,
        outcome_view(snapshot),
        list_view(previous),
        previous_extension,
    ));
    statements
}

/// Equality of JSON values is reflexive.
pub proof fn lemma_same_json(value: JsonView)
    ensures
        same_json(value, value),
    decreases value,
{
    match value {
        JsonView::Array(items) => {
            assert forall|i: int| 0 <= i < items.len() implies same_json(
                #[trigger] items[i],
                items[i],
            ) by {
                lemma_same_json(items[i]);
            }
        },
        JsonView::Object(entries) => {
            assert forall|i: int| 0 <= i < entries.len() implies same_json(
                (#[trigger] entries[i]).value,
                entries[i].value,
            ) by {
                lemma_same_json(entries[i].value);
            }
        },
        _ => {},
    }
}

/// Unchanged parameters rewrite nothing: only the poll is recorded.
pub proof fn lemma_unchanged_untouched(
    schema: Seq<char>,
    extension: u32,
    parameters: Seq<ParameterView>,
)
    ensures
        saving_statements(schema, extension, Ok(parameters), Some(parameters), Some(extension))
            == seq![status_statement(schema, false, None)],
{
    assert forall|i: int| 0 <= i < parameters.len() implies same_parameter(
        #[trigger] parameters[i],
        parameters[i],
    ) by {
        lemma_same_json(parameters[i].value);
    }
}

/// A failed poll preserves what is saved, and records the error.
pub proof fn lemma_failure_preserves(
    schema: Seq<char>,
    extension: u32,
    error: Seq<char>,
    previous: Option<Seq<ParameterView>>,
    previous_extension: Option<u32>,
)
    ensures
        saving_statements(schema, extension, Err(error), previous, previous_extension) == seq![
            status_statement(schema, false, Some(error)),
        ],
{
}

/// Parameters that differ, or those of another installation, replace what is
/// saved, and the refresh is recorded.
pub proof fn lemma_change_replaces(
    schema: Seq<char>,
    extension: u32,
    parameters: Seq<ParameterView>,
    previous: Option<Seq<ParameterView>>,
    previous_extension: Option<u32>,
)
    requires
        previous_extension != Some(extension) || previous is None || !same_parameters(
            previous->Some_0,
            parameters,
        ),
    ensures
        saving_statements(schema, extension, Ok(parameters), previous, previous_extension)
            == replacing_statements(schema, parameters).push(status_statement(schema, true, None)),
{
}

} // verus!
