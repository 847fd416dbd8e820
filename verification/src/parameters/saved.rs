//! What a parameter is, and what is saved of a list of them.
use vstd::prelude::*;

use super::{
    same_json, same_parameter, same_parameters, saving_statements, value_of, ParameterValue,
    ParameterView,
};
use crate::json::{EntryView, JsonView};
use crate::message::RealView;
use crate::sql::{ArgumentView, StatementView};
use crate::text::decimal;

verus! {

/// A JSON value with every zero written without a sign.
pub open spec fn unsigned_zeros(value: JsonView) -> JsonView
    decreases value,
{
    match value {
        JsonView::Float(text) => if text == "-0"@ {
            JsonView::Float("0"@)
        } else {
            value
        },
        JsonView::Array(items) => JsonView::Array(
            Seq::new(
                items.len(),
                |i: int|
                    if 0 <= i < items.len() {
                        unsigned_zeros(items[i])
                    } else {
                        JsonView::Null
                    },
            ),
        ),
        JsonView::Object(entries) => JsonView::Object(
            Seq::new(
                entries.len(),
                |i: int|
                    if 0 <= i < entries.len() {
                        EntryView { key: entries[i].key, value: unsigned_zeros(entries[i].value) }
                    } else {
                        EntryView { key: Seq::empty(), value: JsonView::Null }
                    },
            ),
        ),
        _ => value,
    }
}

/// Two JSON values count as equal exactly where they are equal but for the sign of
/// zeros.
pub proof fn lemma_same_value(a: JsonView, b: JsonView)
    ensures
        same_json(a, b) <==> unsigned_zeros(a) == unsigned_zeros(b),
    decreases a,
{
    assert("0"@ != "-0"@) by {
        reveal_strlit("0");
        reveal_strlit("-0");
        assert("0"@.len() == 1 && "-0"@.len() == 2);
    }
    match (a, b) {
        (JsonView::Array(x), JsonView::Array(y)) => {
            let p = unsigned_zeros(a)->Array_0;
            let q = unsigned_zeros(b)->Array_0;
            assert(p.len() == x.len() && q.len() == y.len());
            assert forall|i: int| 0 <= i < x.len() && i < y.len() implies (same_json(
                #[trigger] x[i],
                y[i],
            ) <==> p[i] == q[i]) by {
                assert(decreases_to!(a => x));
                assert(decreases_to!(x => x[i]));
                lemma_same_value(x[i], y[i]);
                assert(p[i] == unsigned_zeros(x[i]));
                assert(q[i] == unsigned_zeros(y[i]));
            }
            if same_json(a, b) {
                assert forall|i: int| 0 <= i < p.len() implies p[i] == q[i] by {
                    assert(same_json(x[i], y[i]));
                }
                assert(p =~= q);
            }
            if p == q {
                assert forall|i: int| 0 <= i < x.len() implies same_json(#[trigger] x[i], y[i]) by {
                    assert(p[i] == q[i]);
                }
            }
        },
        (JsonView::Object(x), JsonView::Object(y)) => {
            let p = unsigned_zeros(a)->Object_0;
            let q = unsigned_zeros(b)->Object_0;
            assert(p.len() == x.len() && q.len() == y.len());
            assert forall|i: int| 0 <= i < x.len() && i < y.len() implies ((
            #[trigger] x[i]).key == y[i].key && same_json(x[i].value, y[i].value) <==> p[i]
                == q[i]) by {
                assert(decreases_to!(a => x));
                assert(decreases_to!(x => x[i]));
                assert(decreases_to!(x[i] => x[i].value));
                lemma_same_value(x[i].value, y[i].value);
                assert(p[i].key == x[i].key && p[i].value == unsigned_zeros(x[i].value));
                assert(q[i].key == y[i].key && q[i].value == unsigned_zeros(y[i].value));
            }
            if same_json(a, b) {
                assert forall|i: int| 0 <= i < p.len() implies p[i] == q[i] by {
                    assert(x[i].key == y[i].key);
                }
                assert(p =~= q);
            }
            if p == q {
                assert forall|i: int| 0 <= i < x.len() implies (#[trigger] x[i]).key == y[i].key
                    && same_json(x[i].value, y[i].value) by {
                    assert(p[i] == q[i]);
                }
            }
        },
        _ => {},
    }
}

/// Different integers, flags and texts are different values, and so are numbers
/// with different texts of which one is not zero.
pub proof fn lemma_different_values(
    x: int,
    y: int,
    p: bool,
    q: bool,
    s: Seq<char>,
    t: Seq<char>,
)
    ensures
        same_json(JsonView::Integer(x), JsonView::Integer(y)) <==> x == y,
        same_json(JsonView::Bool(p), JsonView::Bool(q)) <==> p == q,
        same_json(JsonView::Text(s), JsonView::Text(t)) <==> s == t,
        same_json(JsonView::Float(s), JsonView::Float(t)) <==> s == t || ((s == "0"@ || s == "-0"@)
            && (t == "0"@ || t == "-0"@)),
        !same_json(JsonView::Null, JsonView::Bool(p)),
        !same_json(JsonView::Integer(x), JsonView::Float(s)),
        !same_json(JsonView::Integer(x), JsonView::Text(s)),
{
}

/// Lists of values are equal only where they are element by element; one element
/// that differs makes them different.
pub proof fn lemma_different_lists(x: Seq<JsonView>, y: Seq<JsonView>, i: int)
    ensures
        x.len() != y.len() ==> !same_json(JsonView::Array(x), JsonView::Array(y)),
        0 <= i < x.len() && x.len() == y.len() && !same_json(x[i], y[i]) ==> !same_json(
            JsonView::Array(x),
            JsonView::Array(y),
        ),
{
}

/// Whether two rows are equal but for the sign of zeros.
pub open spec fn equal_rows(a: ParameterView, b: ParameterView) -> bool {
    &&& a.node == b.node
    &&& a.namespace == b.namespace
    &&& a.name == b.name
    &&& a.kind == b.kind
    &&& unsigned_zeros(a.value) == unsigned_zeros(b.value)
}

/// Whether two lists are equal row by row, but for the sign of zeros.
pub open spec fn equal_lists(a: Seq<ParameterView>, b: Seq<ParameterView>) -> bool {
    a.len() == b.len() && forall|i: int| 0 <= i < a.len() ==> equal_rows(#[trigger] a[i], b[i])
}

proof fn lemma_same_lists(a: Seq<ParameterView>, b: Seq<ParameterView>)
    ensures
        same_parameters(a, b) <==> equal_lists(a, b),
{
    assert forall|i: int| 0 <= i < a.len() && i < b.len() implies same_parameter(
        #[trigger] a[i],
        b[i],
    ) == equal_rows(a[i], b[i]) by {
        lemma_same_value(a[i].value, b[i].value);
    }
    if same_parameters(a, b) {
        assert forall|i: int| 0 <= i < a.len() implies equal_rows(#[trigger] a[i], b[i]) by {
            assert(same_parameter(a[i], b[i]));
        }
    }
    if equal_lists(a, b) {
        assert forall|i: int| 0 <= i < a.len() implies same_parameter(#[trigger] a[i], b[i]) by {
            assert(equal_rows(a[i], b[i]));
        }
    }
}

/// Whether a statement records an attempt: whether it has changed the table, and
/// its error.
pub open spec fn is_status(
    statement: StatementView,
    schema: Seq<char>,
    changed: bool,
    error: Option<Seq<char>>,
) -> bool {
    &&& statement.sql == "INSERT INTO "@ + schema
        + ".parameter_status AS s (singleton, worker_pid, last_checked, last_refreshed, last_error) VALUES (true, pg_backend_pid(), statement_timestamp(), CASE WHEN $1 THEN statement_timestamp() END, $2) ON CONFLICT (singleton) DO UPDATE SET worker_pid = EXCLUDED.worker_pid, last_checked = EXCLUDED.last_checked, last_refreshed = CASE WHEN $1 THEN EXCLUDED.last_refreshed ELSE s.last_refreshed END, last_error = EXCLUDED.last_error"@
    &&& statement.arguments.len() == 2
    &&& statement.arguments[0] == ArgumentView::Flag(changed)
    &&& statement.arguments[1] == ArgumentView::Text(error)
}

/// Whether a statement saves a row: it binds what the row says, column by column.
pub open spec fn is_row(
    statement: StatementView,
    schema: Seq<char>,
    row: ParameterView,
) -> bool {
    &&& statement.sql == "INSERT INTO "@ + schema
        + ".parameters VALUES ($1, $2, $3, $4, $5, statement_timestamp())"@
    &&& statement.arguments.len() == 5
    &&& statement.arguments[0] == ArgumentView::Text(Some(row.node))
    &&& statement.arguments[1] == ArgumentView::Text(Some(row.namespace))
    &&& statement.arguments[2] == ArgumentView::Text(Some(row.name))
    &&& statement.arguments[3] == ArgumentView::Text(Some(row.kind))
    &&& statement.arguments[4] == ArgumentView::Json(Some(row.value))
}

/// Whether statements replace the table by a list: they empty it, save each row of
/// the list in order, and record the change.
pub open spec fn replaces(
    statements: Seq<StatementView>,
    schema: Seq<char>,
    rows: Seq<ParameterView>,
) -> bool {
    &&& statements.len() == rows.len() + 2
    &&& statements[0].sql == "LOCK TABLE "@ + schema
        + ".parameters IN SHARE ROW EXCLUSIVE MODE; DELETE FROM "@ + schema + ".parameters"@
    &&& statements[0].arguments.len() == 0
    &&& forall|i: int|
        0 <= i < rows.len() ==> is_row(statements[i + 1], schema, #[trigger] rows[i])
    &&& is_status(statements.last(), schema, true, None)
}

/// A list of parameters replaces what is saved unless the same installation has
/// saved a list that is equal row by row, but for the sign of zeros; then only the
/// attempt is recorded, as it is where there was an error.
pub proof fn lemma_saved(
    schema: Seq<char>,
    extension: u32,
    rows: Seq<ParameterView>,
    error: Seq<char>,
    previous: Option<Seq<ParameterView>>,
    previous_extension: Option<u32>,
)
    ensures
        ({
            let statements = saving_statements(
                schema,
                extension,
                Ok(rows),
                previous,
                previous_extension,
            );
            if previous_extension == Some(extension) && previous is Some && equal_lists(
                previous->Some_0,
                rows,
            ) {
                statements.len() == 1 && is_status(statements[0], schema, false, None)
            } else {
                replaces(statements, schema, rows)
            }
        }),
        ({
            let statements = saving_statements(
                schema,
                extension,
                Err(error),
                previous,
                previous_extension,
            );
            statements.len() == 1 && is_status(statements[0], schema, false, Some(error))
        }),
{
    if let Some(before) = previous {
        lemma_same_lists(before, rows);
    }
}

/// A row that differs from the one that is saved in its place, in any column, has
/// the whole table replaced.
pub proof fn lemma_difference_saved(
    schema: Seq<char>,
    extension: u32,
    rows: Seq<ParameterView>,
    before: Seq<ParameterView>,
    i: int,
)
    requires
        0 <= i < rows.len(),
        i < before.len(),
        before[i].node != rows[i].node || before[i].namespace != rows[i].namespace
            || before[i].name != rows[i].name || before[i].kind != rows[i].kind || unsigned_zeros(
            before[i].value,
        ) != unsigned_zeros(rows[i].value),
    ensures
        replaces(
            saving_statements(schema, extension, Ok(rows), Some(before), Some(extension)),
            schema,
            rows,
        ),
{
    lemma_saved(schema, extension, rows, Seq::empty(), Some(before), Some(extension));
    assert(!equal_rows(before[i], rows[i]));
}

/// The JSON value of a number: a finite one by its text, any other as `null`.
pub open spec fn says_number(value: JsonView, number: RealView) -> bool {
    match number {
        RealView::Finite(text) => value == JsonView::Float(text),
        _ => value is Null,
    }
}

/// A parameter value of each of the ten kinds is read under the name of its kind,
/// from the member of that kind: nothing where it is not set, a flag, an integer, a
/// number, a text, or the list of them in order. A value of any other kind is an
/// error that names the kind.
pub proof fn lemma_kinds(parameter: ParameterValue, i: int)
    ensures
        ({
            let outcome = value_of(parameter);
            let kind = parameter.kind;
            let name = outcome->Ok_0.0;
            let value = outcome->Ok_0.1;
            &&& outcome is Ok <==> kind <= 9
            &&& kind > 9 ==> outcome->Err_0 == "unknown ROS parameter type "@ + decimal(
                kind as nat,
            )
            &&& kind == 0 ==> name == "not_set"@ && value is Null
            &&& kind == 1 ==> name == "bool"@ && value == JsonView::Bool(parameter.bool_value)
            &&& kind == 2 ==> name == "integer"@ && value == JsonView::Integer(
                parameter.integer_value as int,
            )
            &&& kind == 3 ==> name == "double"@ && says_number(value, parameter.double_value@)
            &&& kind == 4 ==> name == "string"@ && value == JsonView::Text(parameter.string_value@)
            &&& kind == 5 ==> name == "byte_array"@ && value is Array && value->Array_0.len()
                == parameter.byte_array_value@.len() && (0 <= i < value->Array_0.len()
                ==> value->Array_0[i] == JsonView::Integer(
                parameter.byte_array_value@[i] as int,
            ))
            &&& kind == 6 ==> name == "bool_array"@ && value is Array && value->Array_0.len()
                == parameter.bool_array_value@.len() && (0 <= i < value->Array_0.len()
                ==> value->Array_0[i] == JsonView::Bool(parameter.bool_array_value@[i]))
            &&& kind == 7 ==> name == "integer_array"@ && value is Array && value->Array_0.len()
                == parameter.integer_array_value@.len() && (0 <= i < value->Array_0.len()
                ==> value->Array_0[i] == JsonView::Integer(
                parameter.integer_array_value@[i] as int,
            ))
            &&& kind == 8 ==> name == "double_array"@ && value is Array && value->Array_0.len()
                == parameter.double_array_value@.len() && (0 <= i < value->Array_0.len()
                ==> says_number(value->Array_0[i], parameter.double_array_value@[i]@))
            &&& kind == 9 ==> name == "string_array"@ && value is Array && value->Array_0.len()
                == parameter.string_array_value@.len() && (0 <= i < value->Array_0.len()
                ==> value->Array_0[i] == JsonView::Text(parameter.string_array_value@[i]@))
        }),
{
}

} // verus!
