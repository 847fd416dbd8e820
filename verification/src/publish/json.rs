//! Decoding of a JSON object into a ROS message.
//!
//! This is the inverse of the subscription encoder. Only fields present in the
//! object are written, so absent fields keep the values that they have. Field
//! names and JSON shapes must match the message, and unknown fields are
//! rejected rather than silently ignored.
use vstd::prelude::*;
use vstd::string::*;

use crate::json::{Entry, Json};
use crate::json::{EntryView, JsonView};
use crate::message::{Field, List, Message, Precision, Real, Simple, Value, Width};
use crate::message::{
    field_views, find_field, fits, FieldView, ListView, MessageView, RealView, SimpleView, ValueView,
};
use crate::text::{combine, integer_as_double, quote_debug, render_integer};
use crate::text::{debug_text, double_text, integer_text};

verus! {

/// The number that a JSON value denotes; `null` is not a number.
pub open spec fn number_of(value: JsonView) -> Option<RealView> {
    match value {
        JsonView::Null => Some(RealView::Nan),
        JsonView::Float(text) => Some(RealView::Finite(text)),
        JsonView::Integer(number) => Some(RealView::Finite(double_text(number))),
        _ => None,
    }
}

/// The number of a precision that a JSON value denotes, or the message that says
/// why it denotes none: one that would be infinite does not fit. JSON integers
/// have at most 64 bits, and fit both precisions.
pub open spec fn decoded_real(precision: Precision, value: JsonView, name: Seq<char>) -> Result<
    RealView,
    Seq<char>,
> {
    match number_of(value) {
        None => Err(name + ": expected a JSON number or null"@),
        Some(number) => match value {
            JsonView::Float(text) => if fits(precision, text) {
                Ok(number)
            } else {
                Err(name + ": number "@ + text + " is out of range"@)
            },
            _ => Ok(number),
        },
    }
}

/// What a field of a precision holds of a number that was read as a double: the
/// number itself, or the nearest of 32 bits.
pub open spec fn held_number(precision: Precision, number: RealView) -> SimpleView {
    match (precision, number) {
        (Precision::Single, RealView::Finite(text)) => SimpleView::Nearest(text),
        _ => SimpleView::Real(precision, number),
    }
}

/// Whether a text of `len` characters is within a bound.
pub open spec fn within(bound: Option<usize>, len: nat) -> bool {
    match bound {
        Some(bound) => len <= bound,
        None => true,
    }
}

/// The text that says that extended precision is not supported.
pub open spec fn unsupported_text(name: Seq<char>) -> Seq<char> {
    name + ": long double fields are unsupported"@
}

/// The path of a field of a message.
pub open spec fn path_of(parent: Option<Seq<char>>, field: Seq<char>) -> Seq<char> {
    match parent {
        None => field,
        Some(name) => name + "."@ + field,
    }
}

/// The first key that is not the name of a field.
pub open spec fn unknown_key(message: MessageView, entries: Seq<EntryView>) -> Option<Seq<char>>
    decreases entries.len(),
{
    if entries.len() == 0 {
        None
    } else {
        match unknown_key(message, entries.drop_last()) {
            Some(key) => Some(key),
            None => if find_field(message, entries.last().key) is None {
                Some(entries.last().key)
            } else {
                None
            },
        }
    }
}

/// What a simple value becomes when a JSON value is read into it, or the
/// message that says why the JSON value does not fit.
pub open spec fn decoded_simple(slot: SimpleView, value: JsonView, name: Seq<char>) -> Result<
    SimpleView,
    Seq<char>,
>
    decreases value, 1nat,
{
    match slot {
        SimpleView::Real(precision, _) => match decoded_real(precision, value, name) {
            Ok(number) => Ok(held_number(precision, number)),
            Err(error) => Err(error),
        },
        SimpleView::Nearest(_) => match decoded_real(Precision::Single, value, name) {
            Ok(number) => Ok(held_number(Precision::Single, number)),
            Err(error) => Err(error),
        },
        SimpleView::LongDouble => Err(unsupported_text(name)),
        SimpleView::Integer(width, _) => match value {
            JsonView::Integer(number) => if width.holds(number) {
                Ok(SimpleView::Integer(width, number))
            } else {
                Err(name + ": integer "@ + integer_text(number) + " is out of range"@)
            },
            _ => Err(name + ": expected a JSON integer"@),
        },
        SimpleView::Boolean(_) => match value {
            JsonView::Bool(flag) => Ok(SimpleView::Boolean(flag)),
            _ => Err(name + ": expected a JSON boolean"@),
        },
        SimpleView::Text { bound, .. } => match value {
            JsonView::Text(text) => if within(bound, text.len()) {
                Ok(SimpleView::Text { bound, text })
            } else {
                Err(name + ": string exceeds its ROS bound"@)
            },
            _ => Err(name + ": expected a JSON string"@),
        },
        SimpleView::Message(message) => match decoded_message(message, value, Some(name)) {
            Ok(message) => Ok(SimpleView::Message(message)),
            Err(error) => Err(error),
        },
    }
}

/// What a message becomes when a JSON value is read into it. The path is that
/// of the message within the outermost one, which has none.
pub open spec fn decoded_message(
    message: MessageView,
    value: JsonView,
    path: Option<Seq<char>>,
) -> Result<MessageView, Seq<char>>
    decreases value, 0nat,
{
    match value {
        JsonView::Object(entries) => match unknown_key(message, entries) {
            Some(key) => Err(unknown_text(path, debug_text(key))),
            None => decoded_entries(message, entries, path),
        },
        _ => Err(
            match path {
                None => "message must be a JSON object"@,
                Some(name) => name + ": expected a JSON object"@,
            },
        ),
    }
}

/// What a message becomes when entries are read into its fields in order.
pub open spec fn decoded_entries(
    message: MessageView,
    entries: Seq<EntryView>,
    path: Option<Seq<char>>,
) -> Result<MessageView, Seq<char>>
    decreases entries, 0nat,
{
    if entries.len() == 0 {
        Ok(message)
    } else {
        match decoded_entries(message, entries.drop_last(), path) {
            Err(error) => Err(error),
            Ok(before) => match find_field(before, entries.last().key) {
                None => Ok(before),
                Some(i) => match decoded_value(
                    before.fields[i].value,
                    entries.last().value,
                    path_of(path, entries.last().key),
                ) {
                    Err(error) => Err(error),
                    Ok(value) => Ok(with_value(before, i, value)),
                },
            },
        }
    }
}

/// The message with another value in field `i`.
pub open spec fn with_value(message: MessageView, i: int, value: ValueView) -> MessageView {
    MessageView {
        fields: message.fields.update(
            i,
            FieldView { name: message.fields[i].name, value },
        ),
    }
}

/// What the value of a field becomes when a JSON value is read into it.
pub open spec fn decoded_value(slot: ValueView, value: JsonView, name: Seq<char>) -> Result<
    ValueView,
    Seq<char>,
>
    decreases value, 2nat,
{
    match slot {
        ValueView::Simple(simple) => match decoded_simple(simple, value, name) {
            Ok(simple) => Ok(ValueView::Simple(simple)),
            Err(error) => Err(error),
        },
        ValueView::Array(list) => match value {
            JsonView::Array(items) => if list.prototype is LongDouble {
                Err(unsupported_text(name))
            } else if list.elements.len() != items.len() {
                Err(length_text(list.elements.len(), items.len(), name))
            } else {
                match decoded_elements(list.elements, items, name) {
                    Ok(elements) => Ok(
                        ValueView::Array(ListView { prototype: list.prototype, elements }),
                    ),
                    Err(error) => Err(error),
                }
            },
            _ => Err(name + ": expected a JSON array"@),
        },
        ValueView::Sequence(list) => match value {
            JsonView::Array(items) => if list.prototype is LongDouble {
                Err(unsupported_text(name))
            } else {
                match decoded_elements(repeated(list.prototype, items.len()), items, name) {
                    Ok(elements) => Ok(
                        ValueView::Sequence(ListView { prototype: list.prototype, elements }),
                    ),
                    Err(error) => Err(error),
                }
            },
            _ => Err(name + ": expected a JSON array"@),
        },
        ValueView::BoundedSequence { bound, list } => match value {
            JsonView::Array(items) => if list.prototype is LongDouble {
                Err(unsupported_text(name))
            } else if items.len() > bound {
                Err(bound_text(items.len(), bound as nat, name))
            } else {
                match decoded_elements(repeated(list.prototype, items.len()), items, name) {
                    Ok(elements) => Ok(
                        ValueView::BoundedSequence {
                            bound,
                            list: ListView { prototype: list.prototype, elements },
                        },
                    ),
                    Err(error) => Err(error),
                }
            },
            _ => Err(name + ": expected a JSON array"@),
        },
    }
}

/// `count` times the same element.
pub open spec fn repeated(element: SimpleView, count: nat) -> Seq<SimpleView> {
    Seq::new(count, |i: int| element)
}

/// What elements become when the items of a JSON array are read into them, one
/// each.
pub open spec fn decoded_elements(
    slots: Seq<SimpleView>,
    items: Seq<JsonView>,
    name: Seq<char>,
) -> Result<Seq<SimpleView>, Seq<char>>
    decreases items, 0nat,
{
    if items.len() == 0 {
        Ok(Seq::empty())
    } else {
        match decoded_elements(slots.drop_last(), items.drop_last(), name) {
            Err(error) => Err(error),
            Ok(before) => match decoded_simple(slots.last(), items.last(), name) {
                Err(error) => Err(error),
                Ok(element) => Ok(before.push(element)),
            },
        }
    }
}

/// Whether elements of a sequence are read in place, and not as a whole:
/// messages, and texts with a bound.
pub open spec fn in_place(prototype: SimpleView) -> bool {
    prototype is Message || prototype matches SimpleView::Text { bound: Some(_), .. }
}

/// What is left of a simple value after a JSON value was read into it, whether
/// it fits or not.
pub open spec fn left_simple(slot: SimpleView, value: JsonView, name: Seq<char>) -> SimpleView
    decreases value, 1nat,
{
    match slot {
        SimpleView::Message(message) => SimpleView::Message(
            left_message(message, value, Some(name)),
        ),
        _ => match decoded_simple(slot, value, name) {
            Ok(filled) => filled,
            Err(_) => slot,
        },
    }
}

/// What is left of a message after a JSON value was read into it: nothing is
/// written unless every key is the name of a field.
pub open spec fn left_message(
    message: MessageView,
    value: JsonView,
    path: Option<Seq<char>>,
) -> MessageView
    decreases value, 0nat,
{
    match value {
        JsonView::Object(entries) => if unknown_key(message, entries) is Some {
            message
        } else {
            left_entries(message, entries, path)
        },
        _ => message,
    }
}

/// What is left of a message after entries were read into its fields in order:
/// the first that does not fit ends it, and the fields before keep their new
/// values.
pub open spec fn left_entries(
    message: MessageView,
    entries: Seq<EntryView>,
    path: Option<Seq<char>>,
) -> MessageView
    decreases entries, 0nat,
{
    if entries.len() == 0 {
        message
    } else {
        match decoded_entries(message, entries.drop_last(), path) {
            Err(_) => left_entries(message, entries.drop_last(), path),
            Ok(before) => match find_field(before, entries.last().key) {
                None => before,
                Some(i) => with_value(
                    before,
                    i,
                    left_value(
                        before.fields[i].value,
                        entries.last().value,
                        path_of(path, entries.last().key),
                    ),
                ),
            },
        }
    }
}

/// What is left of the value of a field after a JSON value was read into it. A
/// list of the wrong length is left alone, and so is a sequence that is read as
/// a whole.
pub open spec fn left_value(slot: ValueView, value: JsonView, name: Seq<char>) -> ValueView
    decreases value, 2nat,
{
    match slot {
        ValueView::Simple(simple) => ValueView::Simple(left_simple(simple, value, name)),
        ValueView::Array(list) => match value {
            JsonView::Array(items) => if list.prototype is LongDouble || list.elements.len()
                != items.len() {
                slot
            } else {
                ValueView::Array(
                    ListView {
                        prototype: list.prototype,
                        elements: left_elements(list.elements, items, name),
                    },
                )
            },
            _ => slot,
        },
        ValueView::Sequence(list) => match value {
            JsonView::Array(items) => if list.prototype is LongDouble || (!in_place(list.prototype)
                && decoded_elements(repeated(list.prototype, items.len()), items, name) is Err) {
                slot
            } else {
                ValueView::Sequence(
                    ListView {
                        prototype: list.prototype,
                        elements: left_elements(
                            repeated(list.prototype, items.len()),
                            items,
                            name,
                        ),
                    },
                )
            },
            _ => slot,
        },
        ValueView::BoundedSequence { bound, list } => match value {
            JsonView::Array(items) => if list.prototype is LongDouble || items.len() > bound {
                slot
            } else {
                ValueView::BoundedSequence {
                    bound,
                    list: ListView {
                        prototype: list.prototype,
                        elements: left_elements(
                            repeated(list.prototype, items.len()),
                            items,
                            name,
                        ),
                    },
                }
            },
            _ => slot,
        },
    }
}

/// What is left of elements after the items of a JSON array were read into
/// them, one each: the first that does not fit ends it.
pub open spec fn left_elements(
    slots: Seq<SimpleView>,
    items: Seq<JsonView>,
    name: Seq<char>,
) -> Seq<SimpleView>
    decreases items, 0nat,
{
    if items.len() == 0 {
        slots
    } else {
        let last = items.len() - 1;
        match decoded_elements(slots.take(last), items.drop_last(), name) {
            Err(_) => left_elements(slots, items.drop_last(), name),
            Ok(before) => before.push(left_simple(slots[last], items.last(), name)) + slots.skip(
                last + 1,
            ),
        }
    }
}

/// The text that says that an array is of the wrong length.
pub open spec fn length_text(expected: nat, actual: nat, name: Seq<char>) -> Seq<char> {
    name + ": expected "@ + integer_text(expected as int) + " array elements, got "@
        + integer_text(actual as int)
}

/// The text that says that a sequence is too long.
pub open spec fn bound_text(actual: nat, bound: nat, name: Seq<char>) -> Seq<char> {
    name + ": "@ + integer_text(actual as int) + " sequence elements exceed the ROS bound of "@
        + integer_text(bound as int)
}

/// Fails unless an array has the expected length.
pub fn check_length(expected: usize, actual: usize, name: &str) -> (result: Result<(), String>)
    ensures
        result is Ok <==> expected == actual,
        result is Err ==> result->Err_0@ == length_text(expected as nat, actual as nat, name@),
{
    if expected == actual {
        Ok(())
    } else {
        let mut text = combine(name, ": expected ");
        text.append(render_integer(expected as i128).as_str());
        text.append(" array elements, got ");
        text.append(render_integer(actual as i128).as_str());
        Err(text)
    }
}

/// Fails if a sequence has more elements than its type allows.
pub fn check_bound(bound: usize, actual: usize, name: &str) -> (result: Result<(), String>)
    ensures
        result is Ok <==> actual <= bound,
        result is Err ==> result->Err_0@ == bound_text(actual as nat, bound as nat, name@),
{
    if actual > bound {
        let mut text = combine(name, ": ");
        text.append(render_integer(actual as i128).as_str());
        text.append(" sequence elements exceed the ROS bound of ");
        text.append(render_integer(bound as i128).as_str());
        Err(text)
    } else {
        Ok(())
    }
}

/// The items of a JSON array.
pub fn json_array<'a>(value: &'a Json, name: &str) -> (result: Result<&'a Vec<Json>, String>)
    ensures
        match result {
            Ok(items) => *value == Json::Array(*items) && value@ == JsonView::Array(
                crate::json::views(items@),
            ),
            Err(error) => !(value@ is Array) && error@ == name@ + ": expected a JSON array"@,
        },
{
    proof {
        value.lemma_view();
    }
    match value {
        Json::Array(items) => Ok(items),
        _ => Err(combine(name, ": expected a JSON array")),
    }
}

/// Reads a JSON integer that is a value of the type.
pub fn integer(value: &Json, width: Width, name: &str) -> (result: Result<i128, String>)
    ensures
        match value@ {
            JsonView::Integer(number) => if width.holds(number) {
                result is Ok && result->Ok_0 == number
            } else {
                result is Err && result->Err_0@ == name@ + ": integer "@ + integer_text(number)
                    + " is out of range"@
            },
            _ => result is Err && result->Err_0@ == name@ + ": expected a JSON integer"@,
        },
{
    let number: i128 = match value {
        Json::Unsigned(number) => *number as i128,
        Json::Signed(number) => *number as i128,
        _ => {
            return Err(combine(name, ": expected a JSON integer"));
        },
    };
    if width.contains(number) {
        Ok(number)
    } else {
        let mut text = combine(name, ": integer ");
        text.append(render_integer(number).as_str());
        text.append(" is out of range");
        Err(text)
    }
}

/// Reads a JSON number, mapping null to NaN.
///
/// The subscription encoder writes null for non-finite values, so accepting
/// null here keeps the two directions consistent and round-trippable.
pub fn float64(value: &Json, name: &str) -> (result: Result<Real, String>)
    ensures
        match number_of(value@) {
            Some(number) => result is Ok && result->Ok_0@ == number,
            None => result is Err && result->Err_0@ == name@ + ": expected a JSON number or null"@,
        },
{
    match value {
        Json::Null => Ok(Real::Nan),
        Json::Float(text) => Ok(Real::Finite(text.clone())),
        Json::Unsigned(number) => Ok(Real::Finite(integer_as_double(*number as i128))),
        Json::Signed(number) => Ok(Real::Finite(integer_as_double(*number as i128))),
        _ => Err(combine(name, ": expected a JSON number or null")),
    }
}

/// Reads a JSON number that is finite in a precision, mapping null to NaN.
pub fn number(value: &Json, precision: Precision, name: &str) -> (result: Result<Real, String>)
    ensures
        match decoded_real(precision, value@, name@) {
            Ok(number) => result is Ok && result->Ok_0@ == number,
            Err(error) => result is Err && result->Err_0@ == error,
        },
{
    if let Json::Float(digits) = value {
        if !precision.admits(digits.as_str()) {
            let mut text = combine(name, ": number ");
            text.append(digits.as_str());
            text.append(" is out of range");
            return Err(text);
        }
    }
    float64(value, name)
}

/// Puts a number that was read as a double into a field of a precision.
pub fn hold(precision: Precision, number: Real) -> (slot: Simple)
    ensures
        slot@ == held_number(precision, number@),
{
    match (precision, number) {
        (Precision::Single, Real::Finite(text)) => Simple::Nearest(text),
        (precision, number) => Simple::Real(precision, number),
    }
}

/// Reads a JSON boolean.
pub fn boolean(value: &Json, name: &str) -> (result: Result<bool, String>)
    ensures
        match value@ {
            JsonView::Bool(flag) => result is Ok && result->Ok_0 == flag,
            _ => result is Err && result->Err_0@ == name@ + ": expected a JSON boolean"@,
        },
{
    match value {
        Json::Bool(flag) => Ok(*flag),
        _ => Err(combine(name, ": expected a JSON boolean")),
    }
}

/// Reads a JSON string.
pub fn string<'a>(value: &'a Json, name: &str) -> (result: Result<&'a String, String>)
    ensures
        match value@ {
            JsonView::Text(text) => result is Ok && result->Ok_0@ == text,
            _ => result is Err && result->Err_0@ == name@ + ": expected a JSON string"@,
        },
{
    match value {
        Json::Text(text) => Ok(text),
        _ => Err(combine(name, ": expected a JSON string")),
    }
}

/// Says that extended precision is not supported.
pub fn unsupported(name: &str) -> (text: String)
    ensures
        text@ == unsupported_text(name@),
{
    combine(name, ": long double fields are unsupported")
}

/// The content of an optional path.
pub open spec fn path_view(path: Option<&str>) -> Option<Seq<char>> {
    match path {
        None => None,
        Some(name) => Some(name@),
    }
}

/// The text that says that a key, quoted, is not the name of a field.
pub open spec fn unknown_text(path: Option<Seq<char>>, quoted: Seq<char>) -> Seq<char> {
    match path {
        None => "unknown message field "@ + quoted,
        Some(name) => name + ": unknown message field "@ + quoted,
    }
}

/// Says that a key, quoted, is not the name of a field.
pub fn unknown_field(path: Option<&str>, quoted: &str) -> (text: String)
    ensures
        text@ == unknown_text(path_view(path), quoted@),
{
    match path {
        None => combine("unknown message field ", quoted),
        Some(name) => {
            let mut text = combine(name, ": unknown message field ");
            text.append(quoted);
            text
        },
    }
}

/// Fills a message from a JSON object. Where a value does not fit, the fields
/// before it have been written.
pub fn decode(message: &mut Message, value: &Json) -> (result: Result<(), String>)
    ensures
        match decoded_message(old(message)@, value@, None) {
            Ok(filled) => result is Ok && final(message)@ == filled,
            Err(error) => result is Err && result->Err_0@ == error && final(message)@
                == left_message(old(message)@, value@, None),
        },
{
    match value {
        Json::Object(entries) => {
            proof {
                value.lemma_view();
            }
            fill_entries(message, entries, None)
        },
        _ => Err("message must be a JSON object".to_owned()),
    }
}

/// Fills a nested message from a JSON object.
fn message_view(view: &mut Message, value: &Json, name: &str) -> (result: Result<(), String>)
    ensures
        match decoded_message(old(view)@, value@, Some(name@)) {
            Ok(filled) => result is Ok && final(view)@ == filled,
            Err(error) => result is Err && result->Err_0@ == error && final(view)@ == left_message(
                old(view)@,
                value@,
                Some(name@),
            ),
        },
    decreases value, 0nat,
{
    match value {
        Json::Object(entries) => {
            proof {
                value.lemma_view();
            }
            fill_entries(view, entries, Some(name))
        },
        _ => Err(combine(name, ": expected a JSON object")),
    }
}

/// Fills the fields of a message from the entries of a JSON object, once every
/// key is known to be the name of a field.
fn fill_entries(message: &mut Message, entries: &Vec<Entry>, path: Option<&str>) -> (result: Result<
    (),
    String,
>)
    ensures
        match decoded_message(
            old(message)@,
            JsonView::Object(crate::json::entry_views(entries@)),
            path_view(path),
        ) {
            Ok(filled) => result is Ok && final(message)@ == filled,
            Err(error) => result is Err && result->Err_0@ == error && final(message)@
                == left_message(
                old(message)@,
                JsonView::Object(crate::json::entry_views(entries@)),
                path_view(path),
            ),
        },
    decreases entries, 0nat,
{
    let ghost start = message@;
    let ghost views = crate::json::entry_views(entries@);
    let ghost parent = path_view(path);
    let mut i: usize = 0;
    assert(views.take(0) =~= Seq::empty());
    while i < entries.len()
        invariant
            i <= entries@.len(),
            start == old(message)@,
            message@ == start,
            views == crate::json::entry_views(entries@),
            parent == path_view(path),
            unknown_key(start, views.take(i as int)) is None,
        decreases entries@.len() - i,
    {
        proof {
            assert(views.take(i + 1).drop_last() =~= views.take(i as int));
            assert(views.take(i + 1).last() == views[i as int]);
        }
        match message.find(&entries[i].key) {
            Some(_) => {},
            None => {
                proof {
                    lemma_unknown_prefix(start, views, i + 1);
                }
                let quoted = quote_debug(entries[i].key.as_str());
                return Err(unknown_field(path, quoted.as_str()));
            },
        }
        i += 1;
    }
    assert(views.take(i as int) =~= views);
    let mut i: usize = 0;
    assert(views.take(0) =~= Seq::empty());
    while i < entries.len()
        invariant
            i <= entries@.len(),
            start == old(message)@,
            views == crate::json::entry_views(entries@),
            parent == path_view(path),
            unknown_key(start, views) is None,
            decoded_entries(start, views.take(i as int), parent) == Ok::<MessageView, Seq<char>>(
                message@,
            ),
        decreases entries@.len() - i,
    {
        proof {
            assert(views.take(i + 1).drop_last() =~= views.take(i as int));
            assert(views.take(i + 1).last() == views[i as int]);
        }
        let ghost before = message@;
        match message.find(&entries[i].key) {
            None => {},
            Some(k) => {
                let name = match path {
                    None => entries[i].key.clone(),
                    Some(parent) => {
                        let mut name = combine(parent, ".");
                        name.append(entries[i].key.as_str());
                        name
                    },
                };
                proof {
                    message.lemma_view();
                    assert(decreases_to!(entries => entries@));
                    assert(decreases_to!(entries@ => entries@[i as int]));
                    assert(decreases_to!(entries@[i as int] => entries@[i as int].value));
                }
                let ghost held = message.fields@;
                match value_mut(&mut message.fields[k].value, &entries[i].value, name.as_str()) {
                    Ok(_) => {},
                    Err(error) => {
                        proof {
                            lemma_entries_stop(start, views, i + 1, parent);
                            lemma_written(before, held, *message, k as int);
                        }
                        return Err(error);
                    },
                }
                proof {
                    lemma_written(before, held, *message, k as int);
                }
            },
        }
        i += 1;
    }
    assert(views.take(i as int) =~= views);
    Ok(())
}

/// Reads a JSON value into a field.
fn value_mut(slot: &mut Value, value: &Json, name: &str) -> (result: Result<(), String>)
    ensures
        match decoded_value(old(slot)@, value@, name@) {
            Ok(filled) => result is Ok && final(slot)@ == filled,
            Err(error) => result is Err && result->Err_0@ == error && final(slot)@ == left_value(
                old(slot)@,
                value@,
                name@,
            ),
        },
    decreases value, 3nat,
{
    match slot {
        Value::Simple(slot) => simple(slot, value, name),
        Value::Array(slot) => array(slot, value, name),
        Value::Sequence(slot) => sequence(slot, value, name),
        Value::BoundedSequence { bound, list } => bounded_sequence(*bound, list, value, name),
    }
}

/// Reads a JSON value into a simple value.
fn simple(slot: &mut Simple, value: &Json, name: &str) -> (result: Result<(), String>)
    ensures
        match decoded_simple(old(slot)@, value@, name@) {
            Ok(filled) => result is Ok && final(slot)@ == filled,
            Err(error) => result is Err && result->Err_0@ == error && final(slot)@ == left_simple(
                old(slot)@,
                value@,
                name@,
            ),
        },
    decreases value, 1nat,
{
    match slot {
        Simple::Real(precision, _) => {
            let precision = *precision;
            match number(value, precision, name) {
                Ok(number) => {
                    *slot = hold(precision, number);
                    Ok(())
                },
                Err(error) => Err(error),
            }
        },
        Simple::Nearest(_) => match number(value, Precision::Single, name) {
            Ok(number) => {
                *slot = hold(Precision::Single, number);
                Ok(())
            },
            Err(error) => Err(error),
        },
        Simple::LongDouble => Err(unsupported(name)),
        Simple::Integer(width, element) => match integer(value, *width, name) {
            Ok(number) => {
                *element = number;
                Ok(())
            },
            Err(error) => Err(error),
        },
        Simple::Boolean(element) => match boolean(value, name) {
            Ok(flag) => {
                *element = flag;
                Ok(())
            },
            Err(error) => Err(error),
        },
        Simple::Text { bound, text } => match string(value, name) {
            Ok(assigned) => {
                match bound {
                    Some(bound) => {
                        if assigned.as_str().unicode_len() > *bound {
                            return Err(combine(name, ": string exceeds its ROS bound"));
                        }
                    },
                    None => {},
                }
                *text = assigned.clone();
                Ok(())
            },
            Err(error) => Err(error),
        },
        Simple::Message(element) => message_view(element, value, name),
    }
}

/// Reads a JSON array into a list of fixed length.
fn array(slot: &mut List, value: &Json, name: &str) -> (result: Result<(), String>)
    ensures
        match decoded_value(ValueView::Array(old(slot)@), value@, name@) {
            Ok(filled) => result is Ok && ValueView::Array(final(slot)@) == filled,
            Err(error) => result is Err && result->Err_0@ == error && ValueView::Array(final(slot)@)
                == left_value(ValueView::Array(old(slot)@), value@, name@),
        },
    decreases value, 2nat,
{
    proof {
        slot.lemma_view();
    }
    let items = match json_array(value, name) {
        Ok(items) => items,
        Err(error) => {
            return Err(error);
        },
    };
    match &slot.prototype {
        Simple::LongDouble => {
            return Err(unsupported(name));
        },
        _ => {},
    }
    match check_length(slot.elements.len(), items.len(), name) {
        Ok(_) => {},
        Err(error) => {
            return Err(error);
        },
    }
    assert(decreases_to!(value => items));
    let result = fill(&mut slot.elements, items, name);
    proof {
        slot.lemma_view();
    }
    result
}

/// Reads a JSON array into a list of any length.
fn sequence(slot: &mut List, value: &Json, name: &str) -> (result: Result<(), String>)
    ensures
        match decoded_value(ValueView::Sequence(old(slot)@), value@, name@) {
            Ok(filled) => result is Ok && ValueView::Sequence(final(slot)@) == filled,
            Err(error) => result is Err && result->Err_0@ == error && ValueView::Sequence(final(slot)@)
                == left_value(ValueView::Sequence(old(slot)@), value@, name@),
        },
    decreases value, 2nat,
{
    let items = match json_array(value, name) {
        Ok(items) => items,
        Err(error) => {
            return Err(error);
        },
    };
    match &slot.prototype {
        Simple::LongDouble => {
            return Err(unsupported(name));
        },
        _ => {},
    }
    assert(decreases_to!(value => items));
    if !reads_in_place(&slot.prototype) {
        let mut elements = defaults(&slot.prototype, items.len());
        match fill(&mut elements, items, name) {
            Ok(_) => {},
            Err(error) => {
                return Err(error);
            },
        }
        slot.elements = elements;
        proof {
            slot.lemma_view();
        }
        return Ok(());
    }
    reset(slot, items.len());
    proof {
        slot.lemma_view();
    }
    let result = fill(&mut slot.elements, items, name);
    proof {
        slot.lemma_view();
    }
    result
}

/// Reads a JSON array into a list of bounded length.
fn bounded_sequence(bound: usize, slot: &mut List, value: &Json, name: &str) -> (result: Result<
    (),
    String,
>)
    ensures
        match decoded_value(
            ValueView::BoundedSequence { bound, list: old(slot)@ },
            value@,
            name@,
        ) {
            Ok(filled) => result is Ok && ValueView::BoundedSequence { bound, list: final(slot)@ }
                == filled,
            Err(error) => result is Err && result->Err_0@ == error && (ValueView::BoundedSequence {
                bound,
                list: final(slot)@,
            }) == left_value(
                ValueView::BoundedSequence { bound, list: old(slot)@ },
                value@,
                name@,
            ),
        },
    decreases value, 2nat,
{
    let items = match json_array(value, name) {
        Ok(items) => items,
        Err(error) => {
            return Err(error);
        },
    };
    match &slot.prototype {
        Simple::LongDouble => {
            return Err(unsupported(name));
        },
        _ => {},
    }
    match resize(bound, slot, items.len(), name) {
        Ok(_) => {},
        Err(error) => {
            return Err(error);
        },
    }
    proof {
        slot.lemma_view();
    }
    assert(decreases_to!(value => items));
    let result = fill(&mut slot.elements, items, name);
    proof {
        slot.lemma_view();
    }
    result
}

/// Resets a list of bounded length to `len` default elements.
pub fn resize(bound: usize, slot: &mut List, len: usize, name: &str) -> (result: Result<
    (),
    String,
>)
    ensures
        result is Ok <==> len <= bound,
        result is Ok ==> final(slot)@ == (ListView {
            prototype: old(slot)@.prototype,
            elements: repeated(old(slot)@.prototype, len as nat),
        }),
        result is Err ==> final(slot)@ == old(slot)@ && result->Err_0@ == bound_text(
            len as nat,
            bound as nat,
            name@,
        ),
{
    match check_bound(bound, len, name) {
        Ok(_) => {
            reset(slot, len);
            Ok(())
        },
        Err(error) => Err(error),
    }
}

/// Resets a list to `len` default elements.
pub fn reset(slot: &mut List, len: usize)
    ensures
        final(slot)@ == (ListView {
            prototype: old(slot)@.prototype,
            elements: repeated(old(slot)@.prototype, len as nat),
        }),
{
    slot.elements = defaults(&slot.prototype, len);
    proof {
        slot.lemma_view();
    }
}

/// `len` default elements.
fn defaults(prototype: &Simple, len: usize) -> (elements: Vec<Simple>)
    ensures
        crate::message::simple_views(elements@) == repeated(prototype@, len as nat),
{
    let mut elements: Vec<Simple> = Vec::new();
    let mut i: usize = 0;
    while i < len
        invariant
            i <= len,
            elements@.len() == i,
            forall|k: int| 0 <= k < i ==> (#[trigger] elements@[k])@ == prototype@,
        decreases len - i,
    {
        elements.push(prototype.copy());
        i += 1;
    }
    assert(crate::message::simple_views(elements@) =~= repeated(prototype@, len as nat));
    elements
}

/// Whether elements of a sequence are read in place, and not as a whole.
fn reads_in_place(prototype: &Simple) -> (result: bool)
    ensures
        result == in_place(prototype@),
{
    match prototype {
        Simple::Message(_) => true,
        Simple::Text { bound: Some(_), .. } => true,
        _ => false,
    }
}

/// Reads the items of a JSON array into elements, one each.
fn fill(slots: &mut Vec<Simple>, items: &Vec<Json>, name: &str) -> (result: Result<(), String>)
    requires
        old(slots)@.len() == items@.len(),
    ensures
        match decoded_elements(
            crate::message::simple_views(old(slots)@),
            crate::json::views(items@),
            name@,
        ) {
            Ok(filled) => result is Ok && crate::message::simple_views(final(slots)@) == filled,
            Err(error) => result is Err && result->Err_0@ == error && crate::message::simple_views(
                final(slots)@,
            ) == left_elements(
                crate::message::simple_views(old(slots)@),
                crate::json::views(items@),
                name@,
            ),
        },
    decreases items, 0nat,
{
    let ghost start = crate::message::simple_views(slots@);
    let ghost views = crate::json::views(items@);
    let mut i: usize = 0;
    assert(views.take(0) =~= Seq::empty());
    assert(crate::message::simple_views(slots@).take(0) =~= Seq::empty());
    while i < items.len()
        invariant
            i <= items@.len(),
            slots@.len() == items@.len(),
            start.len() == items@.len(),
            start == crate::message::simple_views(old(slots)@),
            views == crate::json::views(items@),
            decoded_elements(start.take(i as int), views.take(i as int), name@) == Ok::<
                Seq<SimpleView>,
                Seq<char>,
            >(crate::message::simple_views(slots@).take(i as int)),
            forall|k: int| i <= k < slots@.len() ==> (#[trigger] slots@[k])@ == start[k],
        decreases items@.len() - i,
    {
        proof {
            assert(views.take(i + 1).drop_last() =~= views.take(i as int));
            assert(views.take(i + 1).last() == views[i as int]);
            assert(start.take(i + 1).drop_last() =~= start.take(i as int));
            assert(start.take(i + 1).last() == start[i as int]);
            assert(decreases_to!(items => items@));
            assert(decreases_to!(items@ => items@[i as int]));
        }
        let ghost held = slots@;
        match simple(&mut slots[i], &items[i], name) {
            Ok(_) => {},
            Err(error) => {
                proof {
                    lemma_elements_stop(start, views, i + 1, name@);
                    let left = crate::message::simple_views(slots@);
                    assert forall|k: int| 0 <= k < left.len() && k != i implies left[k]
                        == crate::message::simple_views(held)[k] by {
                        assert(slots@[k] == held[k]);
                    }
                    assert(left =~= left_elements(start, views.take(i + 1), name@));
                }
                return Err(error);
            },
        }
        proof {
            let before = crate::message::simple_views(held).take(i as int);
            let after = crate::message::simple_views(slots@).take(i + 1);
            assert forall|k: int| 0 <= k < i implies after[k] == before[k] by {
                assert(slots@[k] == held[k]);
            }
            assert(after =~= before.push(slots@[i as int]@));
        }
        i += 1;
    }
    proof {
        assert(views.take(i as int) =~= views);
        assert(start.take(i as int) =~= start);
        assert(crate::message::simple_views(slots@).take(i as int)
            =~= crate::message::simple_views(slots@));
    }
    Ok(())
}

/// A message of which one field was written is the one before with another
/// value in that field.
proof fn lemma_written(before: MessageView, held: Seq<Field>, message: Message, i: int)
    requires
        0 <= i < held.len(),
        before.fields == field_views(held),
        message.fields@.len() == held.len(),
        message.fields@[i].name == held[i].name,
        forall|k: int| 0 <= k < held.len() && k != i ==> message.fields@[k] == held[k],
    ensures
        message@ == with_value(before, i, message.fields@[i].value@),
{
    message.lemma_view();
    assert(message@.fields =~= with_value(before, i, message.fields@[i].value@).fields);
}

proof fn lemma_unknown_prefix(message: MessageView, entries: Seq<EntryView>, count: int)
    requires
        0 <= count <= entries.len(),
        unknown_key(message, entries.take(count)) is Some,
    ensures
        unknown_key(message, entries) == unknown_key(message, entries.take(count)),
    decreases entries.len() - count,
{
    if count < entries.len() {
        assert(entries.take(count + 1).drop_last() =~= entries.take(count));
        lemma_unknown_prefix(message, entries, count + 1);
    } else {
        assert(entries.take(count) =~= entries);
    }
}

proof fn lemma_entries_stop(
    message: MessageView,
    entries: Seq<EntryView>,
    count: int,
    path: Option<Seq<char>>,
)
    requires
        0 <= count <= entries.len(),
        decoded_entries(message, entries.take(count), path) is Err,
    ensures
        decoded_entries(message, entries, path) == decoded_entries(
            message,
            entries.take(count),
            path,
        ),
        left_entries(message, entries, path) == left_entries(message, entries.take(count), path),
    decreases entries.len() - count,
{
    if count < entries.len() {
        assert(entries.take(count + 1).drop_last() =~= entries.take(count));
        lemma_entries_stop(message, entries, count + 1, path);
    } else {
        assert(entries.take(count) =~= entries);
    }
}

proof fn lemma_elements_stop(
    slots: Seq<SimpleView>,
    items: Seq<JsonView>,
    count: int,
    name: Seq<char>,
)
    requires
        0 <= count <= items.len(),
        slots.len() == items.len(),
        decoded_elements(slots.take(count), items.take(count), name) is Err,
    ensures
        decoded_elements(slots, items, name) == decoded_elements(
            slots.take(count),
            items.take(count),
            name,
        ),
        left_elements(slots, items, name) == left_elements(slots, items.take(count), name),
    decreases items.len() - count,
{
    if count < items.len() {
        assert(items.take(count + 1).drop_last() =~= items.take(count));
        assert(slots.take(count + 1).drop_last() =~= slots.take(count));
        lemma_elements_stop(slots, items, count + 1, name);
    } else {
        assert(items.take(count) =~= items);
        assert(slots.take(count) =~= slots);
    }
}

} // verus!
