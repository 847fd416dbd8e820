//! Which messages can be encoded, and what their payloads say.
use vstd::prelude::*;

use super::encoded;
use super::json::{
    clean, element_trees, emit, encodable_list, encodable_message, encodable_simple,
    encodable_value, field_trees, lemma_emit_clean, lemma_payload, message_tree, payload_pieces,
    payload_text, simple_tree, value_tree, Piece,
};
use super::number::{integer_pieces, real_pieces};
use super::reading::{decimal_message, lemma_payload_read, payload_tree};
use crate::json::reading::{as_written, entries_as_written, items_as_written, read};
use crate::json::{EntryView, JsonView};
use crate::message::{
    digits_value, ListView, MessageView, Precision, RealView, SimpleView, ValueView, Width,
};
use crate::subscriptions::laws::lemma_digits;
use crate::text::{decimal, integer_text, utf8_len};

verus! {

/// Whether a simple value is a long double or a number that awaits rounding, or
/// holds one.
pub open spec fn offends_simple(simple: SimpleView) -> bool
    decreases simple,
{
    ||| simple is LongDouble
    ||| simple is Nearest
    ||| simple is Message && offends_message(simple->Message_0)
}

/// Whether a list is one of long doubles, or an element is or holds what cannot
/// be encoded.
pub open spec fn offends_list(list: ListView) -> bool
    decreases list,
{
    ||| list.prototype is LongDouble
    ||| exists|i: int| 0 <= i < list.elements.len() && offends_simple(#[trigger] list.elements[i])
}

/// Whether the value of a field is or holds what cannot be encoded.
pub open spec fn offends_value(value: ValueView) -> bool
    decreases value,
{
    match value {
        ValueView::Simple(simple) => offends_simple(simple),
        ValueView::Array(list) => offends_list(list),
        ValueView::Sequence(list) => offends_list(list),
        ValueView::BoundedSequence { list, .. } => offends_list(list),
    }
}

/// Whether a message holds a long double or a number that awaits rounding.
pub open spec fn offends_message(message: MessageView) -> bool
    decreases message,
{
    exists|i: int|
        0 <= i < message.fields.len() && offends_value((#[trigger] message.fields[i]).value)
}

/// Whether a simple value holds messages at most `levels` deep.
pub open spec fn nests_simple(simple: SimpleView, levels: int) -> bool
    decreases simple,
{
    simple is Message ==> levels >= 1 && nests_message(simple->Message_0, levels - 1)
}

/// Whether the elements of a list hold messages at most `levels` deep.
pub open spec fn nests_list(list: ListView, levels: int) -> bool
    decreases list,
{
    forall|i: int|
        0 <= i < list.elements.len() ==> nests_simple(#[trigger] list.elements[i], levels)
}

/// Whether the value of a field holds messages at most `levels` deep.
pub open spec fn nests_value(value: ValueView, levels: int) -> bool
    decreases value,
{
    match value {
        ValueView::Simple(simple) => nests_simple(simple, levels),
        ValueView::Array(list) => nests_list(list, levels),
        ValueView::Sequence(list) => nests_list(list, levels),
        ValueView::BoundedSequence { list, .. } => nests_list(list, levels),
    }
}

/// Whether a message holds messages at most `levels` deep.
pub open spec fn nests_message(message: MessageView, levels: int) -> bool
    decreases message,
{
    forall|i: int|
        0 <= i < message.fields.len() ==> nests_value((#[trigger] message.fields[i]).value, levels)
}

/// A field of every kind but two can be encoded at every depth: an integer of
/// any width and value, a number of either precision that is finite or not, a
/// flag, and a text with any bound.
pub proof fn lemma_every_kind_encodable(
    width: Width,
    value: int,
    precision: Precision,
    number: RealView,
    flag: bool,
    bound: Option<usize>,
    text: Seq<char>,
    depth: nat,
)
    ensures
        encodable_simple(SimpleView::Integer(width, value), depth),
        encodable_simple(SimpleView::Real(precision, number), depth),
        encodable_simple(SimpleView::Boolean(flag), depth),
        encodable_simple(SimpleView::Text { bound, text }, depth),
        !encodable_simple(SimpleView::LongDouble, depth),
        !encodable_simple(SimpleView::Nearest(text), depth),
{
}

/// A message within a field can be encoded exactly where it stands at most 64
/// levels deep and each of its fields can be encoded one level deeper; a list,
/// where it is not one of long doubles and each of its elements can be.
pub proof fn lemma_encodable_parts(
    message: MessageView,
    list: ListView,
    simple: SimpleView,
    bound: usize,
    depth: nat,
)
    ensures
        encodable_simple(SimpleView::Message(message), depth) <==> depth <= 64 && forall|i: int|
            0 <= i < message.fields.len() ==> encodable_value(
                (#[trigger] message.fields[i]).value,
                depth + 1,
            ),
        encodable_message(message, depth) <==> encodable_simple(
            SimpleView::Message(message),
            depth,
        ),
        encodable_value(ValueView::Simple(simple), depth) <==> encodable_simple(simple, depth),
        encodable_value(ValueView::Array(list), depth) <==> !(list.prototype is LongDouble)
            && forall|i: int|
            0 <= i < list.elements.len() ==> encodable_simple(#[trigger] list.elements[i], depth),
        encodable_value(ValueView::Sequence(list), depth) <==> encodable_value(
            ValueView::Array(list),
            depth,
        ),
        encodable_value(ValueView::BoundedSequence { bound, list }, depth) <==> encodable_value(
            ValueView::Array(list),
            depth,
        ),
{
}

proof fn lemma_encodable_simple(simple: SimpleView, depth: nat)
    requires
        depth <= 65,
    ensures
        encodable_simple(simple, depth) <==> !offends_simple(simple) && nests_simple(
            simple,
            65 - depth,
        ),
    decreases simple,
{
    if let SimpleView::Message(message) = simple {
        if depth <= 64 {
            lemma_encodable_message(message, depth);
        }
    }
}

proof fn lemma_encodable_list(list: ListView, depth: nat)
    requires
        depth <= 65,
    ensures
        encodable_list(list, depth) <==> !offends_list(list) && nests_list(list, 65 - depth),
    decreases list,
{
    assert forall|i: int| 0 <= i < list.elements.len() implies encodable_simple(
        #[trigger] list.elements[i],
        depth,
    ) == (!offends_simple(list.elements[i]) && nests_simple(list.elements[i], 65 - depth)) by {
        assert(decreases_to!(list => list.elements));
        assert(decreases_to!(list.elements => list.elements[i]));
        lemma_encodable_simple(list.elements[i], depth);
    }
}

proof fn lemma_encodable_value(value: ValueView, depth: nat)
    requires
        depth <= 65,
    ensures
        encodable_value(value, depth) <==> !offends_value(value) && nests_value(value, 65 - depth),
    decreases value,
{
    match value {
        ValueView::Simple(simple) => lemma_encodable_simple(simple, depth),
        ValueView::Array(list) => lemma_encodable_list(list, depth),
        ValueView::Sequence(list) => lemma_encodable_list(list, depth),
        ValueView::BoundedSequence { list, .. } => lemma_encodable_list(list, depth),
    }
}

/// A message can be encoded exactly where it holds no long double and no number
/// that awaits rounding, and nests messages at most 64 levels deep.
pub proof fn lemma_encodable_message(message: MessageView, depth: nat)
    requires
        depth <= 64,
    ensures
        encodable_message(message, depth) <==> !offends_message(message) && nests_message(
            message,
            64 - depth,
        ),
    decreases message,
{
    assert forall|i: int| 0 <= i < message.fields.len() implies encodable_value(
        (#[trigger] message.fields[i]).value,
        depth + 1,
    ) == (!offends_value(message.fields[i].value) && nests_value(
        message.fields[i].value,
        64 - depth,
    )) by {
        assert(decreases_to!(message => message.fields));
        assert(decreases_to!(message.fields => message.fields[i]));
        assert(decreases_to!(message.fields[i] => message.fields[i].value));
        lemma_encodable_value(message.fields[i].value, depth + 1);
    }
}

/// Every message that holds no long double and no number that awaits rounding,
/// nests messages at most 64 levels deep and has a payload of at most 7999 bytes
/// is encoded as that payload, and no other is. One whose payload alone is too
/// long is refused for that.
pub proof fn lemma_encoded(
    topic: Seq<char>,
    message_type: Seq<char>,
    sequence: nat,
    message: MessageView,
)
    ensures
        ({
            let sound = !offends_message(message) && nests_message(message, 64);
            let text = payload_text(topic, message_type, sequence, message);
            let outcome = encoded(topic, message_type, sequence, message);
            &&& outcome is Ok <==> sound && utf8_len(text) <= 7999
            &&& outcome is Ok ==> outcome->Ok_0 == text
            &&& sound && utf8_len(text) > 7999 ==> outcome == Err::<Seq<char>, Seq<char>>(
                "notification payload exceeds 7999 bytes"@,
            )
        }),
{
    let none = Seq::<char>::empty();
    let pieces = payload_pieces(topic, message_type, sequence, message);
    lemma_encodable_message(message, 0);
    lemma_payload(topic, message_type, sequence, message);
    assert(vstd::utf8::encode_utf8(none) =~= Seq::<u8>::empty());
    lemma_emit_clean(none, pieces);
    assert(none + super::json::joined(pieces) =~= super::json::joined(pieces));
    if clean(pieces) {
        lemma_clean_error(none, pieces);
    }
}

proof fn lemma_clean_error(text: Seq<char>, pieces: Seq<Piece>)
    requires
        clean(pieces),
    ensures
        emit(text, pieces).1 is Some ==> emit(text, pieces).1 == Some(
            "notification payload exceeds 7999 bytes"@,
        ),
    decreases pieces.len(),
{
    if pieces.len() > 0 {
        let init = pieces.drop_last();
        assert forall|i: int| 0 <= i < init.len() implies #[trigger] init[i] is Text by {
            assert(pieces[i] is Text);
        }
        lemma_clean_error(text, init);
        assert(pieces[pieces.len() - 1] is Text);
    }
}

/// Whether a JSON value, with its numbers as they are written, says what a simple
/// value is: an integer in decimal, a finite number by its text and any other as
/// `null`, a flag, a text, and a message as an object.
pub open spec fn says_simple(value: JsonView, simple: SimpleView) -> bool
    decreases simple,
{
    match simple {
        SimpleView::Integer(_, number) => value == JsonView::Float(integer_text(number)),
        SimpleView::Real(_, RealView::Finite(text)) => value == JsonView::Float(text),
        SimpleView::Real(_, _) => value is Null,
        SimpleView::Boolean(flag) => value == JsonView::Bool(flag),
        SimpleView::Text { text, .. } => value == JsonView::Text(text),
        SimpleView::Message(message) => says_message(value, message),
        _ => true,
    }
}

/// Whether a JSON value is an array that says what each element of a list is.
pub open spec fn says_list(value: JsonView, list: ListView) -> bool
    decreases list,
{
    &&& value is Array
    &&& value->Array_0.len() == list.elements.len()
    &&& forall|i: int|
        0 <= i < list.elements.len() ==> says_simple(
            value->Array_0[i],
            #[trigger] list.elements[i],
        )
}

/// Whether a JSON value says what the value of a field is.
pub open spec fn says_value(value: JsonView, held: ValueView) -> bool
    decreases held,
{
    match held {
        ValueView::Simple(simple) => says_simple(value, simple),
        ValueView::Array(list) => says_list(value, list),
        ValueView::Sequence(list) => says_list(value, list),
        ValueView::BoundedSequence { list, .. } => says_list(value, list),
    }
}

/// Whether a JSON value is an object that has the fields of a message, in order,
/// under their names.
pub open spec fn says_message(value: JsonView, message: MessageView) -> bool
    decreases message,
{
    &&& value is Object
    &&& value->Object_0.len() == message.fields.len()
    &&& forall|i: int|
        0 <= i < message.fields.len() ==> value->Object_0[i].key == (
        #[trigger] message.fields[i]).name && says_value(
            value->Object_0[i].value,
            message.fields[i].value,
        )
}

proof fn lemma_says_simple(simple: SimpleView)
    ensures
        says_simple(as_written(simple_tree(simple)), simple),
    decreases simple,
{
    if let SimpleView::Message(message) = simple {
        lemma_says_message(message);
    }
}

proof fn lemma_says_list(list: ListView)
    ensures
        says_list(as_written(JsonView::Array(element_trees(list.elements))), list),
    decreases list,
{
    let trees = element_trees(list.elements);
    let written = items_as_written(trees);
    assert(as_written(JsonView::Array(trees)) == JsonView::Array(written));
    assert forall|i: int| 0 <= i < list.elements.len() implies says_simple(
        written[i],
        #[trigger] list.elements[i],
    ) by {
        assert(decreases_to!(list => list.elements));
        assert(decreases_to!(list.elements => list.elements[i]));
        lemma_says_simple(list.elements[i]);
        assert(written[i] == as_written(simple_tree(list.elements[i])));
    }
}

proof fn lemma_says_value(held: ValueView)
    ensures
        says_value(as_written(value_tree(held)), held),
    decreases held,
{
    match held {
        ValueView::Simple(simple) => lemma_says_simple(simple),
        ValueView::Array(list) => lemma_says_list(list),
        ValueView::Sequence(list) => lemma_says_list(list),
        ValueView::BoundedSequence { list, .. } => lemma_says_list(list),
    }
}

proof fn lemma_says_message(message: MessageView)
    ensures
        says_message(as_written(message_tree(message)), message),
    decreases message,
{
    let trees = field_trees(message.fields);
    let written = entries_as_written(trees);
    assert(as_written(message_tree(message)) == JsonView::Object(written));
    assert forall|i: int| 0 <= i < message.fields.len() implies written[i].key == (
    #[trigger] message.fields[i]).name && says_value(
        written[i].value,
        message.fields[i].value,
    ) by {
        assert(decreases_to!(message => message.fields));
        assert(decreases_to!(message.fields => message.fields[i]));
        assert(decreases_to!(message.fields[i] => message.fields[i].value));
        lemma_says_value(message.fields[i].value);
        assert(trees[i].value == value_tree(message.fields[i].value));
        assert(written[i].value == as_written(trees[i].value));
    }
}

/// Reading a payload gives an object with the topic, the message type, the number
/// and a message that says, field by field and under their names, what was
/// encoded.
pub proof fn lemma_payload_says(
    topic: Seq<char>,
    message_type: Seq<char>,
    sequence: nat,
    message: MessageView,
)
    requires
        decimal_message(message),
    ensures
        ({
            let found = read(payload_text(topic, message_type, sequence, message));
            &&& found is Some
            &&& found->Some_0.1.len() == 0
            &&& found->Some_0.0 is Object
            &&& found->Some_0.0->Object_0.len() == 4
            &&& found->Some_0.0->Object_0[0] == (EntryView {
                key: "topic"@,
                value: JsonView::Text(topic),
            })
            &&& found->Some_0.0->Object_0[1] == (EntryView {
                key: "message_type"@,
                value: JsonView::Text(message_type),
            })
            &&& found->Some_0.0->Object_0[2] == (EntryView {
                key: "sequence"@,
                value: JsonView::Float(decimal(sequence)),
            })
            &&& found->Some_0.0->Object_0[3].key == "message"@
            &&& says_message(found->Some_0.0->Object_0[3].value, message)
        }),
{
    let tree = payload_tree(topic, message_type, sequence, message);
    let written = entries_as_written(tree->Object_0);
    lemma_payload_read(topic, message_type, sequence, message);
    lemma_says_message(message);
    assert(as_written(tree) == JsonView::Object(written));
    assert(written.len() == 4);
    assert(written[3].value == as_written(message_tree(message)));
}

/// The decimal text of a number denotes that number.
pub proof fn lemma_decimal_denotes(value: nat)
    ensures
        digits_value(decimal(value)) == value,
        decimal(value).len() > 0,
        forall|i: int|
            0 <= i < decimal(value).len() ==> '0' <= #[trigger] decimal(value)[i] <= '9',
        value > 0 ==> decimal(value)[0] != '0',
    decreases value,
{
    lemma_digits(value);
    if value < 10 {
        let text = decimal(value);
        assert(text.drop_last() =~= Seq::empty());
        assert(digits_value(text.drop_last()) == 0);
        assert(text.last() == (48 + value % 10) as char);
    } else {
        lemma_decimal_denotes(value / 10);
        let text = decimal(value);
        assert(text.drop_last() =~= decimal(value / 10));
        assert(text.last() == (48 + value % 10) as char);
        assert(text[0] == decimal(value / 10)[0]);
        assert(digits_value(text) == digits_value(decimal(value / 10)) * 10 + (value % 10) as int);
    }
}

/// The text of an integer is a minus sign where it is negative, and the digits
/// that denote its size.
pub proof fn lemma_integer_denotes(value: int)
    ensures
        value >= 0 ==> digits_value(integer_text(value)) == value && integer_text(value)[0] != '-',
        value < 0 ==> integer_text(value)[0] == '-' && digits_value(
            integer_text(value).drop_first(),
        ) == -value,
{
    if value < 0 {
        lemma_decimal_denotes((-value) as nat);
        assert(integer_text(value).drop_first() =~= decimal((-value) as nat));
    } else {
        lemma_decimal_denotes(value as nat);
    }
}

/// A number that is written in several steps makes up its text.
pub proof fn lemma_steps_make_up_numbers(value: int, text: Seq<char>)
    ensures
        super::json::joined(integer_pieces(value)) == integer_text(value),
        super::json::joined(real_pieces(RealView::Finite(text))) == text,
{
    super::number::lemma_integer_pieces(value);
    super::number::lemma_finite_pieces(text);
}

} // verus!
