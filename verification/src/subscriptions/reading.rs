//! What a reader of a notification payload learns from it.
use vstd::prelude::*;

use super::json::{element_trees, field_trees, message_tree, payload_text, simple_tree, value_tree};
use crate::json::reading::{
    as_written, entries_as_written, is_readable, lemma_integer_text_injective, lemma_read,
    lemma_text_determines, read,
};
use crate::json::{entries_text, json_text, EntryView, JsonView};
use crate::message::{is_decimal, MessageView, RealView, SimpleView, ValueView};
use crate::text::{integer_text, json_escape, json_escaped, json_quoted};

verus! {

/// Whether the text of a simple value that is a finite number is a decimal
/// number.
pub open spec fn decimal_simple(simple: SimpleView) -> bool
    decreases simple,
{
    match simple {
        SimpleView::Real(_, RealView::Finite(text)) => is_decimal(text),
        SimpleView::Message(message) => decimal_message(message),
        _ => true,
    }
}

/// Whether the texts of the finite numbers among elements are decimal numbers.
pub open spec fn decimal_elements(elements: Seq<SimpleView>) -> bool
    decreases elements,
{
    forall|i: int| 0 <= i < elements.len() ==> decimal_simple(#[trigger] elements[i])
}

/// Whether the texts of the finite numbers in a value are decimal numbers.
pub open spec fn decimal_value(value: ValueView) -> bool
    decreases value,
{
    match value {
        ValueView::Simple(simple) => decimal_simple(simple),
        ValueView::Array(list) => decimal_elements(list.elements),
        ValueView::Sequence(list) => decimal_elements(list.elements),
        ValueView::BoundedSequence { list, .. } => decimal_elements(list.elements),
    }
}

/// Whether the texts of the finite numbers in a message are decimal numbers. The
/// shortest text of a number is one.
pub open spec fn decimal_message(message: MessageView) -> bool
    decreases message,
{
    forall|i: int|
        0 <= i < message.fields.len() ==> decimal_value((#[trigger] message.fields[i]).value)
}

/// The JSON object that a payload is the text of.
pub open spec fn payload_tree(
    topic: Seq<char>,
    message_type: Seq<char>,
    sequence: nat,
    message: MessageView,
) -> JsonView {
    JsonView::Object(
        seq![
            EntryView { key: "topic"@, value: JsonView::Text(topic) },
            EntryView { key: "message_type"@, value: JsonView::Text(message_type) },
            EntryView { key: "sequence"@, value: JsonView::Integer(sequence as int) },
            EntryView { key: "message"@, value: message_tree(message) },
        ],
    )
}

proof fn lemma_readable_elements(elements: Seq<SimpleView>)
    requires
        decimal_elements(elements),
    ensures
        is_readable(JsonView::Array(element_trees(elements))),
    decreases elements,
{
    let trees = element_trees(elements);
    assert forall|i: int| 0 <= i < trees.len() implies is_readable(#[trigger] trees[i]) by {
        assert(decimal_simple(elements[i]));
        assert(decreases_to!(elements => elements[i]));
        lemma_readable_simple(elements[i]);
        assert(trees[i] == simple_tree(elements[i]));
    }
}

proof fn lemma_readable_simple(simple: SimpleView)
    requires
        decimal_simple(simple),
    ensures
        is_readable(simple_tree(simple)),
    decreases simple,
{
    if let SimpleView::Message(message) = simple {
        lemma_readable_message(message);
    }
}

proof fn lemma_readable_value(value: ValueView)
    requires
        decimal_value(value),
    ensures
        is_readable(value_tree(value)),
    decreases value,
{
    match value {
        ValueView::Simple(simple) => lemma_readable_simple(simple),
        ValueView::Array(list) => lemma_readable_elements(list.elements),
        ValueView::Sequence(list) => lemma_readable_elements(list.elements),
        ValueView::BoundedSequence { list, .. } => lemma_readable_elements(list.elements),
    }
}

/// The JSON object of a message can be read back from its text.
pub proof fn lemma_readable_message(message: MessageView)
    requires
        decimal_message(message),
    ensures
        is_readable(message_tree(message)),
    decreases message,
{
    let entries = field_trees(message.fields);
    assert forall|i: int| 0 <= i < entries.len() implies is_readable(
        (#[trigger] entries[i]).value,
    ) by {
        let field = message.fields[i];
        assert(decimal_value(field.value));
        assert(decreases_to!(message => message.fields));
        assert(decreases_to!(message.fields => message.fields[i]));
        assert(decreases_to!(message.fields[i] => message.fields[i].value));
        lemma_readable_value(field.value);
        assert(entries[i].value == value_tree(field.value));
    }
}

/// Whether a character stands for itself in a JSON string.
spec fn is_plain(c: char) -> bool {
    c != '"' && c != '\\' && c as int >= 32
}

proof fn lemma_plain(text: Seq<char>)
    requires
        forall|i: int| 0 <= i < text.len() ==> is_plain(#[trigger] text[i]),
    ensures
        json_escaped(text) == text,
    decreases text.len(),
{
    if text.len() > 0 {
        let init = text.drop_last();
        assert forall|i: int| 0 <= i < init.len() implies is_plain(#[trigger] init[i]) by {
            assert(is_plain(text[i]));
        }
        lemma_plain(init);
        assert(is_plain(text[text.len() - 1]));
        assert(json_escape(text.last()) == seq![text.last()]);
        assert(init + seq![text.last()] =~= text);
    } else {
        assert(json_escaped(text) =~= text);
    }
}

proof fn lemma_keys()
    ensures
        "{"@ + json_quoted("topic"@) + ":"@ == "{\"topic\":"@,
        ","@ + json_quoted("message_type"@) + ":"@ == ",\"message_type\":"@,
        ","@ + json_quoted("sequence"@) + ":"@ == ",\"sequence\":"@,
        ","@ + json_quoted("message"@) + ":"@ == ",\"message\":"@,
{
    reveal_strlit("{");
    reveal_strlit(",");
    reveal_strlit(":");
    reveal_strlit("topic");
    reveal_strlit("message_type");
    reveal_strlit("sequence");
    reveal_strlit("message");
    reveal_strlit("{\"topic\":");
    reveal_strlit(",\"message_type\":");
    reveal_strlit(",\"sequence\":");
    reveal_strlit(",\"message\":");
    lemma_plain("topic"@);
    lemma_plain("message_type"@);
    lemma_plain("sequence"@);
    lemma_plain("message"@);
    assert("{"@ + json_quoted("topic"@) + ":"@ =~= "{\"topic\":"@);
    assert(","@ + json_quoted("message_type"@) + ":"@ =~= ",\"message_type\":"@);
    assert(","@ + json_quoted("sequence"@) + ":"@ =~= ",\"sequence\":"@);
    assert(","@ + json_quoted("message"@) + ":"@ =~= ",\"message\":"@);
}

proof fn lemma_one_more(entries: Seq<EntryView>, entry: EntryView)
    ensures
        entries_text(entries.push(entry)) == entries_text(entries) + (if entries.len() > 0 {
            ","@
        } else {
            Seq::empty()
        }) + json_quoted(entry.key) + ":"@ + json_text(entry.value),
{
    assert(entries.push(entry).drop_last() =~= entries);
}

/// A payload is the compact text of an object with the topic, the message type,
/// the number and the message.
pub proof fn lemma_payload_tree(
    topic: Seq<char>,
    message_type: Seq<char>,
    sequence: nat,
    message: MessageView,
)
    ensures
        payload_text(topic, message_type, sequence, message) == json_text(
            payload_tree(topic, message_type, sequence, message),
        ),
{
    let none = Seq::<EntryView>::empty();
    let first = EntryView { key: "topic"@, value: JsonView::Text(topic) };
    let second = EntryView { key: "message_type"@, value: JsonView::Text(message_type) };
    let third = EntryView { key: "sequence"@, value: JsonView::Integer(sequence as int) };
    let fourth = EntryView { key: "message"@, value: message_tree(message) };
    let one = none.push(first);
    let two = one.push(second);
    let three = two.push(third);
    let four = three.push(fourth);
    lemma_keys();
    lemma_one_more(none, first);
    lemma_one_more(one, second);
    lemma_one_more(two, third);
    lemma_one_more(three, fourth);
    let tree = payload_tree(topic, message_type, sequence, message);
    assert(tree->Object_0 =~= four);
    assert(entries_text(none) =~= Seq::empty());
    assert(json_text(first.value) == json_quoted(topic));
    assert(json_text(second.value) == json_quoted(message_type));
    assert(json_text(third.value) == integer_text(sequence as int));
    let a = "{"@ + json_quoted("topic"@) + ":"@ + json_quoted(topic);
    assert("{"@ + entries_text(one) =~= a);
    let b = a + (","@ + json_quoted("message_type"@) + ":"@) + json_quoted(message_type);
    assert("{"@ + entries_text(two) =~= b);
    let c = b + (","@ + json_quoted("sequence"@) + ":"@) + integer_text(sequence as int);
    assert("{"@ + entries_text(three) =~= c);
    let d = c + (","@ + json_quoted("message"@) + ":"@) + json_text(message_tree(message));
    assert("{"@ + entries_text(four) =~= d);
    assert(json_text(tree) == d + "}"@);
}

/// A payload can be read back: it gives the topic, the message type, the number
/// and the JSON object of the message, with its numbers as they are written.
pub proof fn lemma_payload_read(
    topic: Seq<char>,
    message_type: Seq<char>,
    sequence: nat,
    message: MessageView,
)
    requires
        decimal_message(message),
    ensures
        read(payload_text(topic, message_type, sequence, message)) == Some(
            (as_written(payload_tree(topic, message_type, sequence, message)), Seq::<char>::empty()),
        ),
{
    let rest = Seq::<char>::empty();
    let tree = payload_tree(topic, message_type, sequence, message);
    lemma_payload_tree(topic, message_type, sequence, message);
    lemma_readable_payload(topic, message_type, sequence, message);
    lemma_read(tree, rest);
    assert(json_text(tree) + rest =~= json_text(tree));
}

proof fn lemma_readable_payload(
    topic: Seq<char>,
    message_type: Seq<char>,
    sequence: nat,
    message: MessageView,
)
    requires
        decimal_message(message),
    ensures
        is_readable(payload_tree(topic, message_type, sequence, message)),
{
    lemma_readable_message(message);
    let entries = payload_tree(topic, message_type, sequence, message)->Object_0;
    assert forall|i: int| 0 <= i < entries.len() implies is_readable(
        (#[trigger] entries[i]).value,
    ) by {
        assert(i == 0 || i == 1 || i == 2 || i == 3);
    }
}

/// A payload determines the topic, the message type, the number and the JSON
/// object of the message, with its numbers as they are written.
pub proof fn lemma_payload_determines(
    topic: Seq<char>,
    message_type: Seq<char>,
    sequence: nat,
    message: MessageView,
    other_topic: Seq<char>,
    other_type: Seq<char>,
    other_sequence: nat,
    other: MessageView,
)
    requires
        decimal_message(message),
        decimal_message(other),
        payload_text(topic, message_type, sequence, message) == payload_text(
            other_topic,
            other_type,
            other_sequence,
            other,
        ),
    ensures
        topic == other_topic,
        message_type == other_type,
        sequence == other_sequence,
        as_written(message_tree(message)) == as_written(message_tree(other)),
{
    let a = payload_tree(topic, message_type, sequence, message);
    let b = payload_tree(other_topic, other_type, other_sequence, other);
    lemma_payload_tree(topic, message_type, sequence, message);
    lemma_payload_tree(other_topic, other_type, other_sequence, other);
    lemma_readable_payload(topic, message_type, sequence, message);
    lemma_readable_payload(other_topic, other_type, other_sequence, other);
    lemma_text_determines(a, b);
    let x = entries_as_written(a->Object_0);
    let y = entries_as_written(b->Object_0);
    assert(x == y);
    assert(x[0].value == JsonView::Text(topic));
    assert(y[0].value == JsonView::Text(other_topic));
    assert(x[1].value == JsonView::Text(message_type));
    assert(y[1].value == JsonView::Text(other_type));
    assert(x[2].value == JsonView::Float(integer_text(sequence as int)));
    assert(y[2].value == JsonView::Float(integer_text(other_sequence as int)));
    assert(x[3].value == as_written(message_tree(message)));
    assert(y[3].value == as_written(message_tree(other)));
    lemma_integer_text_injective(sequence as int, other_sequence as int);
}

} // verus!
