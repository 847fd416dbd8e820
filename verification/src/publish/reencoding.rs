//! That encoding a message, decoding what came out and encoding again gives the
//! same text.
use vstd::prelude::*;

use super::json::decoded_message;
use super::round_trip::{
    blank_message, finite_elements, finite_message, finite_simple, finite_value, has_name,
    lemma_round_trip, lemma_tree_represents, represents_list, represents_message,
    represents_simple, represents_value, settled_list, settled_message,
    settled_simple, settled_value, valid_list, valid_message, valid_simple, valid_value,
};
use crate::json::reading::{
    as_written, entries_as_written, has_key, is_parsed, is_whole,
    items_as_written, lemma_integer_text_injective, read,
};
use crate::json::{EntryView, JsonView};
use crate::message::{
    FieldView, ListView, MessageView, Precision, RealView, SimpleView, ValueView,
};
use crate::subscriptions::json::{
    element_trees, encodable_list, encodable_message, encodable_simple, encodable_value,
    field_trees, message_tree, payload_text, simple_tree, value_tree,
};
use crate::subscriptions::reading::{decimal_message, lemma_payload_read, payload_tree};
use crate::text::{double_text, integer_text};

verus! {

/// A simple value with its number rounded, where the text is that of a number of
/// 32 bits.
pub open spec fn rounded_simple(simple: SimpleView) -> SimpleView
    decreases simple,
{
    match simple {
        SimpleView::Nearest(text) => SimpleView::Real(Precision::Single, RealView::Finite(text)),
        SimpleView::Message(message) => SimpleView::Message(rounded_message(message)),
        other => other,
    }
}

/// Elements with their numbers rounded.
pub open spec fn rounded_elements(elements: Seq<SimpleView>) -> Seq<SimpleView>
    decreases elements,
{
    Seq::new(
        elements.len(),
        |i: int|
            if 0 <= i < elements.len() {
                rounded_simple(elements[i])
            } else {
                SimpleView::LongDouble
            },
    )
}

/// A list with its numbers rounded.
pub open spec fn rounded_list(list: ListView) -> ListView
    decreases list,
{
    ListView { prototype: list.prototype, elements: rounded_elements(list.elements) }
}

/// The value of a field with its numbers rounded.
pub open spec fn rounded_value(value: ValueView) -> ValueView
    decreases value,
{
    match value {
        ValueView::Simple(simple) => ValueView::Simple(rounded_simple(simple)),
        ValueView::Array(list) => ValueView::Array(rounded_list(list)),
        ValueView::Sequence(list) => ValueView::Sequence(rounded_list(list)),
        ValueView::BoundedSequence { bound, list } => ValueView::BoundedSequence {
            bound,
            list: rounded_list(list),
        },
    }
}

/// A message with its numbers rounded, where their texts are those of numbers of
/// 32 bits, as the encoder writes them.
pub open spec fn rounded_message(message: MessageView) -> MessageView
    decreases message,
{
    MessageView {
        fields: Seq::new(
            message.fields.len(),
            |i: int|
                if 0 <= i < message.fields.len() {
                    FieldView {
                        name: message.fields[i].name,
                        value: rounded_value(message.fields[i].value),
                    }
                } else {
                    FieldView {
                        name: Seq::empty(),
                        value: ValueView::Simple(SimpleView::LongDouble),
                    }
                },
        ),
    }
}

/// What JSON cannot carry makes no difference to the encoder.
pub proof fn lemma_rounded_message(message: MessageView, depth: nat)
    requires
        encodable_message(message, depth),
    ensures
        message_tree(rounded_message(settled_message(message))) == message_tree(message),
        encodable_message(rounded_message(settled_message(message)), depth),
    decreases message,
{
    let settled = settled_message(message);
    let rounded = rounded_message(settled);
    assert forall|i: int| 0 <= i < message.fields.len() implies value_tree(
        (#[trigger] rounded.fields[i]).value,
    ) == value_tree(message.fields[i].value) && rounded.fields[i].name == message.fields[i].name
        && encodable_value(rounded.fields[i].value, depth + 1) by {
        assert(encodable_value(message.fields[i].value, depth + 1));
        assert(decreases_to!(message => message.fields));
        assert(decreases_to!(message.fields => message.fields[i]));
        assert(decreases_to!(message.fields[i] => message.fields[i].value));
        lemma_rounded_value(message.fields[i].value, depth + 1);
        assert(settled.fields[i].value == settled_value(message.fields[i].value));
        assert(rounded.fields[i].value == rounded_value(settled.fields[i].value));
    }
    assert(field_trees(rounded.fields) =~= field_trees(message.fields)) by {
        assert forall|i: int| 0 <= i < message.fields.len() implies field_trees(rounded.fields)[i]
            == #[trigger] field_trees(message.fields)[i] by {
            let field = rounded.fields[i];
            assert(field_trees(rounded.fields)[i].key == field.name);
            assert(field_trees(rounded.fields)[i].value == value_tree(field.value));
        }
    }
}

proof fn lemma_rounded_value(value: ValueView, depth: nat)
    requires
        encodable_value(value, depth),
    ensures
        value_tree(rounded_value(settled_value(value))) == value_tree(value),
        encodable_value(rounded_value(settled_value(value)), depth),
    decreases value,
{
    match value {
        ValueView::Simple(simple) => lemma_rounded_simple(simple, depth),
        ValueView::Array(list) => lemma_rounded_list(list, depth),
        ValueView::Sequence(list) => lemma_rounded_list(list, depth),
        ValueView::BoundedSequence { list, .. } => lemma_rounded_list(list, depth),
    }
}

proof fn lemma_rounded_list(list: ListView, depth: nat)
    requires
        encodable_list(list, depth),
    ensures
        element_trees(rounded_list(settled_list(list)).elements) == element_trees(list.elements),
        encodable_list(rounded_list(settled_list(list)), depth),
    decreases list,
{
    let settled = settled_list(list);
    let rounded = rounded_list(settled);
    assert forall|i: int| 0 <= i < list.elements.len() implies simple_tree(
        #[trigger] rounded.elements[i],
    ) == simple_tree(list.elements[i]) && encodable_simple(rounded.elements[i], depth) by {
        assert(encodable_simple(list.elements[i], depth));
        assert(decreases_to!(list => list.elements));
        assert(decreases_to!(list.elements => list.elements[i]));
        lemma_rounded_simple(list.elements[i], depth);
        assert(settled.elements[i] == settled_simple(list.elements[i]));
        assert(rounded.elements[i] == rounded_simple(settled.elements[i]));
    }
    assert(element_trees(rounded.elements) =~= element_trees(list.elements)) by {
        assert forall|i: int| 0 <= i < list.elements.len() implies element_trees(
            rounded.elements,
        )[i] == #[trigger] element_trees(list.elements)[i] by {
            assert(element_trees(rounded.elements)[i] == simple_tree(rounded.elements[i]));
        }
    }
}

proof fn lemma_rounded_simple(simple: SimpleView, depth: nat)
    requires
        encodable_simple(simple, depth),
    ensures
        simple_tree(rounded_simple(settled_simple(simple))) == simple_tree(simple),
        encodable_simple(rounded_simple(settled_simple(simple)), depth),
    decreases simple,
{
    if let SimpleView::Message(message) = simple {
        lemma_rounded_message(message, depth);
    }
}

/// Encoding a message, decoding what came out into any message of its type and
/// encoding again gives the same payload.
pub proof fn lemma_reencoded(
    target: MessageView,
    message: MessageView,
    topic: Seq<char>,
    message_type: Seq<char>,
    sequence: nat,
)
    requires
        blank_message(target) == blank_message(message),
        valid_message(message),
        finite_message(message),
        encodable_message(message, 0),
    ensures
        decoded_message(target, message_tree(message), None) == Ok::<MessageView, Seq<char>>(
            settled_message(message),
        ),
        encodable_message(rounded_message(settled_message(message)), 0),
        payload_text(topic, message_type, sequence, rounded_message(settled_message(message)))
            == payload_text(topic, message_type, sequence, message),
{
    lemma_tree_represents(message, 0);
    lemma_round_trip(target, message, message_tree(message), None);
    lemma_rounded_message(message, 0);
}

/// Whether the text of a simple value that is a whole number is also that of the
/// integer read as a double.
pub open spec fn exact_simple(simple: SimpleView) -> bool
    decreases simple,
{
    match simple {
        SimpleView::Real(_, RealView::Finite(text)) => forall|number: int|
            text == #[trigger] integer_text(number) && i64::MIN <= number <= u64::MAX
                ==> double_text(number) == text,
        SimpleView::Message(message) => exact_message(message),
        _ => true,
    }
}

/// Whether the whole numbers among elements have the texts of integers read as
/// doubles.
pub open spec fn exact_elements(elements: Seq<SimpleView>) -> bool
    decreases elements,
{
    forall|i: int| 0 <= i < elements.len() ==> exact_simple(#[trigger] elements[i])
}

/// Whether the whole numbers in a value have the texts of integers read as
/// doubles.
pub open spec fn exact_value(value: ValueView) -> bool
    decreases value,
{
    match value {
        ValueView::Simple(simple) => exact_simple(simple),
        ValueView::Array(list) => exact_elements(list.elements),
        ValueView::Sequence(list) => exact_elements(list.elements),
        ValueView::BoundedSequence { list, .. } => exact_elements(list.elements),
    }
}

/// Whether the whole numbers in a message have the texts of integers read as
/// doubles, so that they come back from a text that does not tell the two apart.
pub open spec fn exact_message(message: MessageView) -> bool
    decreases message,
{
    forall|i: int|
        0 <= i < message.fields.len() ==> exact_value((#[trigger] message.fields[i]).value)
}

proof fn lemma_parsed_simple(simple: SimpleView, value: JsonView, depth: nat)
    requires
        valid_simple(simple),
        finite_simple(simple),
        exact_simple(simple),
        encodable_simple(simple, depth),
        is_parsed(as_written(simple_tree(simple)), value),
    ensures
        represents_simple(value, simple),
    decreases simple,
{
    match simple {
        SimpleView::Real(_, RealView::Finite(text)) => {
            if is_whole(text) {
                let found = choose|number: int|
                    i64::MIN <= number <= u64::MAX && text == #[trigger] integer_text(number);
                lemma_integer_text_injective(found, value->Integer_0);
                assert(double_text(found) == text);
            }
        },
        SimpleView::Integer(_, number) => {
            assert(is_whole(integer_text(number)));
            lemma_integer_text_injective(number, value->Integer_0);
        },
        SimpleView::Message(message) => lemma_parsed_message(message, value, depth),
        _ => {},
    }
}

proof fn lemma_parsed_list(list: ListView, value: JsonView, depth: nat)
    requires
        valid_list(list),
        finite_elements(list.elements),
        exact_elements(list.elements),
        encodable_list(list, depth),
        is_parsed(as_written(JsonView::Array(element_trees(list.elements))), value),
    ensures
        represents_list(value, list),
    decreases list,
{
    let trees = element_trees(list.elements);
    let written = items_as_written(trees);
    assert(as_written(JsonView::Array(trees)) == JsonView::Array(written));
    assert forall|i: int| 0 <= i < list.elements.len() implies represents_simple(
        value->Array_0[i],
        #[trigger] list.elements[i],
    ) by {
        assert(written[i] == as_written(simple_tree(list.elements[i])));
        assert(is_parsed(written[i], value->Array_0[i]));
        assert(decreases_to!(list => list.elements));
        assert(decreases_to!(list.elements => list.elements[i]));
        lemma_parsed_simple(list.elements[i], value->Array_0[i], depth);
    }
}

proof fn lemma_parsed_value(held: ValueView, value: JsonView, depth: nat)
    requires
        valid_value(held),
        finite_value(held),
        exact_value(held),
        encodable_value(held, depth),
        is_parsed(as_written(value_tree(held)), value),
    ensures
        represents_value(value, held),
    decreases held,
{
    match held {
        ValueView::Simple(simple) => lemma_parsed_simple(simple, value, depth),
        ValueView::Array(list) => lemma_parsed_list(list, value, depth),
        ValueView::Sequence(list) => lemma_parsed_list(list, value, depth),
        ValueView::BoundedSequence { list, .. } => lemma_parsed_list(list, value, depth),
    }
}

/// A JSON object that was parsed from the text of a message says what the message
/// is.
pub proof fn lemma_parsed_message(message: MessageView, value: JsonView, depth: nat)
    requires
        valid_message(message),
        finite_message(message),
        exact_message(message),
        encodable_message(message, depth),
        is_parsed(as_written(message_tree(message)), value),
    ensures
        represents_message(value, message),
    decreases message,
{
    let trees = field_trees(message.fields);
    let written = entries_as_written(trees);
    let entries = value->Object_0;
    assert(as_written(message_tree(message)) == JsonView::Object(written));
    assert forall|i: int| 0 <= i < message.fields.len() implies (#[trigger] written[i]).key
        == message.fields[i].name && written[i].value == as_written(
        value_tree(message.fields[i].value),
    ) by {
        assert(trees[i].value == value_tree(message.fields[i].value));
    }
    assert forall|i: int| 0 <= i < message.fields.len() implies has_key(
        entries,
        (#[trigger] message.fields[i]).name,
    ) by {
        assert(has_key(entries, written[i].key));
    }
    assert forall|k: int| 0 <= k < entries.len() implies has_name(
        message,
        (#[trigger] entries[k]).key,
    ) by {
        assert(has_key(written, entries[k].key));
        let i = choose|i: int|
            0 <= i < written.len() && (#[trigger] written[i]).key == entries[k].key;
        assert(message.fields[i].name == entries[k].key);
    }
    assert forall|i: int, k: int|
        0 <= i < message.fields.len() && 0 <= k < entries.len() && (#[trigger] entries[k]).key == (
        #[trigger] message.fields[i]).name implies represents_value(
        entries[k].value,
        message.fields[i].value,
    ) by {
        assert(written[i].key == message.fields[i].name);
        assert(is_parsed(written[i].value, entries[k].value));
        assert(decreases_to!(message => message.fields));
        assert(decreases_to!(message.fields => message.fields[i]));
        assert(decreases_to!(message.fields[i] => message.fields[i].value));
        lemma_parsed_value(message.fields[i].value, entries[k].value, depth + 1);
    }
}

/// The entry of a message in what was parsed from a payload.
pub open spec fn is_message_entry(value: JsonView, k: int) -> bool {
    &&& value is Object
    &&& 0 <= k < value->Object_0.len()
    &&& value->Object_0[k].key == "message"@
}

/// Whatever a payload is parsed to has an entry for the message; decoding it into
/// any message of the type gives the message back, up to what JSON cannot carry,
/// and encoding that gives the same payload.
pub proof fn lemma_read_back(
    target: MessageView,
    message: MessageView,
    topic: Seq<char>,
    message_type: Seq<char>,
    sequence: nat,
    value: JsonView,
)
    requires
        blank_message(target) == blank_message(message),
        valid_message(message),
        finite_message(message),
        decimal_message(message),
        exact_message(message),
        encodable_message(message, 0),
        read(payload_text(topic, message_type, sequence, message)) matches Some((written, rest))
            && rest.len() == 0 && is_parsed(written, value),
    ensures
        exists|k: int| is_message_entry(value, k),
        forall|k: int| #[trigger]
            is_message_entry(value, k) ==> decoded_message(target, value->Object_0[k].value, None)
                == Ok::<MessageView, Seq<char>>(settled_message(message)),
        encodable_message(rounded_message(settled_message(message)), 0),
        payload_text(topic, message_type, sequence, rounded_message(settled_message(message)))
            == payload_text(topic, message_type, sequence, message),
{
    let tree = payload_tree(topic, message_type, sequence, message);
    let written = entries_as_written(tree->Object_0);
    lemma_payload_read(topic, message_type, sequence, message);
    lemma_rounded_message(message, 0);
    assert(as_written(tree) == JsonView::Object(written));
    assert(written[3] == (EntryView {
        key: "message"@,
        value: as_written(message_tree(message)),
    }));
    assert(has_key(value->Object_0, written[3].key));
    let found = choose|k: int|
        0 <= k < value->Object_0.len() && (#[trigger] value->Object_0[k]).key == "message"@;
    assert(is_message_entry(value, found));
    assert forall|k: int| #[trigger] is_message_entry(value, k) implies decoded_message(
        target,
        value->Object_0[k].value,
        None,
    ) == Ok::<MessageView, Seq<char>>(settled_message(message)) by {
        let part = value->Object_0[k];
        assert(part.key == written[3].key);
        assert(is_parsed(written[3].value, part.value));
        lemma_parsed_message(message, part.value, 0);
        lemma_round_trip(target, message, part.value, None);
    }
}

} // verus!
