//! What decoding preserves, and how it undoes the subscription encoder.
use vstd::prelude::*;

use super::json::{
    decoded_elements, decoded_entries, decoded_message, decoded_simple, decoded_value, held_number,
    left_entries, left_message, left_value, number_of, repeated, unknown_key, unknown_text,
    with_value, within,
};
use crate::json::reading::{distinct_keys, has_key};
use crate::json::{EntryView, JsonView};
use crate::message::{
    find_field, first_field, fits, lemma_find_field, FieldView, ListView, MessageView, Precision,
    RealView, SimpleView, ValueView,
};
use crate::subscriptions::json::{
    element_trees, encodable_list, encodable_message, encodable_simple, encodable_value,
    field_trees, message_tree, simple_tree, value_tree,
};
use crate::text::{debug_text, double_text};

verus! {

/// A simple value with its content wiped: what remains is its type.
pub open spec fn blank_simple(simple: SimpleView) -> SimpleView
    decreases simple,
{
    match simple {
        SimpleView::Real(precision, _) => SimpleView::Real(precision, RealView::Nan),
        SimpleView::Nearest(_) => SimpleView::Real(Precision::Single, RealView::Nan),
        SimpleView::LongDouble => SimpleView::LongDouble,
        SimpleView::Integer(width, _) => SimpleView::Integer(width, 0),
        SimpleView::Boolean(_) => SimpleView::Boolean(false),
        SimpleView::Text { bound, .. } => SimpleView::Text { bound, text: Seq::empty() },
        SimpleView::Message(message) => SimpleView::Message(blank_message(message)),
    }
}

/// Elements with their contents wiped.
pub open spec fn blank_elements(elements: Seq<SimpleView>) -> Seq<SimpleView>
    decreases elements,
{
    Seq::new(
        elements.len(),
        |i: int|
            if 0 <= i < elements.len() {
                blank_simple(elements[i])
            } else {
                SimpleView::LongDouble
            },
    )
}

/// A value with its content wiped. A list that may change its length has no
/// elements left.
pub open spec fn blank_value(value: ValueView) -> ValueView
    decreases value,
{
    match value {
        ValueView::Simple(simple) => ValueView::Simple(blank_simple(simple)),
        ValueView::Array(list) => ValueView::Array(
            ListView { prototype: list.prototype, elements: blank_elements(list.elements) },
        ),
        ValueView::Sequence(list) => ValueView::Sequence(
            ListView { prototype: list.prototype, elements: Seq::empty() },
        ),
        ValueView::BoundedSequence { bound, list } => ValueView::BoundedSequence {
            bound,
            list: ListView { prototype: list.prototype, elements: Seq::empty() },
        },
    }
}

/// A message with the contents of its fields wiped. Two messages are of one
/// type where nothing else tells them apart.
pub open spec fn blank_message(message: MessageView) -> MessageView
    decreases message,
{
    MessageView {
        fields: Seq::new(
            message.fields.len(),
            |i: int|
                if 0 <= i < message.fields.len() {
                    FieldView {
                        name: message.fields[i].name,
                        value: blank_value(message.fields[i].value),
                    }
                } else {
                    FieldView {
                        name: Seq::empty(),
                        value: ValueView::Simple(SimpleView::LongDouble),
                    }
                },
        ),
    }
}

/// Whether a finite number is one of its precision. The double of a JSON integer
/// is finite in both.
pub open spec fn valid_real(precision: Precision, number: RealView) -> bool {
    number matches RealView::Finite(text) ==> fits(precision, text) || exists|n: int|
        text == #[trigger] double_text(n)
}

/// Whether a simple value is one of its type.
pub open spec fn valid_simple(simple: SimpleView) -> bool
    decreases simple,
{
    match simple {
        SimpleView::Real(precision, number) => valid_real(precision, number),
        SimpleView::Nearest(text) => valid_real(Precision::Single, RealView::Finite(text)),
        SimpleView::Integer(width, value) => width.holds(value),
        SimpleView::Text { bound, text } => within(bound, text.len()),
        SimpleView::Message(message) => valid_message(message),
        _ => true,
    }
}

/// Whether a list holds values of the type of its prototype.
pub open spec fn valid_list(list: ListView) -> bool
    decreases list,
{
    &&& valid_simple(list.prototype)
    &&& forall|i: int|
        0 <= i < list.elements.len() ==> valid_simple(#[trigger] list.elements[i]) && blank_simple(
            list.elements[i],
        ) == blank_simple(list.prototype)
}

/// Whether the value of a field is one of its type.
pub open spec fn valid_value(value: ValueView) -> bool
    decreases value,
{
    match value {
        ValueView::Simple(simple) => valid_simple(simple),
        ValueView::Array(list) => valid_list(list),
        ValueView::Sequence(list) => valid_list(list),
        ValueView::BoundedSequence { bound, list } => valid_list(list) && list.elements.len()
            <= bound,
    }
}

/// Whether no two fields have one name.
pub open spec fn distinct_names(message: MessageView) -> bool {
    forall|i: int, j: int|
        0 <= i < j < message.fields.len() ==> (#[trigger] message.fields[i]).name != (
        #[trigger] message.fields[j]).name
}

/// Whether a message is one of its type.
pub open spec fn valid_message(message: MessageView) -> bool
    decreases message,
{
    &&& distinct_names(message)
    &&& forall|i: int|
        0 <= i < message.fields.len() ==> valid_value((#[trigger] message.fields[i]).value)
}

/// Decoding keeps the type of a message and the validity of its values.
pub proof fn lemma_decoded_message(
    message: MessageView,
    value: JsonView,
    path: Option<Seq<char>>,
)
    ensures
        decoded_message(message, value, path) matches Ok(filled) ==> {
            &&& blank_message(filled) == blank_message(message)
            &&& valid_message(message) ==> valid_message(filled)
        },
    decreases value, 0nat,
{
    if let JsonView::Object(entries) = value {
        lemma_decoded_entries(message, entries, path);
    }
}

proof fn lemma_decoded_entries(
    message: MessageView,
    entries: Seq<EntryView>,
    path: Option<Seq<char>>,
)
    ensures
        decoded_entries(message, entries, path) matches Ok(filled) ==> {
            &&& blank_message(filled) == blank_message(message)
            &&& valid_message(message) ==> valid_message(filled)
        },
    decreases entries, 0nat,
{
    if entries.len() > 0 {
        lemma_decoded_entries(message, entries.drop_last(), path);
        if let Ok(before) = decoded_entries(message, entries.drop_last(), path) {
            if let Some(i) = find_field(before, entries.last().key) {
                let slot = before.fields[i].value;
                let name = super::json::path_of(path, entries.last().key);
                lemma_decoded_value(slot, entries.last().value, name);
                if let Ok(value) = decoded_value(slot, entries.last().value, name) {
                    let after = with_value(before, i, value);
                    assert(blank_message(after).fields =~= blank_message(before).fields);
                }
            }
        }
    }
}

proof fn lemma_decoded_value(slot: ValueView, value: JsonView, name: Seq<char>)
    ensures
        decoded_value(slot, value, name) matches Ok(filled) ==> {
            &&& blank_value(filled) == blank_value(slot)
            &&& valid_value(slot) ==> valid_value(filled)
        },
    decreases value, 2nat,
{
    match slot {
        ValueView::Simple(simple) => lemma_decoded_simple(simple, value, name),
        ValueView::Array(list) => {
            if let JsonView::Array(items) = value {
                if list.elements.len() == items.len() {
                    lemma_decoded_elements(list.elements, items, name);
                    if let Ok(elements) = decoded_elements(list.elements, items, name) {
                        assert(blank_elements(elements) =~= blank_elements(list.elements));
                    }
                }
            }
        },
        ValueView::Sequence(list) => {
            if let JsonView::Array(items) = value {
                lemma_decoded_elements(repeated(list.prototype, items.len()), items, name);
            }
        },
        ValueView::BoundedSequence { bound, list } => {
            if let JsonView::Array(items) = value {
                lemma_decoded_elements(repeated(list.prototype, items.len()), items, name);
            }
        },
    }
}

proof fn lemma_decoded_elements(slots: Seq<SimpleView>, items: Seq<JsonView>, name: Seq<char>)
    requires
        slots.len() == items.len(),
    ensures
        decoded_elements(slots, items, name) matches Ok(filled) ==> {
            &&& filled.len() == slots.len()
            &&& forall|i: int|
                0 <= i < slots.len() ==> blank_simple(#[trigger] filled[i]) == blank_simple(
                    slots[i],
                ) && (valid_simple(slots[i]) ==> valid_simple(filled[i]))
        },
    decreases items, 0nat,
{
    if items.len() > 0 {
        lemma_decoded_elements(slots.drop_last(), items.drop_last(), name);
        lemma_decoded_simple(slots.last(), items.last(), name);
        if let Ok(filled) = decoded_elements(slots, items, name) {
            let before = decoded_elements(slots.drop_last(), items.drop_last(), name)->Ok_0;
            assert forall|i: int| 0 <= i < slots.len() implies blank_simple(#[trigger] filled[i])
                == blank_simple(slots[i]) && (valid_simple(slots[i]) ==> valid_simple(
                filled[i],
            )) by {
                if i < slots.len() - 1 {
                    assert(filled[i] == before[i]);
                    assert(slots.drop_last()[i] == slots[i]);
                }
            }
        }
    }
}

proof fn lemma_decoded_simple(slot: SimpleView, value: JsonView, name: Seq<char>)
    ensures
        decoded_simple(slot, value, name) matches Ok(filled) ==> {
            &&& blank_simple(filled) == blank_simple(slot)
            &&& valid_simple(slot) ==> valid_simple(filled)
        },
    decreases value, 1nat,
{
    if let SimpleView::Message(message) = slot {
        lemma_decoded_message(message, value, Some(name));
    }
}

/// A number as JSON can carry it: one that is not finite is not a number.
pub open spec fn settled_real(number: RealView) -> RealView {
    match number {
        RealView::Finite(text) => RealView::Finite(text),
        _ => RealView::Nan,
    }
}

/// A simple value as JSON can carry it.
pub open spec fn settled_simple(simple: SimpleView) -> SimpleView
    decreases simple,
{
    match simple {
        SimpleView::Real(precision, number) => held_number(precision, settled_real(number)),
        SimpleView::Message(message) => SimpleView::Message(settled_message(message)),
        other => other,
    }
}

/// Elements as JSON can carry them.
pub open spec fn settled_elements(elements: Seq<SimpleView>) -> Seq<SimpleView>
    decreases elements,
{
    Seq::new(
        elements.len(),
        |i: int|
            if 0 <= i < elements.len() {
                settled_simple(elements[i])
            } else {
                SimpleView::LongDouble
            },
    )
}

/// A list as JSON can carry it.
pub open spec fn settled_list(list: ListView) -> ListView
    decreases list,
{
    ListView { prototype: list.prototype, elements: settled_elements(list.elements) }
}

/// The value of a field as JSON can carry it.
pub open spec fn settled_value(value: ValueView) -> ValueView
    decreases value,
{
    match value {
        ValueView::Simple(simple) => ValueView::Simple(settled_simple(simple)),
        ValueView::Array(list) => ValueView::Array(settled_list(list)),
        ValueView::Sequence(list) => ValueView::Sequence(settled_list(list)),
        ValueView::BoundedSequence { bound, list } => ValueView::BoundedSequence {
            bound,
            list: settled_list(list),
        },
    }
}

/// A message as JSON can carry it: infinite numbers are no numbers, and those of
/// 32 bits are to be rounded.
pub open spec fn settled_message(message: MessageView) -> MessageView
    decreases message,
{
    MessageView {
        fields: Seq::new(
            message.fields.len(),
            |i: int|
                if 0 <= i < message.fields.len() {
                    FieldView {
                        name: message.fields[i].name,
                        value: settled_value(message.fields[i].value),
                    }
                } else {
                    FieldView {
                        name: Seq::empty(),
                        value: ValueView::Simple(SimpleView::LongDouble),
                    }
                },
        ),
    }
}

/// Whether a JSON value says what a simple value is. A number may be written as
/// an integer or with a fraction.
pub open spec fn represents_simple(value: JsonView, simple: SimpleView) -> bool
    decreases simple,
{
    match simple {
        SimpleView::Real(precision, number) => number_of(value) == Some(settled_real(number))
            && (value matches JsonView::Float(text) ==> fits(precision, text)),
        SimpleView::Nearest(text) => number_of(value) == Some(RealView::Finite(text)) && (
        value matches JsonView::Float(text) ==> fits(Precision::Single, text)),
        SimpleView::LongDouble => false,
        SimpleView::Integer(_, number) => value == JsonView::Integer(number),
        SimpleView::Boolean(flag) => value == JsonView::Bool(flag),
        SimpleView::Text { text, .. } => value == JsonView::Text(text),
        SimpleView::Message(message) => represents_message(value, message),
    }
}

/// Whether a JSON array says what the elements of a list are.
pub open spec fn represents_list(value: JsonView, list: ListView) -> bool
    decreases list,
{
    &&& value is Array
    &&& !(list.prototype is LongDouble)
    &&& value->Array_0.len() == list.elements.len()
    &&& forall|i: int|
        0 <= i < list.elements.len() ==> represents_simple(
            value->Array_0[i],
            #[trigger] list.elements[i],
        )
}

/// Whether a JSON value says what the value of a field is.
pub open spec fn represents_value(value: JsonView, held: ValueView) -> bool
    decreases held,
{
    match held {
        ValueView::Simple(simple) => represents_simple(value, simple),
        ValueView::Array(list) => represents_list(value, list),
        ValueView::Sequence(list) => represents_list(value, list),
        ValueView::BoundedSequence { list, .. } => represents_list(value, list),
    }
}

/// Whether a JSON object says what a message is: it has one entry for each
/// field, in any order.
pub open spec fn represents_message(value: JsonView, message: MessageView) -> bool
    decreases message,
{
    &&& value is Object
    &&& distinct_keys(value->Object_0)
    &&& forall|k: int|
        0 <= k < value->Object_0.len() ==> has_name(message, (#[trigger] value->Object_0[k]).key)
    &&& forall|i: int, k: int|
        0 <= i < message.fields.len() && 0 <= k < value->Object_0.len() && (
        #[trigger] value->Object_0[k]).key == (#[trigger] message.fields[i]).name
            ==> represents_value(value->Object_0[k].value, message.fields[i].value)
    &&& forall|i: int|
        0 <= i < message.fields.len() ==> has_key(
            value->Object_0,
            (#[trigger] message.fields[i]).name,
        )
}

/// Whether some field has the given name.
pub open spec fn has_name(message: MessageView, name: Seq<char>) -> bool {
    exists|i: int| 0 <= i < message.fields.len() && (#[trigger] message.fields[i]).name == name
}

/// Decoding a JSON object that says what a message is, into any message of the
/// same type, gives that message back, up to what JSON cannot carry.
pub proof fn lemma_round_trip(
    target: MessageView,
    message: MessageView,
    value: JsonView,
    path: Option<Seq<char>>,
)
    requires
        blank_message(target) == blank_message(message),
        valid_message(message),
        represents_message(value, message),
    ensures
        decoded_message(target, value, path) == Ok::<MessageView, Seq<char>>(
            settled_message(message),
        ),
    decreases message, 1nat, 0nat,
{
    let entries = value->Object_0;
    lemma_round_entries(target, message, entries, path);
    lemma_same_names(target, message);
    assert forall|k: int| 0 <= k < entries.len() implies find_field(
        target,
        (#[trigger] entries[k]).key,
    ) is Some by {
        let key = entries[k].key;
        let i = choose|i: int|
            0 <= i < message.fields.len() && (#[trigger] message.fields[i]).name == key;
        assert(first_field(target, key, i)) by {
            assert forall|j: int| 0 <= j < i implies #[trigger] target.fields[j].name != key by {
                assert(message.fields[j].name != message.fields[i].name);
            }
        }
    }
    lemma_all_known(target, entries);
    let mixed = overwritten(target, message, entries);
    assert(mixed.fields =~= settled_message(message).fields);
}

/// The target with every field settled whose name is among the keys.
spec fn overwritten(
    target: MessageView,
    message: MessageView,
    entries: Seq<EntryView>,
) -> MessageView {
    MessageView {
        fields: Seq::new(
            target.fields.len(),
            |i: int|
                if has_key(entries, message.fields[i].name) {
                    settled_message(message).fields[i]
                } else {
                    target.fields[i]
                },
        ),
    }
}

proof fn lemma_same_names(a: MessageView, b: MessageView)
    requires
        blank_message(a) == blank_message(b),
    ensures
        a.fields.len() == b.fields.len(),
        forall|i: int|
            0 <= i < a.fields.len() ==> (#[trigger] a.fields[i]).name == b.fields[i].name
                && blank_value(a.fields[i].value) == blank_value(b.fields[i].value),
{
    assert(blank_message(a).fields.len() == a.fields.len());
    assert(blank_message(b).fields.len() == b.fields.len());
    assert forall|i: int| 0 <= i < a.fields.len() implies (#[trigger] a.fields[i]).name
        == b.fields[i].name && blank_value(a.fields[i].value) == blank_value(
        b.fields[i].value,
    ) by {
        let left = blank_message(a).fields[i];
        let right = blank_message(b).fields[i];
        assert(left.name == a.fields[i].name && left.value == blank_value(a.fields[i].value));
        assert(right.name == b.fields[i].name && right.value == blank_value(b.fields[i].value));
    }
}

proof fn lemma_all_known(message: MessageView, entries: Seq<EntryView>)
    requires
        forall|k: int|
            0 <= k < entries.len() ==> find_field(message, (#[trigger] entries[k]).key) is Some,
    ensures
        unknown_key(message, entries) is None,
    decreases entries.len(),
{
    if entries.len() > 0 {
        lemma_all_known(message, entries.drop_last());
    }
}

proof fn lemma_round_entries(
    target: MessageView,
    message: MessageView,
    entries: Seq<EntryView>,
    path: Option<Seq<char>>,
)
    requires
        blank_message(target) == blank_message(message),
        valid_message(message),
        distinct_keys(entries),
        forall|k: int|
            0 <= k < entries.len() ==> has_name(message, (#[trigger] entries[k]).key),
        forall|i: int, k: int|
            0 <= i < message.fields.len() && 0 <= k < entries.len() && (#[trigger] entries[k]).key
                == (#[trigger] message.fields[i]).name ==> represents_value(
                entries[k].value,
                message.fields[i].value,
            ),
    ensures
        decoded_entries(target, entries, path) == Ok::<MessageView, Seq<char>>(
            overwritten(target, message, entries),
        ),
    decreases message, 0nat, entries.len(),
{
    lemma_same_names(target, message);
    if entries.len() == 0 {
        assert(overwritten(target, message, entries).fields =~= target.fields);
    } else {
        let init = entries.drop_last();
        let entry = entries.last();
        assert(forall|k: int| 0 <= k < init.len() ==> #[trigger] init[k] == entries[k]);
        lemma_round_entries(target, message, init, path);
        let before = overwritten(target, message, init);
        assert(entry == entries[entries.len() - 1]);
        let i = choose|i: int|
            0 <= i < message.fields.len() && (#[trigger] message.fields[i]).name == entry.key;
        assert forall|j: int| 0 <= j < before.fields.len() implies (#[trigger] before.fields[j]).name
            == message.fields[j].name by {
            assert(target.fields[j].name == message.fields[j].name);
        }
        assert(first_field(before, entry.key, i)) by {
            assert forall|k: int| 0 <= k < i implies #[trigger] before.fields[k].name
                != entry.key by {
                assert(message.fields[k].name != message.fields[i].name);
            }
        }
        lemma_find_field(before, entry.key, i);
        assert(!has_key(init, message.fields[i].name)) by {
            assert forall|k: int| 0 <= k < init.len() implies (#[trigger] init[k]).key
                != entry.key by {
                assert(init[k] == entries[k]);
                assert(entries[k].key != entries[entries.len() - 1].key);
            }
        }
        assert(before.fields[i] == target.fields[i]);
        let held = message.fields[i].value;
        let name = super::json::path_of(path, entry.key);
        assert(valid_value(held));
        assert(decreases_to!(message => message.fields));
        assert(decreases_to!(message.fields => message.fields[i]));
        assert(decreases_to!(message.fields[i] => message.fields[i].value));
        lemma_round_value(target.fields[i].value, held, entry.value, name);
        let after = with_value(before, i, settled_value(held));
        assert forall|j: int| 0 <= j < target.fields.len() implies #[trigger] after.fields[j]
            == overwritten(target, message, entries).fields[j] by {
            let wanted = message.fields[j].name;
            if j == i {
                assert(entries[entries.len() - 1].key == wanted);
                assert(has_key(entries, wanted));
            } else {
                assert(wanted != message.fields[i].name) by {
                    if j < i {
                        assert(message.fields[j].name != message.fields[i].name);
                    } else {
                        assert(message.fields[i].name != message.fields[j].name);
                    }
                }
                if has_key(entries, wanted) {
                    let k = choose|k: int|
                        0 <= k < entries.len() && (#[trigger] entries[k]).key == wanted;
                    assert(k < init.len());
                    assert(init[k].key == wanted);
                }
                if has_key(init, wanted) {
                    let k = choose|k: int| 0 <= k < init.len() && (#[trigger] init[k]).key == wanted;
                    assert(entries[k].key == wanted);
                }
            }
        }
        assert(after.fields =~= overwritten(target, message, entries).fields);
    }
}

proof fn lemma_round_value(slot: ValueView, held: ValueView, value: JsonView, name: Seq<char>)
    requires
        blank_value(slot) == blank_value(held),
        valid_value(held),
        represents_value(value, held),
    ensures
        decoded_value(slot, value, name) == Ok::<ValueView, Seq<char>>(settled_value(held)),
    decreases held, 0nat, 0nat,
{
    match held {
        ValueView::Simple(simple) => {
            lemma_round_simple(slot->Simple_0, simple, value, name);
        },
        ValueView::Array(list) => {
            let slots = slot->Array_0.elements;
            assert(blank_elements(slots).len() == blank_elements(list.elements).len());
            assert forall|i: int| 0 <= i < slots.len() implies blank_simple(#[trigger] slots[i])
                == blank_simple(list.elements[i]) by {
                assert(blank_elements(slots)[i] == blank_elements(list.elements)[i]);
            }
            lemma_round_elements(slots, list.elements, value->Array_0, name);
        },
        ValueView::Sequence(list) => {
            lemma_round_elements(
                repeated(list.prototype, list.elements.len()),
                list.elements,
                value->Array_0,
                name,
            );
        },
        ValueView::BoundedSequence { bound, list } => {
            lemma_round_elements(
                repeated(list.prototype, list.elements.len()),
                list.elements,
                value->Array_0,
                name,
            );
        },
    }
}

proof fn lemma_round_elements(
    slots: Seq<SimpleView>,
    elements: Seq<SimpleView>,
    items: Seq<JsonView>,
    name: Seq<char>,
)
    requires
        slots.len() == elements.len(),
        items.len() == elements.len(),
        forall|i: int|
            0 <= i < elements.len() ==> blank_simple(#[trigger] slots[i]) == blank_simple(
                elements[i],
            ),
        forall|i: int| 0 <= i < elements.len() ==> valid_simple(#[trigger] elements[i]),
        forall|i: int|
            0 <= i < elements.len() ==> represents_simple(items[i], #[trigger] elements[i]),
    ensures
        decoded_elements(slots, items, name) == Ok::<Seq<SimpleView>, Seq<char>>(
            settled_elements(elements),
        ),
    decreases elements, 0nat, 0nat,
{
    if elements.len() == 0 {
        assert(settled_elements(elements) =~= Seq::empty());
    } else {
        let last = elements.len() - 1;
        lemma_round_elements(slots.drop_last(), elements.drop_last(), items.drop_last(), name);
        assert(blank_simple(slots[last]) == blank_simple(elements[last]));
        lemma_round_simple(slots.last(), elements.last(), items.last(), name);
        assert(settled_elements(elements.drop_last()).push(settled_simple(elements.last()))
            =~= settled_elements(elements));
    }
}

proof fn lemma_round_simple(slot: SimpleView, simple: SimpleView, value: JsonView, name: Seq<char>)
    requires
        blank_simple(slot) == blank_simple(simple),
        valid_simple(simple),
        represents_simple(value, simple),
    ensures
        decoded_simple(slot, value, name) == Ok::<SimpleView, Seq<char>>(settled_simple(simple)),
    decreases simple, 0nat, 0nat,
{
    if let SimpleView::Message(message) = simple {
        lemma_round_trip(slot->Message_0, message, value, Some(name));
    }
}

/// Whether the digits of a simple value say that it is finite in its precision.
pub open spec fn finite_simple(simple: SimpleView) -> bool
    decreases simple,
{
    match simple {
        SimpleView::Real(precision, RealView::Finite(text)) => fits(precision, text),
        SimpleView::Message(message) => finite_message(message),
        _ => true,
    }
}

/// Whether the digits of elements say that they are finite in their precision.
pub open spec fn finite_elements(elements: Seq<SimpleView>) -> bool
    decreases elements,
{
    forall|i: int| 0 <= i < elements.len() ==> finite_simple(#[trigger] elements[i])
}

/// Whether the digits of a value say that it is finite in its precision.
pub open spec fn finite_value(value: ValueView) -> bool
    decreases value,
{
    match value {
        ValueView::Simple(simple) => finite_simple(simple),
        ValueView::Array(list) => finite_elements(list.elements),
        ValueView::Sequence(list) => finite_elements(list.elements),
        ValueView::BoundedSequence { list, .. } => finite_elements(list.elements),
    }
}

/// Whether the digits of every finite number in a message say that it is finite
/// in its precision. The shortest text of a number of that precision does.
pub open spec fn finite_message(message: MessageView) -> bool
    decreases message,
{
    forall|i: int|
        0 <= i < message.fields.len() ==> finite_value((#[trigger] message.fields[i]).value)
}

/// The JSON object that the encoder writes says what the message is.
pub proof fn lemma_tree_represents(message: MessageView, depth: nat)
    requires
        valid_message(message),
        finite_message(message),
        encodable_message(message, depth),
    ensures
        represents_message(message_tree(message), message),
    decreases message,
{
    let entries = field_trees(message.fields);
    assert(message_tree(message)->Object_0 == entries);
    assert forall|i: int| 0 <= i < message.fields.len() implies (#[trigger] entries[i]).key
        == message.fields[i].name && entries[i].value == value_tree(message.fields[i].value) by {}
    assert forall|i: int| 0 <= i < message.fields.len() implies has_key(
        entries,
        (#[trigger] message.fields[i]).name,
    ) by {
        assert(entries[i].key == message.fields[i].name);
    }
    assert forall|k: int| 0 <= k < entries.len() implies has_name(
        message,
        (#[trigger] entries[k]).key,
    ) by {
        assert(message.fields[k].name == entries[k].key);
    }
    assert(distinct_keys(entries)) by {
        assert forall|i: int, j: int| 0 <= i < j < entries.len() implies (#[trigger] entries[i]).key
            != (#[trigger] entries[j]).key by {
            assert(message.fields[i].name != message.fields[j].name);
        }
    }
    assert forall|i: int, k: int|
        0 <= i < message.fields.len() && 0 <= k < entries.len() && (#[trigger] entries[k]).key == (
        #[trigger] message.fields[i]).name implies represents_value(
        entries[k].value,
        message.fields[i].value,
    ) by {
        assert(i == k) by {
            if i < k {
                assert(message.fields[i].name != message.fields[k].name);
            }
            if k < i {
                assert(message.fields[k].name != message.fields[i].name);
            }
        }
        assert(decreases_to!(message => message.fields));
        assert(decreases_to!(message.fields => message.fields[i]));
        assert(decreases_to!(message.fields[i] => message.fields[i].value));
        lemma_value_represents(message.fields[i].value, depth + 1);
    }
}

proof fn lemma_value_represents(value: ValueView, depth: nat)
    requires
        valid_value(value),
        finite_value(value),
        encodable_value(value, depth),
    ensures
        represents_value(value_tree(value), value),
    decreases value,
{
    match value {
        ValueView::Simple(simple) => lemma_simple_represents(simple, depth),
        ValueView::Array(list) => lemma_list_represents(list, depth),
        ValueView::Sequence(list) => lemma_list_represents(list, depth),
        ValueView::BoundedSequence { list, .. } => lemma_list_represents(list, depth),
    }
}

proof fn lemma_list_represents(list: ListView, depth: nat)
    requires
        valid_list(list),
        finite_elements(list.elements),
        encodable_list(list, depth),
    ensures
        represents_list(JsonView::Array(element_trees(list.elements)), list),
    decreases list,
{
    assert forall|i: int| 0 <= i < list.elements.len() implies represents_simple(
        element_trees(list.elements)[i],
        #[trigger] list.elements[i],
    ) by {
        assert(decreases_to!(list => list.elements));
        assert(decreases_to!(list.elements => list.elements[i]));
        lemma_simple_represents(list.elements[i], depth);
        assert(element_trees(list.elements)[i] == simple_tree(list.elements[i]));
    }
}

proof fn lemma_simple_represents(simple: SimpleView, depth: nat)
    requires
        valid_simple(simple),
        finite_simple(simple),
        encodable_simple(simple, depth),
    ensures
        represents_simple(simple_tree(simple), simple),
    decreases simple,
{
    if let SimpleView::Message(message) = simple {
        lemma_tree_represents(message, depth);
    }
}

/// A field that the JSON object does not mention keeps its value, also where the
/// object is refused.
pub proof fn lemma_absent_field(
    message: MessageView,
    entries: Seq<EntryView>,
    path: Option<Seq<char>>,
    i: int,
)
    requires
        0 <= i < message.fields.len(),
        !has_key(entries, message.fields[i].name),
    ensures
        decoded_message(message, JsonView::Object(entries), path) matches Ok(filled)
            ==> filled.fields.len() == message.fields.len() && filled.fields[i]
            == message.fields[i],
        ({
            let left = left_message(message, JsonView::Object(entries), path);
            left.fields.len() == message.fields.len() && left.fields[i] == message.fields[i]
        }),
{
    lemma_absent_entries(message, entries, path, i);
}

proof fn lemma_absent_entries(
    message: MessageView,
    entries: Seq<EntryView>,
    path: Option<Seq<char>>,
    i: int,
)
    requires
        0 <= i < message.fields.len(),
        !has_key(entries, message.fields[i].name),
    ensures
        decoded_entries(message, entries, path) matches Ok(filled) ==> filled.fields.len()
            == message.fields.len() && filled.fields[i] == message.fields[i],
        left_entries(message, entries, path).fields.len() == message.fields.len(),
        left_entries(message, entries, path).fields[i] == message.fields[i],
    decreases entries.len(),
{
    if entries.len() > 0 {
        let init = entries.drop_last();
        assert(entries[entries.len() - 1].key != message.fields[i].name);
        assert(!has_key(init, message.fields[i].name)) by {
            assert forall|k: int| 0 <= k < init.len() implies (#[trigger] init[k]).key
                != message.fields[i].name by {
                assert(init[k] == entries[k]);
                assert(entries[k].key != message.fields[i].name);
            }
        }
        lemma_absent_entries(message, init, path, i);
        if let Ok(before) = decoded_entries(message, init, path) {
            if let Some(k) = find_field(before, entries.last().key) {
                assert(first_field(before, entries.last().key, k));
            }
        }
    }
}

/// A number that is infinite in the precision of a field does not fit it, and
/// leaves the field alone.
pub proof fn lemma_unfit_number(
    precision: Precision,
    held: RealView,
    text: Seq<char>,
    name: Seq<char>,
)
    requires
        !fits(precision, text),
    ensures
        ({
            let slot = ValueView::Simple(SimpleView::Real(precision, held));
            &&& decoded_value(slot, JsonView::Float(text), name) == Err::<ValueView, Seq<char>>(
                name + ": number "@ + text + " is out of range"@,
            )
            &&& left_value(slot, JsonView::Float(text), name) == slot
        }),
{
}

/// A value that does not fit its field fails the whole object, whatever else it
/// holds.
pub proof fn lemma_unfit_field(
    message: MessageView,
    entries: Seq<EntryView>,
    path: Option<Seq<char>>,
    k: int,
    i: int,
)
    requires
        distinct_keys(entries),
        0 <= k < entries.len(),
        find_field(message, entries[k].key) == Some(i),
        decoded_value(
            message.fields[i].value,
            entries[k].value,
            super::json::path_of(path, entries[k].key),
        ) is Err,
    ensures
        decoded_message(message, JsonView::Object(entries), path) is Err,
{
    let init = entries.take(k);
    let key = entries[k].key;
    assert(first_field(message, key, i));
    assert(!has_key(init, key)) by {
        assert forall|j: int| 0 <= j < init.len() implies (#[trigger] init[j]).key != key by {
            assert(entries[j].key != entries[k].key);
        }
    }
    lemma_absent_entries(message, init, path, i);
    lemma_decoded_entries(message, init, path);
    if let Ok(before) = decoded_entries(message, init, path) {
        lemma_same_names(before, message);
        assert(first_field(before, key, i)) by {
            assert forall|j: int| 0 <= j < i implies #[trigger] before.fields[j].name != key by {
                assert(message.fields[j].name != key);
            }
        }
        lemma_find_field(before, key, i);
    }
    let next = entries.take(k + 1);
    assert(next.drop_last() =~= init);
    assert(next.last() == entries[k]);
    lemma_failed_entries(message, entries, path, k + 1);
}

proof fn lemma_failed_entries(
    message: MessageView,
    entries: Seq<EntryView>,
    path: Option<Seq<char>>,
    count: int,
)
    requires
        0 <= count <= entries.len(),
        decoded_entries(message, entries.take(count), path) is Err,
    ensures
        decoded_entries(message, entries, path) is Err,
    decreases entries.len() - count,
{
    if count < entries.len() {
        assert(entries.take(count + 1).drop_last() =~= entries.take(count));
        lemma_failed_entries(message, entries, path, count + 1);
    } else {
        assert(entries.take(count) =~= entries);
    }
}

/// An object with a key that is not the name of a field is rejected, whatever
/// else it holds.
pub proof fn lemma_unknown_field(
    message: MessageView,
    entries: Seq<EntryView>,
    path: Option<Seq<char>>,
    k: int,
)
    requires
        0 <= k < entries.len(),
        !has_name(message, entries[k].key),
    ensures
        unknown_key(message, entries) matches Some(key) && decoded_message(
            message,
            JsonView::Object(entries),
            path,
        ) == Err::<MessageView, Seq<char>>(unknown_text(path, debug_text(key))),
    decreases entries.len(),
{
    if k == entries.len() - 1 {
        if let Some(i) = find_field(message, entries[k].key) {
            assert(first_field(message, entries[k].key, i));
        }
    } else {
        assert(entries.drop_last()[k] == entries[k]);
        lemma_unknown_field(message, entries.drop_last(), path, k);
    }
}

} // verus!
