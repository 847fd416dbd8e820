//! What a JSON value becomes in a field.
use vstd::prelude::*;

use super::json::{
    decoded_elements, decoded_entries, decoded_message, decoded_simple, decoded_value,
    left_elements, left_entries, left_message, left_simple, left_value, unknown_key, with_value,
};
use crate::json::{EntryView, JsonView};
use crate::message::{
    digits_value, find_field, first_field, fits, leading_digits, lemma_find_field, unsigned,
    ListView, MessageView, Precision, RealView, SimpleView, ValueView, Width,
};
use crate::subscriptions::content::lemma_decimal_denotes;
use crate::text::{debug_text, decimal, double_text, integer_text};

verus! {

/// Whether an integer is one of the type with a width.
pub open spec fn in_range(width: Width, number: int) -> bool {
    match width {
        Width::U8 => 0 <= number <= 255,
        Width::U16 => 0 <= number <= 65535,
        Width::U32 => 0 <= number <= 4294967295,
        Width::U64 => 0 <= number <= 18446744073709551615,
        Width::I8 => -128 <= number <= 127,
        Width::I16 => -32768 <= number <= 32767,
        Width::I32 => -2147483648 <= number <= 2147483647,
        Width::I64 => -9223372036854775808 <= number <= 9223372036854775807,
    }
}

/// An integer field of every width takes a JSON integer of its range, and holds
/// that integer then; one beyond its range and a value of any other kind are
/// refused.
pub proof fn lemma_integers_read(
    width: Width,
    held: int,
    number: int,
    value: JsonView,
    name: Seq<char>,
)
    ensures
        ({
            let slot = SimpleView::Integer(width, held);
            let outcome = decoded_simple(slot, JsonView::Integer(number), name);
            &&& in_range(width, number) ==> outcome == Ok::<SimpleView, Seq<char>>(
                SimpleView::Integer(width, number),
            )
            &&& !in_range(width, number) ==> outcome == Err::<SimpleView, Seq<char>>(
                name + ": integer "@ + integer_text(number) + " is out of range"@,
            )
            &&& !(value is Integer) ==> decoded_simple(slot, value, name) == Err::<
                SimpleView,
                Seq<char>,
            >(name + ": expected a JSON integer"@)
        }),
{
}

/// A flag takes a JSON boolean and nothing else, and holds it then.
pub proof fn lemma_flags_read(held: bool, flag: bool, value: JsonView, name: Seq<char>)
    ensures
        decoded_simple(SimpleView::Boolean(held), JsonView::Bool(flag), name) == Ok::<
            SimpleView,
            Seq<char>,
        >(SimpleView::Boolean(flag)),
        !(value is Bool) ==> decoded_simple(SimpleView::Boolean(held), value, name) == Err::<
            SimpleView,
            Seq<char>,
        >(name + ": expected a JSON boolean"@),
{
}

/// A text takes a JSON string of at most as many characters as its type allows, and
/// holds it then; a longer one and a value of any other kind are refused.
pub proof fn lemma_texts_read(
    bound: Option<usize>,
    held: Seq<char>,
    text: Seq<char>,
    value: JsonView,
    name: Seq<char>,
)
    ensures
        ({
            let slot = SimpleView::Text { bound, text: held };
            let outcome = decoded_simple(slot, JsonView::Text(text), name);
            let fits = bound matches Some(most) ==> text.len() <= most;
            &&& fits ==> outcome == Ok::<SimpleView, Seq<char>>(SimpleView::Text { bound, text })
            &&& !fits ==> outcome == Err::<SimpleView, Seq<char>>(
                name + ": string exceeds its ROS bound"@,
            )
            &&& !(value is Text) ==> decoded_simple(slot, value, name) == Err::<
                SimpleView,
                Seq<char>,
            >(name + ": expected a JSON string"@)
        }),
{
}

/// A field of double precision takes every JSON number and holds it then; `null`
/// makes it no number. A value of any other kind is refused.
pub proof fn lemma_doubles_read(
    held: RealView,
    text: Seq<char>,
    number: int,
    value: JsonView,
    name: Seq<char>,
)
    ensures
        ({
            let slot = SimpleView::Real(Precision::Double, held);
            &&& decoded_simple(slot, JsonView::Float(text), name) == Ok::<SimpleView, Seq<char>>(
                SimpleView::Real(Precision::Double, RealView::Finite(text)),
            )
            &&& decoded_simple(slot, JsonView::Integer(number), name) == Ok::<
                SimpleView,
                Seq<char>,
            >(SimpleView::Real(Precision::Double, RealView::Finite(double_text(number))))
            &&& decoded_simple(slot, JsonView::Null, name) == Ok::<SimpleView, Seq<char>>(
                SimpleView::Real(Precision::Double, RealView::Nan),
            )
            &&& !(value is Float) && !(value is Integer) && !(value is Null) ==> decoded_simple(
                slot,
                value,
                name,
            ) == Err::<SimpleView, Seq<char>>(name + ": expected a JSON number or null"@)
        }),
{
}

/// A field of single precision, whether its number is rounded or not, takes every
/// JSON number below the end of that precision and every JSON integer, and holds
/// the nearest number then; `null` makes it no number. A number beyond the end and a
/// value of any other kind are refused.
pub proof fn lemma_singles_read(
    held: RealView,
    unrounded: Seq<char>,
    text: Seq<char>,
    number: int,
    value: JsonView,
    name: Seq<char>,
)
    ensures
        ({
            let slot = SimpleView::Real(Precision::Single, held);
            let outcome = decoded_simple(slot, JsonView::Float(text), name);
            let size = digits_value(leading_digits(unsigned(text)));
            &&& size < 340282356779733660000000000000000000000 ==> outcome == Ok::<
                SimpleView,
                Seq<char>,
            >(SimpleView::Nearest(text))
            &&& size >= 340282356779733660000000000000000000000 ==> outcome == Err::<
                SimpleView,
                Seq<char>,
            >(name + ": number "@ + text + " is out of range"@)
            &&& decoded_simple(slot, JsonView::Integer(number), name) == Ok::<
                SimpleView,
                Seq<char>,
            >(SimpleView::Nearest(double_text(number)))
            &&& decoded_simple(slot, JsonView::Null, name) == Ok::<SimpleView, Seq<char>>(
                SimpleView::Real(Precision::Single, RealView::Nan),
            )
            &&& !(value is Float) && !(value is Integer) && !(value is Null) ==> decoded_simple(
                slot,
                value,
                name,
            ) == Err::<SimpleView, Seq<char>>(name + ": expected a JSON number or null"@)
            &&& decoded_simple(SimpleView::Nearest(unrounded), value, name) == decoded_simple(
                slot,
                value,
                name,
            )
        }),
{
}

/// A number of single precision is finite by its whole part alone: whatever its sign,
/// and whatever stands behind the digits of that part.
pub proof fn lemma_whole_part(whole: nat, rest: Seq<char>)
    requires
        rest.len() == 0 || !('0' <= rest[0] <= '9'),
    ensures
        fits(Precision::Single, decimal(whole) + rest) <==> whole
            < 340282356779733660000000000000000000000,
        fits(Precision::Single, seq!['-'] + decimal(whole) + rest) <==> whole
            < 340282356779733660000000000000000000000,
        fits(Precision::Double, decimal(whole) + rest),
        fits(Precision::Double, seq!['-'] + decimal(whole) + rest),
{
    lemma_decimal_denotes(whole);
    let digits = decimal(whole);
    lemma_leading_digits(digits, rest);
    assert((digits + rest)[0] == digits[0]);
    let signed = seq!['-'] + digits + rest;
    assert(signed.drop_first() =~= digits + rest);
}

proof fn lemma_leading_digits(digits: Seq<char>, rest: Seq<char>)
    requires
        forall|i: int| 0 <= i < digits.len() ==> '0' <= #[trigger] digits[i] <= '9',
        rest.len() == 0 || !('0' <= rest[0] <= '9'),
    ensures
        leading_digits(digits + rest) == digits,
    decreases digits.len(),
{
    if digits.len() > 0 {
        lemma_leading_digits(digits.drop_first(), rest);
        assert((digits + rest).drop_first() =~= digits.drop_first() + rest);
        assert((digits + rest)[0] == digits[0]);
        assert(seq![digits[0]] + digits.drop_first() =~= digits);
    } else {
        assert(digits + rest =~= rest);
        assert(digits =~= Seq::empty());
    }
}

/// A long double takes nothing, and so does a list of them.
pub proof fn lemma_long_doubles_refused(
    list: ListView,
    bound: usize,
    items: Seq<JsonView>,
    value: JsonView,
    name: Seq<char>,
)
    requires
        list.prototype is LongDouble,
    ensures
        ({
            let refused = Err::<ValueView, Seq<char>>(
                name + ": long double fields are unsupported"@,
            );
            &&& decoded_value(ValueView::Simple(SimpleView::LongDouble), value, name) == refused
            &&& decoded_value(ValueView::Array(list), JsonView::Array(items), name) == refused
            &&& decoded_value(ValueView::Sequence(list), JsonView::Array(items), name) == refused
            &&& decoded_value(
                ValueView::BoundedSequence { bound, list },
                JsonView::Array(items),
                name,
            ) == refused
        }),
{
}

/// Whether the first value that does not fit among items is at a place, with an
/// error.
pub open spec fn fails_first(
    slots: Seq<SimpleView>,
    items: Seq<JsonView>,
    name: Seq<char>,
    error: Seq<char>,
    i: int,
) -> bool {
    &&& 0 <= i < items.len()
    &&& decoded_simple(slots[i], items[i], name) == Err::<SimpleView, Seq<char>>(error)
    &&& forall|k: int| 0 <= k < i ==> decoded_simple(#[trigger] slots[k], items[k], name) is Ok
}

/// Whether an error is that of the first value that does not fit.
pub open spec fn is_first_failure(
    slots: Seq<SimpleView>,
    items: Seq<JsonView>,
    name: Seq<char>,
    error: Seq<char>,
) -> bool {
    exists|i: int| fails_first(slots, items, name, error, i)
}

/// Elements are read one by one: all fit, and each holds then what was read into it,
/// or the error is that of the first that does not.
pub proof fn lemma_elements_read(slots: Seq<SimpleView>, items: Seq<JsonView>, name: Seq<char>)
    requires
        slots.len() == items.len(),
    ensures
        decoded_elements(slots, items, name) matches Ok(filled) ==> filled.len() == slots.len()
            && forall|i: int|
            0 <= i < slots.len() ==> decoded_simple(#[trigger] slots[i], items[i], name) == Ok::<
                SimpleView,
                Seq<char>,
            >(filled[i]),
        decoded_elements(slots, items, name) matches Err(error) ==> is_first_failure(
            slots,
            items,
            name,
            error,
        ),
    decreases items.len(),
{
    if items.len() > 0 {
        let last = items.len() - 1;
        let before = slots.drop_last();
        let earlier = items.drop_last();
        lemma_elements_read(before, earlier, name);
        match decoded_elements(before, earlier, name) {
            Ok(filled) => {
                assert forall|k: int| 0 <= k < last implies decoded_simple(
                    #[trigger] slots[k],
                    items[k],
                    name,
                ) == Ok::<SimpleView, Seq<char>>(filled[k]) by {
                    assert(before[k] == slots[k] && earlier[k] == items[k]);
                }
                match decoded_simple(slots.last(), items.last(), name) {
                    Ok(element) => {
                        let all = decoded_elements(slots, items, name)->Ok_0;
                        assert(all == filled.push(element));
                        assert forall|i: int| 0 <= i < slots.len() implies decoded_simple(
                            #[trigger] slots[i],
                            items[i],
                            name,
                        ) == Ok::<SimpleView, Seq<char>>(all[i]) by {
                            if i < last {
                                assert(all[i] == filled[i]);
                            }
                        }
                    },
                    Err(error) => {
                        assert(fails_first(slots, items, name, error, last));
                        assert(is_first_failure(slots, items, name, error));
                        assert(decoded_elements(slots, items, name) == Err::<
                            Seq<SimpleView>,
                            Seq<char>,
                        >(error));
                    },
                }
            },
            Err(error) => {
                let i = choose|i: int| fails_first(before, earlier, name, error, i);
                assert(before[i] == slots[i] && earlier[i] == items[i]);
                assert forall|k: int| 0 <= k < i implies decoded_simple(
                    #[trigger] slots[k],
                    items[k],
                    name,
                ) is Ok by {
                    assert(before[k] == slots[k] && earlier[k] == items[k]);
                }
                assert(fails_first(slots, items, name, error, i));
                assert(is_first_failure(slots, items, name, error));
                assert(decoded_elements(slots, items, name) == Err::<Seq<SimpleView>, Seq<char>>(
                    error,
                ));
            },
        }
    } else {
        assert(decoded_elements(slots, items, name) is Ok);
    }
}

/// Whether each element of a list is what was read into its slot.
pub open spec fn are_read(
    filled: Seq<SimpleView>,
    slots: Seq<SimpleView>,
    items: Seq<JsonView>,
    name: Seq<char>,
) -> bool {
    &&& filled.len() == items.len()
    &&& forall|i: int|
        0 <= i < items.len() ==> decoded_simple(slots[i], #[trigger] items[i], name) == Ok::<
            SimpleView,
            Seq<char>,
        >(filled[i])
}

/// Whether every item fits its slot.
pub open spec fn all_fit(
    slots: Seq<SimpleView>,
    items: Seq<JsonView>,
    name: Seq<char>,
) -> bool {
    forall|i: int| 0 <= i < items.len() ==> decoded_simple(slots[i], #[trigger] items[i], name) is Ok
}

/// A list of fixed length takes a JSON array of that length whose items all fit its
/// elements, and each element holds then what was read into it; an array of another
/// length is refused with both lengths, and what is no array too.
pub proof fn lemma_arrays_read(
    list: ListView,
    items: Seq<JsonView>,
    value: JsonView,
    name: Seq<char>,
)
    requires
        !(list.prototype is LongDouble),
    ensures
        ({
            let outcome = decoded_value(ValueView::Array(list), JsonView::Array(items), name);
            &&& outcome is Ok <==> items.len() == list.elements.len() && all_fit(
                list.elements,
                items,
                name,
            )
            &&& outcome matches Ok(filled) ==> {
                &&& filled is Array
                &&& filled->Array_0.prototype == list.prototype
                &&& are_read(filled->Array_0.elements, list.elements, items, name)
            }
            &&& items.len() != list.elements.len() ==> outcome == Err::<ValueView, Seq<char>>(
                name + ": expected "@ + integer_text(list.elements.len() as int)
                    + " array elements, got "@ + integer_text(items.len() as int),
            )
            &&& !(value is Array) ==> decoded_value(ValueView::Array(list), value, name) == Err::<
                ValueView,
                Seq<char>,
            >(name + ": expected a JSON array"@)
        }),
{
    if items.len() == list.elements.len() {
        lemma_elements_read(list.elements, items, name);
        lemma_all_fit(list.elements, items, name);
    }
}

proof fn lemma_all_fit(slots: Seq<SimpleView>, items: Seq<JsonView>, name: Seq<char>)
    requires
        slots.len() == items.len(),
    ensures
        decoded_elements(slots, items, name) is Ok <==> all_fit(slots, items, name),
        decoded_elements(slots, items, name) matches Ok(filled) ==> are_read(
            filled,
            slots,
            items,
            name,
        ),
{
    lemma_elements_read(slots, items, name);
    match decoded_elements(slots, items, name) {
        Ok(filled) => {
            assert forall|i: int| 0 <= i < items.len() implies decoded_simple(
                slots[i],
                #[trigger] items[i],
                name,
            ) == Ok::<SimpleView, Seq<char>>(filled[i]) by {
                assert(decoded_simple(slots[i], items[i], name) is Ok);
            }
        },
        Err(error) => {
            let i = choose|i: int| fails_first(slots, items, name, error, i);
            assert(decoded_simple(slots[i], items[i], name) is Err);
        },
    }
}

/// A list of any length takes a JSON array of any length whose items all fit a new
/// element, and holds just these elements then; one with a bound takes no more than
/// that. What was in the list before makes no difference.
pub proof fn lemma_sequences_read(
    list: ListView,
    bound: usize,
    items: Seq<JsonView>,
    value: JsonView,
    name: Seq<char>,
)
    requires
        !(list.prototype is LongDouble),
    ensures
        ({
            let slots = Seq::new(items.len(), |i: int| list.prototype);
            let free = decoded_value(ValueView::Sequence(list), JsonView::Array(items), name);
            let bounded = decoded_value(
                ValueView::BoundedSequence { bound, list },
                JsonView::Array(items),
                name,
            );
            &&& free is Ok <==> all_fit(slots, items, name)
            &&& free matches Ok(filled) ==> {
                &&& filled is Sequence
                &&& filled->Sequence_0.prototype == list.prototype
                &&& are_read(filled->Sequence_0.elements, slots, items, name)
            }
            &&& bounded is Ok <==> items.len() <= bound && all_fit(slots, items, name)
            &&& bounded matches Ok(filled) ==> {
                &&& filled matches ValueView::BoundedSequence { bound: kept, list: now } && kept
                    == bound && now.prototype == list.prototype && are_read(
                    now.elements,
                    slots,
                    items,
                    name,
                )
            }
            &&& items.len() > bound ==> bounded == Err::<ValueView, Seq<char>>(
                name + ": "@ + integer_text(items.len() as int)
                    + " sequence elements exceed the ROS bound of "@ + integer_text(bound as int),
            )
            &&& !(value is Array) ==> {
                let refused = Err::<ValueView, Seq<char>>(name + ": expected a JSON array"@);
                decoded_value(ValueView::Sequence(list), value, name) == refused && decoded_value(
                    ValueView::BoundedSequence { bound, list },
                    value,
                    name,
                ) == refused
            }
        }),
{
    let slots = Seq::new(items.len(), |i: int| list.prototype);
    assert(slots =~= super::json::repeated(list.prototype, items.len()));
    lemma_all_fit(slots, items, name);
}

/// The name of a field in an error: that of the field in the outermost message, and
/// with those of the messages around it before it elsewhere.
pub open spec fn full_name(path: Option<Seq<char>>, name: Seq<char>) -> Seq<char> {
    match path {
        None => name,
        Some(parent) => parent + "."@ + name,
    }
}

/// What reading entry `k` into the field of its name gives.
pub open spec fn read_at(
    message: MessageView,
    entries: Seq<EntryView>,
    path: Option<Seq<char>>,
    k: int,
    i: int,
) -> Result<ValueView, Seq<char>> {
    decoded_value(
        message.fields[i].value,
        entries[k].value,
        full_name(path, message.fields[i].name),
    )
}

/// Whether no two fields have one name.
pub open spec fn names_differ(message: MessageView) -> bool {
    forall|i: int, j: int|
        0 <= i < message.fields.len() && 0 <= j < message.fields.len() && i != j ==> (
        #[trigger] message.fields[i]).name != (#[trigger] message.fields[j]).name
}

/// Whether no two entries have one key.
pub open spec fn keys_differ(entries: Seq<EntryView>) -> bool {
    forall|i: int, j: int|
        0 <= i < entries.len() && 0 <= j < entries.len() && i != j ==> (
        #[trigger] entries[i]).key != (#[trigger] entries[j]).key
}

/// Whether entry `k` is the one for field `i`.
pub open spec fn is_for(
    message: MessageView,
    entries: Seq<EntryView>,
    k: int,
    i: int,
) -> bool {
    &&& 0 <= k < entries.len()
    &&& 0 <= i < message.fields.len()
    &&& entries[k].key == message.fields[i].name
}

/// Whether an entry is for some field.
pub open spec fn has_place(message: MessageView, entries: Seq<EntryView>, k: int) -> bool {
    exists|i: int| is_for(message, entries, k, i)
}

/// Whether every entry is for some field.
pub open spec fn all_known(message: MessageView, entries: Seq<EntryView>) -> bool {
    forall|k: int|
        0 <= k < entries.len() ==> has_place(message, entries, k)
}

/// Whether every entry fits its field.
pub open spec fn entries_fit(
    message: MessageView,
    entries: Seq<EntryView>,
    path: Option<Seq<char>>,
) -> bool {
    forall|k: int, i: int| #[trigger]
        is_for(message, entries, k, i) ==> read_at(message, entries, path, k, i) is Ok
}

/// Whether a message is another one with the entries read into its fields: each
/// field holds what was read into it, and one without an entry what it held.
pub open spec fn is_filled(
    filled: MessageView,
    message: MessageView,
    entries: Seq<EntryView>,
    path: Option<Seq<char>>,
) -> bool {
    &&& filled.fields.len() == message.fields.len()
    &&& forall|i: int|
        0 <= i < message.fields.len() ==> (#[trigger] filled.fields[i]).name
            == message.fields[i].name
    &&& forall|k: int, i: int| #[trigger]
        is_for(message, entries, k, i) ==> read_at(message, entries, path, k, i) == Ok::<
            ValueView,
            Seq<char>,
        >(filled.fields[i].value)
    &&& forall|i: int|
        0 <= i < message.fields.len() && !(exists|k: int| is_for(message, entries, k, i)) ==> (
        #[trigger] filled.fields[i]).value == message.fields[i].value
}

/// An object is read into a message exactly where every key is the name of a field
/// and every value fits its field. Each field holds then what was read into it, and
/// the fields without a key keep what they held.
pub proof fn lemma_objects_read(
    message: MessageView,
    entries: Seq<EntryView>,
    path: Option<Seq<char>>,
)
    requires
        names_differ(message),
        keys_differ(entries),
    ensures
        ({
            let outcome = decoded_message(message, JsonView::Object(entries), path);
            &&& outcome is Ok <==> all_known(message, entries) && entries_fit(
                message,
                entries,
                path,
            )
            &&& outcome matches Ok(filled) ==> is_filled(filled, message, entries, path)
        }),
{
    lemma_known(message, entries);
    if all_known(message, entries) {
        lemma_entries_read(message, entries, path);
    }
}

proof fn lemma_known(message: MessageView, entries: Seq<EntryView>)
    requires
        names_differ(message),
    ensures
        unknown_key(message, entries) is None <==> all_known(message, entries),
    decreases entries.len(),
{
    if entries.len() > 0 {
        let init = entries.drop_last();
        let last = entries.len() - 1;
        lemma_known(message, init);
        if all_known(message, entries) {
            assert forall|k: int| 0 <= k < init.len() implies has_place(
                message,
                init,
                k,
            ) by {
                assert(has_place(message, entries, k));
                let i = choose|i: int| is_for(message, entries, k, i);
                assert(is_for(message, init, k, i));
            }
            assert(has_place(message, entries, last));
            let i = choose|i: int| is_for(message, entries, last, i);
            lemma_place(message, entries.last().key, i);
        }
        if unknown_key(message, entries) is None {
            assert forall|k: int| 0 <= k < entries.len() implies has_place(
                message,
                entries,
                k,
            ) by {
                if k < last {
                    assert(has_place(message, init, k));
                    let i = choose|i: int| is_for(message, init, k, i);
                    assert(is_for(message, entries, k, i));
                } else {
                    let i = find_field(message, entries.last().key)->Some_0;
                    assert(first_field(message, entries.last().key, i));
                    assert(is_for(message, entries, last, i));
                }
            }
        }
    }
}

proof fn lemma_place(message: MessageView, name: Seq<char>, i: int)
    requires
        names_differ(message),
        0 <= i < message.fields.len(),
        message.fields[i].name == name,
    ensures
        find_field(message, name) == Some(i),
{
    assert(first_field(message, name, i));
    lemma_find_field(message, name, i);
}

proof fn lemma_entries_read(
    message: MessageView,
    entries: Seq<EntryView>,
    path: Option<Seq<char>>,
)
    requires
        names_differ(message),
        keys_differ(entries),
        all_known(message, entries),
    ensures
        decoded_entries(message, entries, path) is Ok <==> entries_fit(message, entries, path),
        decoded_entries(message, entries, path) matches Ok(filled) ==> is_filled(
            filled,
            message,
            entries,
            path,
        ),
    decreases entries.len(),
{
    if entries.len() > 0 {
        let init = entries.drop_last();
        let last = entries.len() - 1;
        let key = entries.last().key;
        assert forall|k: int| 0 <= k < init.len() implies has_place(
            message,
            init,
            k,
        ) by {
            assert(has_place(message, entries, k));
            let i = choose|i: int| is_for(message, entries, k, i);
            assert(is_for(message, init, k, i));
        }
        assert(keys_differ(init)) by {
            assert forall|i: int, j: int|
                0 <= i < init.len() && 0 <= j < init.len() && i != j implies (
            #[trigger] init[i]).key != (#[trigger] init[j]).key by {
                assert(entries[i].key != entries[j].key);
            }
        }
        lemma_entries_read(message, init, path);
        assert(has_place(message, entries, last));
        let p = choose|i: int| is_for(message, entries, last, i);
        assert(is_for(message, entries, last, p));
        if entries_fit(message, entries, path) {
            assert forall|k: int, i: int| #[trigger] is_for(message, init, k, i) implies read_at(
                message,
                init,
                path,
                k,
                i,
            ) is Ok by {
                assert(is_for(message, entries, k, i));
            }
        }
        if let Ok(before) = decoded_entries(message, init, path) {
            assert(names_differ(before)) by {
                assert forall|i: int, j: int|
                    0 <= i < before.fields.len() && 0 <= j < before.fields.len() && i != j implies (
                #[trigger] before.fields[i]).name != (#[trigger] before.fields[j]).name by {
                    assert(before.fields[i].name == message.fields[i].name);
                    assert(before.fields[j].name == message.fields[j].name);
                }
            }
            assert(before.fields[p].name == message.fields[p].name);
            lemma_place(before, key, p);
            assert(!(exists|k: int| is_for(message, init, k, p))) by {
                if exists|k: int| is_for(message, init, k, p) {
                    let k = choose|k: int| is_for(message, init, k, p);
                    assert(entries[k].key != entries[last].key);
                }
            }
            assert(before.fields[p].value == message.fields[p].value);
            assert(decoded_value(
                before.fields[p].value,
                entries.last().value,
                super::json::path_of(path, key),
            ) == read_at(message, entries, path, last, p));
            if read_at(message, entries, path, last, p) is Ok {
                let filled = decoded_entries(message, entries, path)->Ok_0;
                assert forall|k: int, i: int| #[trigger]
                    is_for(message, entries, k, i) implies read_at(message, entries, path, k, i)
                    == Ok::<ValueView, Seq<char>>(filled.fields[i].value) by {
                    if k < last {
                        assert(is_for(message, init, k, i));
                        assert(entries[k].key != entries[last].key);
                        assert(i != p);
                    } else if i != p {
                        assert(message.fields[i].name != message.fields[p].name);
                    }
                }
                assert forall|i: int| 0 <= i < message.fields.len() implies (
                #[trigger] filled.fields[i]).name == message.fields[i].name by {
                    assert(before.fields[i].name == message.fields[i].name);
                }
                assert forall|i: int|
                    0 <= i < message.fields.len() && !(exists|k: int|
                        is_for(message, entries, k, i)) implies (#[trigger] filled.fields[i]).value
                    == message.fields[i].value by {
                    assert(i != p);
                    assert(!(exists|k: int| is_for(message, init, k, i))) by {
                        if exists|k: int| is_for(message, init, k, i) {
                            let k = choose|k: int| is_for(message, init, k, i);
                            assert(is_for(message, entries, k, i));
                        }
                    }
                    assert(before.fields[i].value == message.fields[i].value);
                }
            }
        } else {
            let (k, i) = choose|k: int, i: int| #[trigger]
                is_for(message, init, k, i) && !(read_at(message, init, path, k, i) is Ok);
            assert(is_for(message, entries, k, i));
        }
    }
}

/// A message within a field is read from an object as the outermost one is; what is
/// no object is refused.
pub proof fn lemma_messages_read(
    message: MessageView,
    value: JsonView,
    name: Seq<char>,
)
    ensures
        match decoded_message(message, value, Some(name)) {
            Ok(filled) => decoded_simple(SimpleView::Message(message), value, name) == Ok::<
                SimpleView,
                Seq<char>,
            >(SimpleView::Message(filled)),
            Err(error) => decoded_simple(SimpleView::Message(message), value, name) == Err::<
                SimpleView,
                Seq<char>,
            >(error),
        },
        !(value is Object) ==> decoded_message(message, value, Some(name)) == Err::<
            MessageView,
            Seq<char>,
        >(name + ": expected a JSON object"@),
        !(value is Object) ==> decoded_message(message, value, None) == Err::<
            MessageView,
            Seq<char>,
        >("message must be a JSON object"@),
{
}

/// A field that is no list is read as its value is.
pub proof fn lemma_scalars_read(simple: SimpleView, value: JsonView, name: Seq<char>)
    ensures
        match decoded_simple(simple, value, name) {
            Ok(filled) => decoded_value(ValueView::Simple(simple), value, name) == Ok::<
                ValueView,
                Seq<char>,
            >(ValueView::Simple(filled)),
            Err(error) => decoded_value(ValueView::Simple(simple), value, name) == Err::<
                ValueView,
                Seq<char>,
            >(error),
        },
{
}

/// Whether no field has a name.
pub open spec fn no_field(message: MessageView, name: Seq<char>) -> bool {
    forall|i: int| 0 <= i < message.fields.len() ==> (#[trigger] message.fields[i]).name != name
}

/// The first key that is the name of no field is told as it is quoted, with the path
/// of the message around it, whatever comes after it, and no field is written then.
pub proof fn lemma_unknown_key_told(
    message: MessageView,
    entries: Seq<EntryView>,
    name: Seq<char>,
    k: int,
)
    requires
        0 <= k < entries.len(),
        no_field(message, entries[k].key),
        forall|j: int| 0 <= j < k ==> !no_field(message, (#[trigger] entries[j]).key),
    ensures
        ({
            let value = JsonView::Object(entries);
            let quoted = debug_text(entries[k].key);
            &&& decoded_message(message, value, None) == Err::<MessageView, Seq<char>>(
                "unknown message field "@ + quoted,
            )
            &&& decoded_message(message, value, Some(name)) == Err::<MessageView, Seq<char>>(
                name + ": unknown message field "@ + quoted,
            )
            &&& left_message(message, value, None) == message
            &&& left_message(message, value, Some(name)) == message
        }),
{
    lemma_first_unknown(message, entries, k);
}

proof fn lemma_first_unknown(message: MessageView, entries: Seq<EntryView>, k: int)
    requires
        0 <= k < entries.len(),
        no_field(message, entries[k].key),
        forall|j: int| 0 <= j < k ==> !no_field(message, (#[trigger] entries[j]).key),
    ensures
        unknown_key(message, entries) == Some(entries[k].key),
    decreases entries.len(),
{
    let init = entries.drop_last();
    if k < entries.len() - 1 {
        lemma_first_unknown(message, init, k);
    } else {
        lemma_none_unknown(message, init);
        if let Some(i) = find_field(message, entries[k].key) {
            assert(first_field(message, entries[k].key, i));
        }
    }
}

proof fn lemma_none_unknown(message: MessageView, entries: Seq<EntryView>)
    requires
        forall|j: int| 0 <= j < entries.len() ==> !no_field(message, (#[trigger] entries[j]).key),
    ensures
        unknown_key(message, entries) is None,
    decreases entries.len(),
{
    if entries.len() > 0 {
        let last = entries.len() - 1;
        let init = entries.drop_last();
        assert forall|j: int| 0 <= j < init.len() implies !no_field(
            message,
            (#[trigger] init[j]).key,
        ) by {
            assert(init[j] == entries[j]);
        }
        lemma_none_unknown(message, init);
        assert(!no_field(message, entries[last].key));
        let i = choose|i: int|
            0 <= i < message.fields.len() && (#[trigger] message.fields[i]).name
                == entries[last].key;
        lemma_found(message, entries[last].key, i);
    }
}

proof fn lemma_found(message: MessageView, name: Seq<char>, i: int)
    requires
        0 <= i < message.fields.len(),
        message.fields[i].name == name,
    ensures
        find_field(message, name) is Some,
    decreases i,
{
    if exists|j: int| 0 <= j < i && (#[trigger] message.fields[j]).name == name {
        let j = choose|j: int| 0 <= j < i && (#[trigger] message.fields[j]).name == name;
        lemma_found(message, name, j);
    } else {
        assert(first_field(message, name, i));
        lemma_find_field(message, name, i);
    }
}

/// The first value that does not fit its field gives the error of the whole object.
/// Its field is left as the value leaves it, the fields before it hold what was read
/// into them, and the other fields what they held.
pub proof fn lemma_first_unfit(
    message: MessageView,
    entries: Seq<EntryView>,
    path: Option<Seq<char>>,
    k: int,
    i: int,
    error: Seq<char>,
)
    requires
        names_differ(message),
        keys_differ(entries),
        all_known(message, entries),
        is_for(message, entries, k, i),
        entries_fit(message, entries.take(k), path),
        read_at(message, entries, path, k, i) == Err::<ValueView, Seq<char>>(error),
    ensures
        decoded_message(message, JsonView::Object(entries), path) == Err::<MessageView, Seq<char>>(
            error,
        ),
        ({
            let left = left_message(message, JsonView::Object(entries), path);
            &&& left.fields.len() == message.fields.len()
            &&& left.fields[i].value == left_value(
                message.fields[i].value,
                entries[k].value,
                full_name(path, message.fields[i].name),
            )
            &&& forall|j: int, n: int|
                n < k && #[trigger] is_for(message, entries, n, j) ==> read_at(
                    message,
                    entries,
                    path,
                    n,
                    j,
                ) == Ok::<ValueView, Seq<char>>(left.fields[j].value)
            &&& forall|n: int, j: int|
                n > k && #[trigger] is_for(message, entries, n, j) ==> left.fields[j]
                    == message.fields[j]
        }),
{
    lemma_known(message, entries);
    lemma_unfit_entries(message, entries, path, k, i, error);
    let left = left_message(message, JsonView::Object(entries), path);
    let init = entries.take(k);
    assert forall|j: int, n: int|
        n < k && #[trigger] is_for(message, entries, n, j) implies read_at(
        message,
        entries,
        path,
        n,
        j,
    ) == Ok::<ValueView, Seq<char>>(left.fields[j].value) by {
        assert(is_for(message, init, n, j));
        assert(entries[n].key != entries[k].key);
    }
    assert forall|n: int, j: int|
        n > k && #[trigger] is_for(message, entries, n, j) implies left.fields[j]
        == message.fields[j] by {
        assert(entries[n].key != entries[k].key);
        assert(!(exists|m: int| is_for(message, init, m, j))) by {
            if exists|m: int| is_for(message, init, m, j) {
                let m = choose|m: int| is_for(message, init, m, j);
                assert(entries[m].key != entries[n].key);
            }
        }
    }
}

proof fn lemma_unfit_entries(
    message: MessageView,
    entries: Seq<EntryView>,
    path: Option<Seq<char>>,
    k: int,
    i: int,
    error: Seq<char>,
)
    requires
        names_differ(message),
        keys_differ(entries),
        all_known(message, entries),
        is_for(message, entries, k, i),
        entries_fit(message, entries.take(k), path),
        read_at(message, entries, path, k, i) == Err::<ValueView, Seq<char>>(error),
    ensures
        decoded_entries(message, entries, path) == Err::<MessageView, Seq<char>>(error),
        decoded_entries(message, entries.take(k), path) is Ok,
        is_filled(
            decoded_entries(message, entries.take(k), path)->Ok_0,
            message,
            entries.take(k),
            path,
        ),
        left_entries(message, entries, path) == with_value(
            decoded_entries(message, entries.take(k), path)->Ok_0,
            i,
            left_value(
                message.fields[i].value,
                entries[k].value,
                full_name(path, message.fields[i].name),
            ),
        ),
    decreases entries.len(),
{
    let init = entries.drop_last();
    let last = entries.len() - 1;
    assert forall|n: int| 0 <= n < init.len() implies has_place(message, init, n) by {
        assert(has_place(message, entries, n));
        let j = choose|j: int| is_for(message, entries, n, j);
        assert(is_for(message, init, n, j));
    }
    assert(keys_differ(init)) by {
        assert forall|a: int, b: int|
            0 <= a < init.len() && 0 <= b < init.len() && a != b implies (#[trigger] init[a]).key
            != (#[trigger] init[b]).key by {
            assert(entries[a].key != entries[b].key);
        }
    }
    if k < last {
        assert(init.take(k) =~= entries.take(k));
        assert(is_for(message, init, k, i));
        lemma_unfit_entries(message, init, path, k, i, error);
    } else {
        assert(init =~= entries.take(k));
        lemma_entries_read(message, init, path);
        let before = decoded_entries(message, init, path)->Ok_0;
        assert(names_differ(before)) by {
            assert forall|a: int, b: int|
                0 <= a < before.fields.len() && 0 <= b < before.fields.len() && a != b implies (
            #[trigger] before.fields[a]).name != (#[trigger] before.fields[b]).name by {
                assert(before.fields[a].name == message.fields[a].name);
                assert(before.fields[b].name == message.fields[b].name);
            }
        }
        assert(before.fields[i].name == message.fields[i].name);
        lemma_place(before, entries[k].key, i);
        assert(!(exists|m: int| is_for(message, init, m, i))) by {
            if exists|m: int| is_for(message, init, m, i) {
                let m = choose|m: int| is_for(message, init, m, i);
                assert(entries[m].key != entries[k].key);
            }
        }
        assert(before.fields[i].value == message.fields[i].value);
    }
}

/// A value that fits leaves what it becomes; one that does not fit leaves a flag, an
/// integer, a number or a text alone.
pub proof fn lemma_scalars_left(simple: SimpleView, value: JsonView, name: Seq<char>)
    requires
        !(simple is Message),
    ensures
        match decoded_simple(simple, value, name) {
            Ok(filled) => left_simple(simple, value, name) == filled && left_value(
                ValueView::Simple(simple),
                value,
                name,
            ) == ValueView::Simple(filled),
            Err(_) => left_simple(simple, value, name) == simple && left_value(
                ValueView::Simple(simple),
                value,
                name,
            ) == ValueView::Simple(simple),
        },
{
}

/// The first item that does not fit its element leaves the elements before it with
/// what was read into them, and the elements after it alone.
pub proof fn lemma_elements_left(
    slots: Seq<SimpleView>,
    items: Seq<JsonView>,
    name: Seq<char>,
    error: Seq<char>,
    i: int,
)
    requires
        items.len() <= slots.len(),
        fails_first(slots, items, name, error, i),
    ensures
        ({
            let left = left_elements(slots, items, name);
            &&& left.len() == slots.len()
            &&& left[i] == left_simple(slots[i], items[i], name)
            &&& forall|j: int|
                0 <= j < i ==> decoded_simple(slots[j], items[j], name) == Ok::<
                    SimpleView,
                    Seq<char>,
                >(#[trigger] left[j])
            &&& forall|j: int| i < j < slots.len() ==> #[trigger] left[j] == slots[j]
        }),
    decreases items.len(),
{
    let last = items.len() - 1;
    let init = items.drop_last();
    let before = slots.take(last);
    if i < last {
        assert(fails_first(slots, init, name, error, i));
        lemma_elements_left(slots, init, name, error, i);
        assert forall|k: int| 0 <= k < i implies decoded_simple(
            #[trigger] before[k],
            init[k],
            name,
        ) is Ok by {
            assert(before[k] == slots[k] && init[k] == items[k]);
        }
        assert(before[i] == slots[i] && init[i] == items[i]);
        lemma_all_fit(before, init, name);
    } else {
        assert forall|k: int| 0 <= k < last implies decoded_simple(
            before[k],
            #[trigger] init[k],
            name,
        ) is Ok by {
            assert(before[k] == slots[k] && init[k] == items[k]);
        }
        lemma_all_fit(before, init, name);
        let filled = decoded_elements(before, init, name)->Ok_0;
        let left = left_elements(slots, items, name);
        assert forall|j: int| 0 <= j < i implies decoded_simple(slots[j], items[j], name) == Ok::<
            SimpleView,
            Seq<char>,
        >(#[trigger] left[j]) by {
            assert(left[j] == filled[j]);
            assert(before[j] == slots[j] && init[j] == items[j]);
        }
    }
}

/// A list that is refused as a whole is left alone: one of another length, one beyond
/// its bound, and what is no array.
pub proof fn lemma_lists_left(
    list: ListView,
    bound: usize,
    items: Seq<JsonView>,
    value: JsonView,
    name: Seq<char>,
)
    ensures
        ({
            let array = ValueView::Array(list);
            let free = ValueView::Sequence(list);
            let bounded = ValueView::BoundedSequence { bound, list };
            &&& items.len() != list.elements.len() ==> left_value(
                array,
                JsonView::Array(items),
                name,
            ) == array
            &&& items.len() > bound ==> left_value(bounded, JsonView::Array(items), name) == bounded
            &&& !(value is Array) ==> left_value(array, value, name) == array && left_value(
                free,
                value,
                name,
            ) == free && left_value(bounded, value, name) == bounded
        }),
{
}

/// A list of new elements, as many as the items, as the items leave them.
pub open spec fn made_of(list: ListView, items: Seq<JsonView>, name: Seq<char>) -> ListView {
    ListView {
        prototype: list.prototype,
        elements: left_elements(
            Seq::new(items.len(), |i: int| list.prototype),
            items,
            name,
        ),
    }
}

/// An item that does not fit leaves a list of fixed length, and one with a bound, as
/// the items before it have made them. A list of any length is left so only where it
/// holds messages or texts with a bound; another one is left alone.
pub proof fn lemma_items_left(
    list: ListView,
    bound: usize,
    items: Seq<JsonView>,
    name: Seq<char>,
)
    requires
        !(list.prototype is LongDouble),
        !all_fit(Seq::new(items.len(), |i: int| list.prototype), items, name),
    ensures
        ({
            let value = JsonView::Array(items);
            let free = ValueView::Sequence(list);
            &&& items.len() == list.elements.len() ==> left_value(
                ValueView::Array(list),
                value,
                name,
            ) == ValueView::Array(
                ListView {
                    prototype: list.prototype,
                    elements: left_elements(list.elements, items, name),
                },
            )
            &&& items.len() <= bound ==> left_value(
                ValueView::BoundedSequence { bound, list },
                value,
                name,
            ) == (ValueView::BoundedSequence { bound, list: made_of(list, items, name) })
            &&& list.prototype is Message ==> left_value(free, value, name) == ValueView::Sequence(
                made_of(list, items, name),
            )
            &&& list.prototype matches SimpleView::Text { bound: Some(_), .. } ==> left_value(
                free,
                value,
                name,
            ) == ValueView::Sequence(made_of(list, items, name))
            &&& list.prototype is Integer || list.prototype is Boolean || list.prototype is Real
                || list.prototype is Nearest ==> left_value(free, value, name) == free
            &&& list.prototype matches SimpleView::Text { bound: None, .. } ==> left_value(
                free,
                value,
                name,
            ) == free
        }),
{
    let slots = Seq::new(items.len(), |i: int| list.prototype);
    assert(slots =~= super::json::repeated(list.prototype, items.len()));
    lemma_all_fit(slots, items, name);
}

} // verus!
