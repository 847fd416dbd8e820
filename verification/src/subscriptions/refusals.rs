//! Why messages cannot be encoded.
use vstd::prelude::*;

use super::encoded;
use super::json::{
    element_pieces, emit, field_pieces, lemma_emit_add, lemma_emit_clean, lemma_payload,
    list_pieces, message_pieces, named_pieces, payload_pieces, separator, simple_pieces,
    value_pieces, Piece,
};
use super::number::integer_pieces;
use crate::message::{FieldView, ListView, MessageView, RealView, SimpleView, ValueView};

verus! {

/// A long double, a list of them, a number that awaits its rounding and a message more
/// than 64 levels deep are each refused with a reason of their own, and add nothing to
/// the text.
pub proof fn lemma_refused(
    text: Seq<char>,
    list: ListView,
    bound: usize,
    number: Seq<char>,
    message: MessageView,
    depth: nat,
)
    ensures
        emit(text, simple_pieces(SimpleView::LongDouble, depth)) == (
            text,
            Some("long double fields are unsupported"@),
        ),
        emit(text, simple_pieces(SimpleView::Nearest(number), depth)) == (
            text,
            Some("number has not been rounded"@),
        ),
        depth > 64 ==> emit(text, simple_pieces(SimpleView::Message(message), depth)) == (
            text,
            Some("message nesting exceeds 64 levels"@),
        ),
        list.prototype is LongDouble ==> {
            let refused = (text, Some("long double fields are unsupported"@));
            &&& emit(text, value_pieces(ValueView::Array(list), depth)) == refused
            &&& emit(text, value_pieces(ValueView::Sequence(list), depth)) == refused
            &&& emit(text, value_pieces(ValueView::BoundedSequence { bound, list }, depth))
                == refused
        },
{
    lemma_fault(text, "long double fields are unsupported"@);
    lemma_fault(text, "number has not been rounded"@);
    lemma_fault(text, "message nesting exceeds 64 levels"@);
}

proof fn lemma_fault(text: Seq<char>, reason: Seq<char>)
    ensures
        emit(text, seq![Piece::Fault(reason)]) == (text, Some(reason)),
{
    assert(seq![Piece::Fault(reason)].drop_last() =~= Seq::empty());
    assert(emit(text, Seq::empty()) == (text, None::<Seq<char>>));
}

/// The first refusal among fields, and that among elements, is the one of the whole:
/// what comes after it adds neither text nor reason.
pub proof fn lemma_first_refusal(
    text: Seq<char>,
    fields: Seq<FieldView>,
    field: FieldView,
    elements: Seq<SimpleView>,
    element: SimpleView,
    depth: nat,
)
    ensures
        emit(text, field_pieces(fields, depth)).1 is Some ==> emit(
            text,
            field_pieces(fields.push(field), depth),
        ) == emit(text, field_pieces(fields, depth)),
        emit(text, element_pieces(elements, depth)).1 is Some ==> emit(
            text,
            element_pieces(elements.push(element), depth),
        ) == emit(text, element_pieces(elements, depth)),
{
    let more = fields.push(field);
    assert(more.drop_last() =~= fields);
    assert(more.last() == field);
    let rest = separator(more.len()) + named_pieces(field, depth);
    assert(field_pieces(more, depth) =~= field_pieces(fields, depth) + rest);
    lemma_emit_add(text, field_pieces(fields, depth), rest);
    let longer = elements.push(element);
    assert(longer.drop_last() =~= elements);
    assert(longer.last() == element);
    let behind = separator(longer.len()) + simple_pieces(element, depth);
    assert(element_pieces(longer, depth) =~= element_pieces(elements, depth) + behind);
    lemma_emit_add(text, element_pieces(elements, depth), behind);
}

/// Whether a text is one of the reasons for which a value is refused.
pub open spec fn is_reason(text: Seq<char>) -> bool {
    ||| text == "long double fields are unsupported"@
    ||| text == "number has not been rounded"@
    ||| text == "message nesting exceeds 64 levels"@
}

/// Whether every value that is refused among pieces is refused for such a reason.
pub open spec fn have_reasons(pieces: Seq<Piece>) -> bool {
    forall|i: int| 0 <= i < pieces.len() ==> (#[trigger] pieces[i] matches Piece::Fault(reason) ==>
        is_reason(reason))
}

/// A message that is not encoded is refused for one of four reasons: one of its values
/// is, or its payload is too long.
pub proof fn lemma_reasons(
    topic: Seq<char>,
    message_type: Seq<char>,
    sequence: nat,
    message: MessageView,
)
    ensures
        encoded(topic, message_type, sequence, message) matches Err(error) ==> is_reason(error)
            || error == "notification payload exceeds 7999 bytes"@,
{
    let none = Seq::<char>::empty();
    let pieces = payload_pieces(topic, message_type, sequence, message);
    lemma_message_reasons(message, 0);
    lemma_integer_reasons(sequence as int);
    assert(have_reasons(pieces)) by {
        assert forall|i: int| 0 <= i < pieces.len() implies (
        #[trigger] pieces[i] matches Piece::Fault(reason) ==> is_reason(reason)) by {
            let digits = integer_pieces(sequence as int);
            let body = message_pieces(message, 0);
            let start = 5 + digits.len() + 1;
            if 5 <= i < 5 + digits.len() {
                assert(pieces[i] == digits[i - 5]);
            } else if start <= i < start + body.len() {
                assert(pieces[i] == body[i - start]);
            } else if i < 5 {
            } else if i == 5 + digits.len() {
                assert(pieces[i] == Piece::Text(",\"message\":"@));
            } else {
                assert(pieces[i] == Piece::Text("}"@));
            }
        }
    }
    lemma_payload(topic, message_type, sequence, message);
    assert(vstd::utf8::encode_utf8(none) =~= Seq::<u8>::empty());
    lemma_emit_clean(none, pieces);
    assert(none + super::json::joined(pieces) =~= super::json::joined(pieces));
    lemma_emit_reason(none, pieces);
}

proof fn lemma_emit_reason(text: Seq<char>, pieces: Seq<Piece>)
    requires
        have_reasons(pieces),
    ensures
        emit(text, pieces).1 matches Some(error) ==> is_reason(error) || error
            == "notification payload exceeds 7999 bytes"@,
    decreases pieces.len(),
{
    if pieces.len() > 0 {
        let init = pieces.drop_last();
        assert forall|i: int| 0 <= i < init.len() implies (
        #[trigger] init[i] matches Piece::Fault(reason) ==> is_reason(reason)) by {
            assert(init[i] == pieces[i]);
        }
        lemma_emit_reason(text, init);
        assert(pieces[pieces.len() - 1] matches Piece::Fault(reason) ==> is_reason(reason));
    }
}

proof fn lemma_integer_reasons(value: int)
    ensures
        have_reasons(integer_pieces(value)),
{
    super::number::lemma_integer_pieces(value);
}

proof fn lemma_both_reasons(a: Seq<Piece>, b: Seq<Piece>)
    requires
        have_reasons(a),
        have_reasons(b),
    ensures
        have_reasons(a + b),
{
    let all = a + b;
    assert forall|i: int| 0 <= i < all.len() implies (
    #[trigger] all[i] matches Piece::Fault(reason) ==> is_reason(reason)) by {
        if i < a.len() {
            assert(all[i] == a[i]);
        } else {
            assert(all[i] == b[i - a.len()]);
        }
    }
}

proof fn lemma_simple_reasons(simple: SimpleView, depth: nat)
    ensures
        have_reasons(simple_pieces(simple, depth)),
    decreases simple,
{
    match simple {
        SimpleView::Message(message) => {
            lemma_message_reasons(message, depth);
        },
        SimpleView::Integer(_, value) => {
            lemma_integer_reasons(value);
        },
        SimpleView::Real(_, number) => {
            if let RealView::Finite(text) = number {
                super::number::lemma_finite_pieces(text);
            }
        },
        _ => {},
    }
}

proof fn lemma_element_reasons(elements: Seq<SimpleView>, depth: nat)
    ensures
        have_reasons(element_pieces(elements, depth)),
    decreases elements,
{
    if elements.len() > 0 {
        let init = elements.drop_last();
        assert(decreases_to!(elements => init));
        lemma_element_reasons(init, depth);
        assert(decreases_to!(elements => elements[elements.len() - 1]));
        lemma_simple_reasons(elements.last(), depth);
        lemma_both_reasons(element_pieces(init, depth), separator(elements.len()));
        lemma_both_reasons(
            element_pieces(init, depth) + separator(elements.len()),
            simple_pieces(elements.last(), depth),
        );
    }
}

proof fn lemma_list_reasons(list: ListView, depth: nat)
    ensures
        have_reasons(list_pieces(list, depth)),
    decreases list,
{
    if !(list.prototype is LongDouble) {
        let open = seq![Piece::Text("["@)];
        let close = seq![Piece::Text("]"@)];
        lemma_element_reasons(list.elements, depth);
        lemma_both_reasons(open, element_pieces(list.elements, depth));
        lemma_both_reasons(open + element_pieces(list.elements, depth), close);
    }
}

proof fn lemma_value_reasons(value: ValueView, depth: nat)
    ensures
        have_reasons(value_pieces(value, depth)),
    decreases value,
{
    match value {
        ValueView::Simple(simple) => lemma_simple_reasons(simple, depth),
        ValueView::Array(list) => lemma_list_reasons(list, depth),
        ValueView::Sequence(list) => lemma_list_reasons(list, depth),
        ValueView::BoundedSequence { list, .. } => lemma_list_reasons(list, depth),
    }
}

proof fn lemma_field_reasons(fields: Seq<FieldView>, depth: nat)
    ensures
        have_reasons(field_pieces(fields, depth)),
    decreases fields,
{
    if fields.len() > 0 {
        let init = fields.drop_last();
        let field = fields.last();
        assert(decreases_to!(fields => init));
        lemma_field_reasons(init, depth);
        assert(decreases_to!(fields => fields[fields.len() - 1]));
        assert(decreases_to!(field => field.value));
        lemma_value_reasons(field.value, depth);
        let name = seq![
            Piece::Text(crate::text::json_quoted(field.name)),
            Piece::Text(":"@),
        ];
        lemma_both_reasons(name, value_pieces(field.value, depth));
        lemma_both_reasons(field_pieces(init, depth), separator(fields.len()));
        lemma_both_reasons(
            field_pieces(init, depth) + separator(fields.len()),
            named_pieces(field, depth),
        );
    }
}

proof fn lemma_message_reasons(message: MessageView, depth: nat)
    ensures
        have_reasons(message_pieces(message, depth)),
    decreases message,
{
    if depth <= 64 {
        let open = seq![Piece::Text("{"@)];
        let close = seq![Piece::Text("}"@)];
        assert(decreases_to!(message => message.fields));
        lemma_field_reasons(message.fields, depth + 1);
        lemma_both_reasons(open, field_pieces(message.fields, depth + 1));
        lemma_both_reasons(open + field_pieces(message.fields, depth + 1), close);
    }
}

} // verus!
