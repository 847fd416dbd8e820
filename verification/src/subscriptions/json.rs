//! Bounded JSON encoding of ROS messages.
use vstd::prelude::*;
use vstd::string::*;

use super::content::{lemma_encodable_message, nests_message, offends_message};
use super::number::{integer_pieces, lemma_finite_pieces, lemma_integer_pieces, real_pieces};
use crate::message::{Field, List, Message, Simple, Value};
use crate::message::{FieldView, ListView, MessageView, RealView, SimpleView, ValueView};
use crate::text::{
    byte_len, lemma_json_quoted_len, lemma_utf8_len_add, quote_json,
};
use crate::json::{json_text, EntryView, JsonView};
use crate::text::{integer_text, json_quoted, utf8_len};

verus! {

/// The greatest number of bytes in a notification payload.
pub const LIMIT: usize = 7999;

/// A step of the encoder.
pub enum Piece {
    /// Text to be appended.
    Text(Seq<char>),
    /// A value that cannot be encoded, with the message that says why.
    Fault(Seq<char>),
}

/// What becomes of a text to which `pieces` are appended in order, and the
/// first error that stops this.
///
/// A piece that would take the text past the limit is left out and is an error.
pub open spec fn emit(text: Seq<char>, pieces: Seq<Piece>) -> (Seq<char>, Option<Seq<char>>)
    decreases pieces.len(),
{
    if pieces.len() == 0 {
        (text, None)
    } else {
        let (before, error) = emit(text, pieces.drop_last());
        if error is Some {
            (before, error)
        } else {
            match pieces.last() {
                Piece::Text(more) => if utf8_len(before) + utf8_len(more) > LIMIT {
                    (before, Some("notification payload exceeds 7999 bytes"@))
                } else {
                    (before + more, None)
                },
                Piece::Fault(message) => (before, Some(message)),
            }
        }
    }
}

/// The pieces of a simple value, where a message stands `depth` levels deep.
pub open spec fn simple_pieces(simple: SimpleView, depth: nat) -> Seq<Piece>
    decreases simple, 0nat,
{
    match simple {
        SimpleView::Real(_, number) => real_pieces(number),
        SimpleView::Nearest(_) => seq![Piece::Fault("number has not been rounded"@)],
        SimpleView::LongDouble => seq![Piece::Fault("long double fields are unsupported"@)],
        SimpleView::Integer(_, value) => integer_pieces(value),
        SimpleView::Boolean(value) => seq![
            Piece::Text(
                if value {
                    "true"@
                } else {
                    "false"@
                },
            ),
        ],
        SimpleView::Text { text, .. } => seq![Piece::Text(json_quoted(text))],
        SimpleView::Message(message) => message_pieces(message, depth),
    }
}

/// The pieces of the elements of a list, separated by commas.
pub open spec fn element_pieces(elements: Seq<SimpleView>, depth: nat) -> Seq<Piece>
    decreases elements, 0nat,
{
    if elements.len() == 0 {
        Seq::empty()
    } else {
        element_pieces(elements.drop_last(), depth) + separator(elements.len()) + simple_pieces(
            elements.last(),
            depth,
        )
    }
}

/// The comma before the last of `count` items, where it is not the first.
pub open spec fn separator(count: nat) -> Seq<Piece> {
    if count > 1 {
        seq![Piece::Text(","@)]
    } else {
        Seq::empty()
    }
}

/// The pieces of a list.
pub open spec fn list_pieces(list: ListView, depth: nat) -> Seq<Piece>
    decreases list, 0nat,
{
    if list.prototype is LongDouble {
        seq![Piece::Fault("long double fields are unsupported"@)]
    } else {
        seq![Piece::Text("["@)] + element_pieces(list.elements, depth) + seq![Piece::Text("]"@)]
    }
}

/// The pieces of the value of a field.
pub open spec fn value_pieces(value: ValueView, depth: nat) -> Seq<Piece>
    decreases value, 0nat,
{
    match value {
        ValueView::Simple(simple) => simple_pieces(simple, depth),
        ValueView::Array(list) => list_pieces(list, depth),
        ValueView::Sequence(list) => list_pieces(list, depth),
        ValueView::BoundedSequence { list, .. } => list_pieces(list, depth),
    }
}

/// The pieces of a field.
pub open spec fn named_pieces(field: FieldView, depth: nat) -> Seq<Piece>
    decreases field, 0nat,
{
    seq![Piece::Text(json_quoted(field.name)), Piece::Text(":"@)] + value_pieces(
        field.value,
        depth,
    )
}

/// The pieces of fields, separated by commas.
pub open spec fn field_pieces(fields: Seq<FieldView>, depth: nat) -> Seq<Piece>
    decreases fields, 0nat,
{
    if fields.len() == 0 {
        Seq::empty()
    } else {
        field_pieces(fields.drop_last(), depth) + separator(fields.len()) + named_pieces(
            fields.last(),
            depth,
        )
    }
}

/// The pieces of a message that stands `depth` levels deep.
pub open spec fn message_pieces(message: MessageView, depth: nat) -> Seq<Piece>
    decreases message, 0nat,
{
    if depth > 64 {
        seq![Piece::Fault("message nesting exceeds 64 levels"@)]
    } else {
        seq![Piece::Text("{"@)] + field_pieces(message.fields, depth + 1) + seq![
            Piece::Text("}"@),
        ]
    }
}

/// The pieces of a notification payload.
pub open spec fn payload_pieces(
    topic: Seq<char>,
    message_type: Seq<char>,
    sequence: nat,
    message: MessageView,
) -> Seq<Piece> {
    seq![
        Piece::Text("{\"topic\":"@),
        Piece::Text(json_quoted(topic)),
        Piece::Text(",\"message_type\":"@),
        Piece::Text(json_quoted(message_type)),
        Piece::Text(",\"sequence\":"@),
    ] + integer_pieces(sequence as int) + seq![Piece::Text(",\"message\":"@)] + message_pieces(message, 0) + seq![Piece::Text("}"@)]
}

/// The error of an encoding step.
pub open spec fn failure(result: Result<(), &'static str>) -> Option<Seq<char>> {
    match result {
        Ok(_) => None,
        Err(message) => Some(message@),
    }
}

/// Appending two lists of pieces is appending one and, unless that stops,
/// the other.
pub proof fn lemma_emit_add(text: Seq<char>, a: Seq<Piece>, b: Seq<Piece>)
    ensures
        emit(text, a + b) == (if emit(text, a).1 is Some {
            emit(text, a)
        } else {
            emit(emit(text, a).0, b)
        }),
    decreases b.len(),
{
    if b.len() == 0 {
        assert(a + b =~= a);
    } else {
        lemma_emit_add(text, a, b.drop_last());
        assert((a + b).drop_last() =~= a + b.drop_last());
        assert((a + b).last() == b.last());
    }
}

/// Once an error has come, the pieces that follow change nothing.
proof fn lemma_emit_stop(text: Seq<char>, done: Seq<Piece>, all: Seq<Piece>)
    requires
        done.is_prefix_of(all),
        emit(text, done).1 is Some,
    ensures
        emit(text, all) == emit(text, done),
{
    let rest = all.subrange(done.len() as int, all.len() as int);
    assert(all =~= done + rest);
    lemma_emit_add(text, done, rest);
}

/// A JSON text under construction, which never grows past the limit.
pub struct Output {
    pub text: String,
}

impl View for Output {
    type V = Seq<char>;

    open spec fn view(&self) -> Seq<char> {
        self.text@
    }
}

impl Default for Output {
    fn default() -> (output: Output)
        ensures
            output@ == Seq::<char>::empty(),
            output.well_formed(),
    {
        assert(vstd::utf8::encode_utf8(Seq::empty()) =~= Seq::<u8>::empty());
        Output { text: String::new() }
    }
}

impl Output {
    /// The text is within the limit.
    pub open spec fn well_formed(&self) -> bool {
        utf8_len(self@) <= LIMIT
    }

    /// Appends `value` unless that would exceed the limit; says whether it did.
    pub fn write_str(&mut self, value: &str) -> (written: bool)
        requires
            old(self).well_formed(),
        ensures
            final(self).well_formed(),
            written == (utf8_len(old(self)@) + utf8_len(value@) <= LIMIT),
            final(self)@ == (if written {
                old(self)@ + value@
            } else {
                old(self)@
            }),
    {
        if byte_len(value) > LIMIT - byte_len(self.text.as_str()) {
            return false;
        }
        proof {
            lemma_utf8_len_add(self@, value@);
        }
        self.text.append(value);
        true
    }

    /// Appends `value`.
    pub fn push(&mut self, value: &str) -> (result: Result<(), &'static str>)
        requires
            old(self).well_formed(),
        ensures
            final(self).well_formed(),
            (final(self)@, failure(result)) == emit(old(self)@, seq![Piece::Text(value@)]),
    {
        proof {
            let pieces = seq![Piece::Text(value@)];
            assert(pieces.drop_last() =~= Seq::empty());
            assert(emit(self@, Seq::empty()) == (self@, None::<Seq<char>>));
        }
        if self.write_str(value) {
            Ok(())
        } else {
            Err("notification payload exceeds 7999 bytes")
        }
    }

    /// Appends `value` as a JSON string.
    pub fn string(&mut self, value: &str) -> (result: Result<(), &'static str>)
        requires
            old(self).well_formed(),
        ensures
            final(self).well_formed(),
            (final(self)@, failure(result)) == emit(
                old(self)@,
                seq![Piece::Text(json_quoted(value@))],
            ),
    {
        if byte_len(value) > LIMIT {
            proof {
                let pieces = seq![Piece::Text(json_quoted(value@))];
                lemma_json_quoted_len(value@);
                assert(pieces.drop_last() =~= Seq::empty());
                assert(emit(self@, Seq::empty()) == (self@, None::<Seq<char>>));
            }
            return Err("notification payload exceeds 7999 bytes");
        }
        let quoted = quote_json(value);
        self.push(quoted.as_str())
    }

    /// Appends a simple value.
    pub fn simple(&mut self, value: &Simple, depth: usize) -> (result: Result<(), &'static str>)
        requires
            old(self).well_formed(),
        ensures
            final(self).well_formed(),
            (final(self)@, failure(result)) == emit(old(self)@, simple_pieces(value@, depth as nat)),
        decreases value, 0nat,
    {
        match value {
            Simple::Real(_, number) => self.float(number),
            Simple::Nearest(_) => {
                proof {
                    lemma_emit_fault(self@, "number has not been rounded"@);
                }
                Err("number has not been rounded")
            },
            Simple::LongDouble => {
                proof {
                    lemma_emit_fault(self@, "long double fields are unsupported"@);
                }
                Err("long double fields are unsupported")
            },
            Simple::Integer(_, number) => self.number(*number),
            Simple::Boolean(flag) => if *flag {
                self.push("true")
            } else {
                self.push("false")
            },
            Simple::Text { text, .. } => self.string(text.as_str()),
            Simple::Message(message) => self.message(message, depth),
        }
    }

    /// Appends a list as a JSON array.
    pub fn array(&mut self, values: &Vec<Simple>, depth: usize) -> (result: Result<
        (),
        &'static str,
    >)
        requires
            old(self).well_formed(),
        ensures
            final(self).well_formed(),
            (final(self)@, failure(result)) == emit(
                old(self)@,
                seq![Piece::Text("["@)] + element_pieces(
                    crate::message::simple_views(values@),
                    depth as nat,
                ) + seq![Piece::Text("]"@)],
            ),
        decreases values, 0nat,
    {
        let ghost start = self@;
        let ghost elements = crate::message::simple_views(values@);
        let ghost open = seq![Piece::Text("["@)];
        let ghost all = open + element_pieces(elements, depth as nat) + seq![Piece::Text("]"@)];
        match self.push("[") {
            Ok(_) => {},
            Err(message) => {
                proof {
                    lemma_emit_stop(start, open, all);
                }
                return Err(message);
            },
        }
        let mut i: usize = 0;
        assert(open + element_pieces(elements.take(0), depth as nat) =~= open);
        while i < values.len()
            invariant
                self.well_formed(),
                i <= values@.len(),
                elements == crate::message::simple_views(values@),
                start == old(self)@,
                open == seq![Piece::Text("["@)],
                all == open + element_pieces(elements, depth as nat) + seq![Piece::Text("]"@)],
                (self@, None::<Seq<char>>) == emit(
                    start,
                    open + element_pieces(elements.take(i as int), depth as nat),
                ),
            decreases values@.len() - i,
        {
            let ghost done = open + element_pieces(elements.take(i as int), depth as nat);
            let ghost comma = separator((i + 1) as nat);
            let ghost item = simple_pieces(elements[i as int], depth as nat);
            let ghost next = open + element_pieces(elements.take(i + 1), depth as nat);
            proof {
                lemma_element_prefix(elements, i + 1, depth as nat);
                assert(elements.take(i + 1).drop_last() =~= elements.take(i as int));
                assert(elements.take(i + 1).last() == elements[i as int]);
                assert(next =~= done + comma + item);
                assert(next.is_prefix_of(all));
                lemma_emit_add(start, done, comma);
                lemma_emit_add(start, done + comma, item);
            }
            if i > 0 {
                match self.push(",") {
                    Ok(_) => {},
                    Err(message) => {
                        proof {
                            assert((done + comma).is_prefix_of(all));
                            lemma_emit_stop(start, done + comma, all);
                        }
                        return Err(message);
                    },
                }
            } else {
                assert(done + comma =~= done);
            }
            assert(decreases_to!(values => values@));
            match self.simple(&values[i], depth) {
                Ok(_) => {},
                Err(message) => {
                    proof {
                        lemma_emit_stop(start, next, all);
                    }
                    return Err(message);
                },
            }
            i += 1;
        }
        proof {
            assert(elements.take(i as int) =~= elements);
            lemma_emit_add(
                start,
                open + element_pieces(elements, depth as nat),
                seq![Piece::Text("]"@)],
            );
        }
        self.push("]")
    }

    /// Appends a list, whose elements may not be of extended precision.
    pub fn list(&mut self, value: &List, depth: usize) -> (result: Result<(), &'static str>)
        requires
            old(self).well_formed(),
        ensures
            final(self).well_formed(),
            (final(self)@, failure(result)) == emit(old(self)@, list_pieces(value@, depth as nat)),
        decreases value, 0nat,
    {
        proof {
            value.lemma_view();
        }
        match &value.prototype {
            Simple::LongDouble => {
                proof {
                    lemma_emit_fault(self@, "long double fields are unsupported"@);
                }
                Err("long double fields are unsupported")
            },
            _ => self.array(&value.elements, depth),
        }
    }

    /// Appends the value of a field.
    pub fn value(&mut self, value: &Value, depth: usize) -> (result: Result<(), &'static str>)
        requires
            old(self).well_formed(),
        ensures
            final(self).well_formed(),
            (final(self)@, failure(result)) == emit(old(self)@, value_pieces(value@, depth as nat)),
        decreases value, 0nat,
    {
        match value {
            Value::Simple(simple) => self.simple(simple, depth),
            Value::Array(list) => self.list(list, depth),
            Value::Sequence(list) => self.list(list, depth),
            Value::BoundedSequence { list, .. } => self.list(list, depth),
        }
    }

    /// Appends the name and the value of a field.
    fn field(&mut self, field: &Field, depth: usize) -> (result: Result<(), &'static str>)
        requires
            old(self).well_formed(),
        ensures
            final(self).well_formed(),
            (final(self)@, failure(result)) == emit(old(self)@, named_pieces(field@, depth as nat)),
        decreases field, 0nat,
    {
        let ghost start = self@;
        let ghost name = seq![Piece::Text(json_quoted(field.name@))];
        let ghost colon = seq![Piece::Text(":"@)];
        let ghost item = value_pieces(field.value@, depth as nat);
        let ghost all = named_pieces(field@, depth as nat);
        proof {
            assert(all =~= name + colon + item);
            lemma_emit_add(start, name, colon);
            lemma_emit_add(start, name + colon, item);
        }
        match self.string(field.name.as_str()) {
            Ok(_) => {},
            Err(error) => {
                return Err(error);
            },
        }
        match self.push(":") {
            Ok(_) => {},
            Err(error) => {
                return Err(error);
            },
        }
        self.value(&field.value, depth)
    }

    /// Appends fields, separated by commas.
    fn fields(&mut self, fields: &Vec<Field>, depth: usize) -> (result: Result<(), &'static str>)
        requires
            old(self).well_formed(),
        ensures
            final(self).well_formed(),
            (final(self)@, failure(result)) == emit(
                old(self)@,
                field_pieces(crate::message::field_views(fields@), depth as nat),
            ),
        decreases fields, 0nat,
    {
        let ghost start = self@;
        let ghost views = crate::message::field_views(fields@);
        let ghost all = field_pieces(views, depth as nat);
        let mut i: usize = 0;
        assert(views.take(0) =~= Seq::empty());
        assert(emit(start, Seq::empty()) == (start, None::<Seq<char>>));
        while i < fields.len()
            invariant
                self.well_formed(),
                i <= fields@.len(),
                start == old(self)@,
                views == crate::message::field_views(fields@),
                all == field_pieces(views, depth as nat),
                (self@, None::<Seq<char>>) == emit(
                    start,
                    field_pieces(views.take(i as int), depth as nat),
                ),
            decreases fields@.len() - i,
        {
            let ghost done = field_pieces(views.take(i as int), depth as nat);
            let ghost comma = separator((i + 1) as nat);
            let ghost item = named_pieces(views[i as int], depth as nat);
            let ghost next = field_pieces(views.take(i + 1), depth as nat);
            proof {
                lemma_field_prefix(views, i + 1, depth as nat);
                assert(views.take(i + 1).drop_last() =~= views.take(i as int));
                assert(views.take(i + 1).last() == views[i as int]);
                assert(next =~= done + comma + item);
                lemma_emit_add(start, done, comma);
                lemma_emit_add(start, done + comma, item);
            }
            if i > 0 {
                match self.push(",") {
                    Ok(_) => {},
                    Err(error) => {
                        proof {
                            assert((done + comma).is_prefix_of(all));
                            lemma_emit_stop(start, done + comma, all);
                        }
                        return Err(error);
                    },
                }
            } else {
                assert(done + comma =~= done);
            }
            assert(decreases_to!(fields => fields@));
            match self.field(&fields[i], depth) {
                Ok(_) => {},
                Err(error) => {
                    proof {
                        lemma_emit_stop(start, next, all);
                    }
                    return Err(error);
                },
            }
            i += 1;
        }
        assert(views.take(i as int) =~= views);
        Ok(())
    }

    /// Appends a message that stands `depth` levels deep.
    pub fn message(&mut self, message: &Message, depth: usize) -> (result: Result<
        (),
        &'static str,
    >)
        requires
            old(self).well_formed(),
        ensures
            final(self).well_formed(),
            (final(self)@, failure(result)) == emit(
                old(self)@,
                message_pieces(message@, depth as nat),
            ),
        decreases message, 0nat,
    {
        if depth > 64 {
            proof {
                lemma_emit_fault(self@, "message nesting exceeds 64 levels"@);
            }
            return Err("message nesting exceeds 64 levels");
        }
        let ghost start = self@;
        let ghost open = seq![Piece::Text("{"@)];
        let ghost inner = field_pieces(message@.fields, (depth + 1) as nat);
        let ghost close = seq![Piece::Text("}"@)];
        proof {
            message.lemma_view();
            lemma_emit_add(start, open, inner);
            lemma_emit_add(start, open + inner, close);
        }
        match self.push("{") {
            Ok(_) => {},
            Err(error) => {
                return Err(error);
            },
        }
        match self.fields(&message.fields, depth + 1) {
            Ok(_) => {},
            Err(error) => {
                return Err(error);
            },
        }
        self.push("}")
    }
}

proof fn lemma_emit_fault(text: Seq<char>, message: Seq<char>)
    ensures
        emit(text, seq![Piece::Fault(message)]) == (text, Some(message)),
{
    assert(seq![Piece::Fault(message)].drop_last() =~= Seq::empty());
    assert(emit(text, Seq::empty()) == (text, None::<Seq<char>>));
}

proof fn lemma_element_prefix(elements: Seq<SimpleView>, count: int, depth: nat)
    requires
        0 <= count <= elements.len(),
    ensures
        element_pieces(elements.take(count), depth).is_prefix_of(element_pieces(elements, depth)),
    decreases elements.len() - count,
{
    if count < elements.len() {
        lemma_element_prefix(elements, count + 1, depth);
        assert(elements.take(count + 1).drop_last() =~= elements.take(count));
    } else {
        assert(elements.take(count) =~= elements);
    }
}

proof fn lemma_field_prefix(fields: Seq<FieldView>, count: int, depth: nat)
    requires
        0 <= count <= fields.len(),
    ensures
        field_pieces(fields.take(count), depth).is_prefix_of(field_pieces(fields, depth)),
    decreases fields.len() - count,
{
    if count < fields.len() {
        lemma_field_prefix(fields, count + 1, depth);
        assert(fields.take(count + 1).drop_last() =~= fields.take(count));
    } else {
        assert(fields.take(count) =~= fields);
    }
}

/// Builds a notification payload: a JSON object with the topic, the message
/// type, a sequence number and the message.
pub fn payload(topic: &str, message_type: &str, sequence: u64, message: &Message) -> (result: Result<
    String,
    &'static str,
>)
    ensures
        result is Ok <==> encodable_message(message@, 0) && utf8_len(
            payload_text(topic@, message_type@, sequence as nat, message@),
        ) <= LIMIT,
        result is Ok <==> !offends_message(message@) && nests_message(message@, 64) && utf8_len(
            payload_text(topic@, message_type@, sequence as nat, message@),
        ) <= 7999,
        result is Ok ==> result->Ok_0@ == payload_text(
            topic@,
            message_type@,
            sequence as nat,
            message@,
        ),
        result is Err ==> emit(
            Seq::empty(),
            payload_pieces(topic@, message_type@, sequence as nat, message@),
        ).1 == Some(result->Err_0@),
{
    let ghost all = payload_pieces(topic@, message_type@, sequence as nat, message@);
    let mut output = Output::default();
    let ghost none = Seq::<char>::empty();
    proof {
        lemma_payload(topic@, message_type@, sequence as nat, message@);
        lemma_encodable_message(message@, 0);
        lemma_emit_clean(none, all);
        assert(none + joined(all) =~= joined(all));
        assert(vstd::utf8::encode_utf8(none) =~= Seq::<u8>::empty());
    }
    match fill_payload(&mut output, topic, message_type, sequence, message) {
        Ok(_) => Ok(output.text),
        Err(error) => Err(error),
    }
}

fn fill_payload(
    output: &mut Output,
    topic: &str,
    message_type: &str,
    sequence: u64,
    message: &Message,
) -> (result: Result<(), &'static str>)
    requires
        old(output).well_formed(),
    ensures
        (final(output)@, failure(result)) == emit(
            old(output)@,
            payload_pieces(topic@, message_type@, sequence as nat, message@),
        ),
{
    let ghost start = output@;
    let ghost p1 = seq![Piece::Text("{\"topic\":"@)];
    let ghost p2 = p1 + seq![Piece::Text(json_quoted(topic@))];
    let ghost p3 = p2 + seq![Piece::Text(",\"message_type\":"@)];
    let ghost p4 = p3 + seq![Piece::Text(json_quoted(message_type@))];
    let ghost p5 = p4 + seq![Piece::Text(",\"sequence\":"@)];
    let ghost p6 = p5 + integer_pieces(sequence as int);
    let ghost p7 = p6 + seq![Piece::Text(",\"message\":"@)];
    let ghost p8 = p7 + message_pieces(message@, 0);
    let ghost p9 = p8 + seq![Piece::Text("}"@)];
    proof {
        assert(p9 =~= payload_pieces(topic@, message_type@, sequence as nat, message@));
        lemma_emit_add(start, p1, seq![Piece::Text(json_quoted(topic@))]);
        lemma_emit_add(start, p2, seq![Piece::Text(",\"message_type\":"@)]);
        lemma_emit_add(start, p3, seq![Piece::Text(json_quoted(message_type@))]);
        lemma_emit_add(start, p4, seq![Piece::Text(",\"sequence\":"@)]);
        lemma_emit_add(start, p5, integer_pieces(sequence as int));
        lemma_emit_add(start, p6, seq![Piece::Text(",\"message\":"@)]);
        lemma_emit_add(start, p7, message_pieces(message@, 0));
        lemma_emit_add(start, p8, seq![Piece::Text("}"@)]);
    }
    match output.push("{\"topic\":") {
        Ok(_) => {},
        Err(error) => {
            return Err(error);
        },
    }
    match output.string(topic) {
        Ok(_) => {},
        Err(error) => {
            return Err(error);
        },
    }
    match output.push(",\"message_type\":") {
        Ok(_) => {},
        Err(error) => {
            return Err(error);
        },
    }
    match output.string(message_type) {
        Ok(_) => {},
        Err(error) => {
            return Err(error);
        },
    }
    match output.push(",\"sequence\":") {
        Ok(_) => {},
        Err(error) => {
            return Err(error);
        },
    }
    match output.number(sequence as i128) {
        Ok(_) => {},
        Err(error) => {
            return Err(error);
        },
    }
    match output.push(",\"message\":") {
        Ok(_) => {},
        Err(error) => {
            return Err(error);
        },
    }
    match output.message(message, 0) {
        Ok(_) => {},
        Err(error) => {
            return Err(error);
        },
    }
    output.push("}")
}

/// The JSON value of a number; one that is not finite is `null`.
pub open spec fn real_tree(number: RealView) -> JsonView {
    match number {
        RealView::Finite(text) => JsonView::Float(text),
        _ => JsonView::Null,
    }
}

/// The JSON value of a simple value.
pub open spec fn simple_tree(simple: SimpleView) -> JsonView
    decreases simple,
{
    match simple {
        SimpleView::Real(_, number) => real_tree(number),
        SimpleView::Nearest(_) => JsonView::Null,
        SimpleView::LongDouble => JsonView::Null,
        SimpleView::Integer(_, value) => JsonView::Integer(value),
        SimpleView::Boolean(value) => JsonView::Bool(value),
        SimpleView::Text { text, .. } => JsonView::Text(text),
        SimpleView::Message(message) => message_tree(message),
    }
}

/// The JSON values of the elements of a list.
pub open spec fn element_trees(elements: Seq<SimpleView>) -> Seq<JsonView>
    decreases elements,
{
    Seq::new(
        elements.len(),
        |i: int|
            if 0 <= i < elements.len() {
                simple_tree(elements[i])
            } else {
                JsonView::Null
            },
    )
}

/// The JSON value of the value of a field.
pub open spec fn value_tree(value: ValueView) -> JsonView
    decreases value,
{
    match value {
        ValueView::Simple(simple) => simple_tree(simple),
        ValueView::Array(list) => JsonView::Array(element_trees(list.elements)),
        ValueView::Sequence(list) => JsonView::Array(element_trees(list.elements)),
        ValueView::BoundedSequence { list, .. } => JsonView::Array(element_trees(list.elements)),
    }
}

/// The entries of the JSON object with the given fields.
pub open spec fn field_trees(fields: Seq<FieldView>) -> Seq<EntryView>
    decreases fields,
{
    Seq::new(
        fields.len(),
        |i: int|
            if 0 <= i < fields.len() {
                EntryView { key: fields[i].name, value: value_tree(fields[i].value) }
            } else {
                EntryView { key: Seq::empty(), value: JsonView::Null }
            },
    )
}

/// The JSON object of a message: an entry for each field, in order.
pub open spec fn message_tree(message: MessageView) -> JsonView
    decreases message,
{
    JsonView::Object(field_trees(message.fields))
}

/// Whether a simple value can be encoded where a message would stand `depth`
/// levels deep. A number that has not been rounded has no text yet.
pub open spec fn encodable_simple(simple: SimpleView, depth: nat) -> bool
    decreases simple,
{
    match simple {
        SimpleView::Nearest(_) => false,
        SimpleView::LongDouble => false,
        SimpleView::Message(message) => encodable_message(message, depth),
        _ => true,
    }
}

/// Whether a list can be encoded.
pub open spec fn encodable_list(list: ListView, depth: nat) -> bool
    decreases list,
{
    &&& !(list.prototype is LongDouble)
    &&& forall|i: int|
        0 <= i < list.elements.len() ==> encodable_simple(#[trigger] list.elements[i], depth)
}

/// Whether the value of a field can be encoded.
pub open spec fn encodable_value(value: ValueView, depth: nat) -> bool
    decreases value,
{
    match value {
        ValueView::Simple(simple) => encodable_simple(simple, depth),
        ValueView::Array(list) => encodable_list(list, depth),
        ValueView::Sequence(list) => encodable_list(list, depth),
        ValueView::BoundedSequence { list, .. } => encodable_list(list, depth),
    }
}

/// Whether a message that stands `depth` levels deep can be encoded: it holds
/// no extended-precision number, none that has not been rounded, and no message
/// more than 64 levels deep.
pub open spec fn encodable_message(message: MessageView, depth: nat) -> bool
    decreases message,
{
    &&& depth <= 64
    &&& forall|i: int|
        0 <= i < message.fields.len() ==> encodable_value(
            (#[trigger] message.fields[i]).value,
            depth + 1,
        )
}

/// The text of a notification payload.
pub open spec fn payload_text(
    topic: Seq<char>,
    message_type: Seq<char>,
    sequence: nat,
    message: MessageView,
) -> Seq<char> {
    "{\"topic\":"@ + json_quoted(topic) + ",\"message_type\":"@ + json_quoted(message_type)
        + ",\"sequence\":"@ + integer_text(sequence as int) + ",\"message\":"@ + json_text(
        message_tree(message),
    ) + "}"@
}

/// The texts of `pieces`, one after the other.
pub open spec fn joined(pieces: Seq<Piece>) -> Seq<char>
    decreases pieces.len(),
{
    if pieces.len() == 0 {
        Seq::empty()
    } else {
        match pieces.last() {
            Piece::Text(text) => joined(pieces.drop_last()) + text,
            Piece::Fault(_) => joined(pieces.drop_last()),
        }
    }
}

/// Whether no piece is a fault.
pub open spec fn clean(pieces: Seq<Piece>) -> bool {
    forall|i: int| 0 <= i < pieces.len() ==> #[trigger] pieces[i] is Text
}

/// Pieces are appended in full exactly where none is a fault and the whole
/// text is within the limit.
pub proof fn lemma_emit_clean(text: Seq<char>, pieces: Seq<Piece>)
    requires
        utf8_len(text) <= LIMIT,
    ensures
        utf8_len(emit(text, pieces).0) <= LIMIT,
        emit(text, pieces).1 is None <==> clean(pieces) && utf8_len(text + joined(pieces))
            <= LIMIT,
        emit(text, pieces).1 is None ==> emit(text, pieces).0 == text + joined(pieces),
    decreases pieces.len(),
{
    if pieces.len() == 0 {
        assert(text + joined(pieces) =~= text);
    } else {
        let init = pieces.drop_last();
        lemma_emit_clean(text, init);
        assert(clean(pieces) <==> clean(init) && pieces.last() is Text) by {
            assert(forall|i: int| 0 <= i < init.len() ==> init[i] == #[trigger] pieces[i]);
        }
        if let Piece::Text(more) = pieces.last() {
            lemma_utf8_len_add(text + joined(init), more);
            assert(text + joined(pieces) =~= text + joined(init) + more);
            lemma_utf8_len_add(emit(text, init).0, more);
        }
    }
}

/// The texts of two lists of pieces, one after the other.
pub proof fn lemma_joined_add(a: Seq<Piece>, b: Seq<Piece>)
    ensures
        joined(a + b) == joined(a) + joined(b),
        clean(a + b) <==> clean(a) && clean(b),
    decreases b.len(),
{
    if b.len() == 0 {
        assert(a + b =~= a);
        assert(joined(a) + joined(b) =~= joined(a));
    } else {
        lemma_joined_add(a, b.drop_last());
        assert((a + b).drop_last() =~= a + b.drop_last());
        assert((a + b).last() == b.last());
        assert(joined(a + b) =~= joined(a) + joined(b));
        let init = b.drop_last();
        assert(clean(b) <==> clean(init) && b.last() is Text) by {
            assert(forall|i: int| 0 <= i < init.len() ==> init[i] == #[trigger] b[i]);
        }
        let sum = a + init;
        assert(clean(a + b) <==> clean(sum) && b.last() is Text) by {
            assert(forall|i: int| 0 <= i < sum.len() ==> sum[i] == #[trigger] (a + b)[i]);
        }
    }
}

/// One piece makes up its text.
pub proof fn lemma_joined_text(text: Seq<char>)
    ensures
        joined(seq![Piece::Text(text)]) == text,
        clean(seq![Piece::Text(text)]),
{
    let pieces = seq![Piece::Text(text)];
    assert(pieces.drop_last() =~= Seq::empty());
    assert(joined(pieces.drop_last()) =~= Seq::empty());
    assert(Seq::empty() + text =~= text);
}

proof fn lemma_simple(simple: SimpleView, depth: nat)
    ensures
        clean(simple_pieces(simple, depth)) <==> encodable_simple(simple, depth),
        encodable_simple(simple, depth) ==> joined(simple_pieces(simple, depth)) == json_text(
            simple_tree(simple),
        ),
    decreases simple,
{
    match simple {
        SimpleView::Real(_, number) => {
            match number {
                RealView::Finite(text) => {
                    lemma_finite_pieces(text);
                },
                _ => {
                    lemma_joined_text("null"@);
                },
            }
        },
        SimpleView::Nearest(_) => {
            assert(!(simple_pieces(simple, depth)[0] is Text));
        },
        SimpleView::LongDouble => {
            assert(!(simple_pieces(simple, depth)[0] is Text));
        },
        SimpleView::Integer(_, value) => {
            lemma_integer_pieces(value);
        },
        SimpleView::Boolean(value) => {
            lemma_joined_text("true"@);
            lemma_joined_text("false"@);
        },
        SimpleView::Text { text, .. } => {
            lemma_joined_text(json_quoted(text));
        },
        SimpleView::Message(message) => {
            lemma_message(message, depth);
        },
    }
}

proof fn lemma_separator(count: nat)
    ensures
        clean(separator(count)),
        joined(separator(count)) == (if count > 1 {
            ","@
        } else {
            Seq::empty()
        }),
{
    lemma_joined_text(","@);
}

proof fn lemma_elements(elements: Seq<SimpleView>, depth: nat)
    ensures
        clean(element_pieces(elements, depth)) <==> forall|i: int|
            0 <= i < elements.len() ==> encodable_simple(#[trigger] elements[i], depth),
        clean(element_pieces(elements, depth)) ==> joined(element_pieces(elements, depth))
            == crate::json::items_text(element_trees(elements)),
    decreases elements,
{
    if elements.len() > 0 {
        let init = elements.drop_last();
        let rest = element_pieces(init, depth);
        let comma = separator(elements.len());
        lemma_elements(init, depth);
        lemma_simple(elements.last(), depth);
        lemma_separator(elements.len());
        lemma_joined_add(rest, comma);
        lemma_joined_add(rest + comma, simple_pieces(elements.last(), depth));
        assert(element_trees(elements).drop_last() =~= element_trees(init));
        assert(element_trees(elements).last() == simple_tree(elements.last()));
        assert(forall|i: int| 0 <= i < init.len() ==> init[i] == #[trigger] elements[i]);
        assert((forall|i: int|
            0 <= i < elements.len() ==> encodable_simple(#[trigger] elements[i], depth)) <==> (
        forall|i: int| 0 <= i < init.len() ==> encodable_simple(#[trigger] init[i], depth))
            && encodable_simple(elements.last(), depth)) by {
            if (forall|i: int| 0 <= i < init.len() ==> encodable_simple(#[trigger] init[i], depth))
                && encodable_simple(elements.last(), depth) {
                assert forall|i: int| 0 <= i < elements.len() implies encodable_simple(
                    #[trigger] elements[i],
                    depth,
                ) by {
                    if i < init.len() {
                        assert(encodable_simple(init[i], depth));
                    }
                }
            }
        }
    }
}

proof fn lemma_list(list: ListView, depth: nat)
    ensures
        clean(list_pieces(list, depth)) <==> encodable_list(list, depth),
        encodable_list(list, depth) ==> joined(list_pieces(list, depth)) == json_text(
            JsonView::Array(element_trees(list.elements)),
        ),
    decreases list,
{
    if list.prototype is LongDouble {
        assert(!(list_pieces(list, depth)[0] is Text));
    } else {
        let open = seq![Piece::Text("["@)];
        let inner = element_pieces(list.elements, depth);
        lemma_elements(list.elements, depth);
        lemma_joined_text("["@);
        lemma_joined_text("]"@);
        lemma_joined_add(open, inner);
        lemma_joined_add(open + inner, seq![Piece::Text("]"@)]);
    }
}

proof fn lemma_value(value: ValueView, depth: nat)
    ensures
        clean(value_pieces(value, depth)) <==> encodable_value(value, depth),
        encodable_value(value, depth) ==> joined(value_pieces(value, depth)) == json_text(
            value_tree(value),
        ),
    decreases value,
{
    match value {
        ValueView::Simple(simple) => lemma_simple(simple, depth),
        ValueView::Array(list) => lemma_list(list, depth),
        ValueView::Sequence(list) => lemma_list(list, depth),
        ValueView::BoundedSequence { list, .. } => lemma_list(list, depth),
    }
}

proof fn lemma_named(field: FieldView, depth: nat)
    ensures
        clean(named_pieces(field, depth)) <==> encodable_value(field.value, depth),
        encodable_value(field.value, depth) ==> joined(named_pieces(field, depth)) == json_quoted(
            field.name,
        ) + ":"@ + json_text(value_tree(field.value)),
    decreases field,
{
    let name = seq![Piece::Text(json_quoted(field.name))];
    let colon = seq![Piece::Text(":"@)];
    let item = value_pieces(field.value, depth);
    lemma_value(field.value, depth);
    lemma_joined_text(json_quoted(field.name));
    lemma_joined_text(":"@);
    lemma_joined_add(name, colon);
    lemma_joined_add(name + colon, item);
    assert(named_pieces(field, depth) =~= name + colon + item);
}

proof fn lemma_fields(fields: Seq<FieldView>, depth: nat)
    ensures
        clean(field_pieces(fields, depth)) <==> forall|i: int|
            0 <= i < fields.len() ==> encodable_value((#[trigger] fields[i]).value, depth),
        clean(field_pieces(fields, depth)) ==> joined(field_pieces(fields, depth))
            == crate::json::entries_text(field_trees(fields)),
    decreases fields,
{
    if fields.len() > 0 {
        let init = fields.drop_last();
        let rest = field_pieces(init, depth);
        let comma = separator(fields.len());
        lemma_fields(init, depth);
        lemma_named(fields.last(), depth);
        lemma_separator(fields.len());
        lemma_joined_add(rest, comma);
        lemma_joined_add(rest + comma, named_pieces(fields.last(), depth));
        let trees = field_trees(fields);
        assert(trees.drop_last() =~= field_trees(init));
        assert(trees.last() == (EntryView {
            key: fields.last().name,
            value: value_tree(fields.last().value),
        }));
        assert(forall|i: int| 0 <= i < init.len() ==> init[i] == #[trigger] fields[i]);
        assert((forall|i: int|
            0 <= i < fields.len() ==> encodable_value((#[trigger] fields[i]).value, depth)) <==> (
        forall|i: int| 0 <= i < init.len() ==> encodable_value((#[trigger] init[i]).value, depth))
            && encodable_value(fields.last().value, depth)) by {
            if (forall|i: int|
                0 <= i < init.len() ==> encodable_value((#[trigger] init[i]).value, depth))
                && encodable_value(fields.last().value, depth) {
                assert forall|i: int| 0 <= i < fields.len() implies encodable_value(
                    (#[trigger] fields[i]).value,
                    depth,
                ) by {
                    if i < init.len() {
                        assert(encodable_value(init[i].value, depth));
                    }
                }
            }
        }
        if clean(field_pieces(fields, depth)) {
            assert(joined(field_pieces(fields, depth)) =~= crate::json::entries_text(trees));
        }
    }
}

proof fn lemma_message(message: MessageView, depth: nat)
    ensures
        clean(message_pieces(message, depth)) <==> encodable_message(message, depth),
        encodable_message(message, depth) ==> joined(message_pieces(message, depth)) == json_text(
            message_tree(message),
        ),
    decreases message,
{
    if depth > 64 {
        assert(!(message_pieces(message, depth)[0] is Text));
    } else {
        let open = seq![Piece::Text("{"@)];
        let inner = field_pieces(message.fields, depth + 1);
        lemma_fields(message.fields, depth + 1);
        lemma_joined_text("{"@);
        lemma_joined_text("}"@);
        lemma_joined_add(open, inner);
        lemma_joined_add(open + inner, seq![Piece::Text("}"@)]);
    }
}

/// The pieces of a payload are free of faults exactly where the message can be
/// encoded, and together they are the text of the payload.
pub proof fn lemma_payload(
    topic: Seq<char>,
    message_type: Seq<char>,
    sequence: nat,
    message: MessageView,
)
    ensures
        clean(payload_pieces(topic, message_type, sequence, message)) <==> encodable_message(
            message,
            0,
        ),
        encodable_message(message, 0) ==> joined(
            payload_pieces(topic, message_type, sequence, message),
        ) == payload_text(topic, message_type, sequence, message),
{
    let p1 = seq![Piece::Text("{\"topic\":"@)];
    let p2 = seq![Piece::Text(json_quoted(topic))];
    let p3 = seq![Piece::Text(",\"message_type\":"@)];
    let p4 = seq![Piece::Text(json_quoted(message_type))];
    let p5 = seq![Piece::Text(",\"sequence\":"@)];
    let p6 = integer_pieces(sequence as int);
    let p7 = seq![Piece::Text(",\"message\":"@)];
    let p8 = message_pieces(message, 0);
    let p9 = seq![Piece::Text("}"@)];
    lemma_joined_text("{\"topic\":"@);
    lemma_joined_text(json_quoted(topic));
    lemma_joined_text(",\"message_type\":"@);
    lemma_joined_text(json_quoted(message_type));
    lemma_joined_text(",\"sequence\":"@);
    lemma_integer_pieces(sequence as int);
    lemma_joined_text(",\"message\":"@);
    lemma_message(message, 0);
    lemma_joined_text("}"@);
    lemma_joined_add(p1, p2);
    lemma_joined_add(p1 + p2, p3);
    lemma_joined_add(p1 + p2 + p3, p4);
    lemma_joined_add(p1 + p2 + p3 + p4, p5);
    lemma_joined_add(p1 + p2 + p3 + p4 + p5, p6);
    lemma_joined_add(p1 + p2 + p3 + p4 + p5 + p6, p7);
    lemma_joined_add(p1 + p2 + p3 + p4 + p5 + p6 + p7, p8);
    lemma_joined_add(p1 + p2 + p3 + p4 + p5 + p6 + p7 + p8, p9);
    assert(payload_pieces(topic, message_type, sequence, message) =~= p1 + p2 + p3 + p4 + p5 + p6
        + p7 + p8 + p9);
}

} // verus!
