//! ROS messages as plain values.
//!
//! A message is a list of named fields. Every list of elements carries a
//! prototype, the default element of its type, so that the type of an empty
//! list is known and new elements can be made.
use vstd::prelude::*;
use vstd::string::*;

use crate::text::characters;

verus! {

/// The integer types of ROS messages; bytes and characters are integers too.
#[derive(Clone, Copy, PartialEq, Eq, Structural)]
pub enum Width {
    U8,
    U16,
    U32,
    U64,
    I8,
    I16,
    I32,
    I64,
}

impl Width {
    /// The least value of the type.
    pub open spec fn least(self) -> int {
        match self {
            Width::U8 => 0,
            Width::U16 => 0,
            Width::U32 => 0,
            Width::U64 => 0,
            Width::I8 => i8::MIN as int,
            Width::I16 => i16::MIN as int,
            Width::I32 => i32::MIN as int,
            Width::I64 => i64::MIN as int,
        }
    }

    /// The greatest value of the type.
    pub open spec fn greatest(self) -> int {
        match self {
            Width::U8 => u8::MAX as int,
            Width::U16 => u16::MAX as int,
            Width::U32 => u32::MAX as int,
            Width::U64 => u64::MAX as int,
            Width::I8 => i8::MAX as int,
            Width::I16 => i16::MAX as int,
            Width::I32 => i32::MAX as int,
            Width::I64 => i64::MAX as int,
        }
    }

    /// Whether `value` is a value of the type.
    pub open spec fn holds(self, value: int) -> bool {
        self.least() <= value <= self.greatest()
    }

    /// Whether `value` is a value of the type.
    pub fn contains(self, value: i128) -> (result: bool)
        ensures
            result == self.holds(value as int),
    {
        match self {
            Width::U8 => 0 <= value && value <= 255,
            Width::U16 => 0 <= value && value <= 65535,
            Width::U32 => 0 <= value && value <= 4294967295,
            Width::U64 => 0 <= value && value <= 18446744073709551615,
            Width::I8 => -128 <= value && value <= 127,
            Width::I16 => -32768 <= value && value <= 32767,
            Width::I32 => -2147483648 <= value && value <= 2147483647,
            Width::I64 => -9223372036854775808 <= value && value <= 9223372036854775807,
        }
    }
}

/// The floating-point types of ROS messages: 32 bits, and 64 bits.
#[derive(Clone, Copy, PartialEq, Eq, Structural)]
pub enum Precision {
    Single,
    Double,
}

/// The least number without a fraction that is infinite as a number of 32 bits.
///
/// It is the shortest text of the double halfway between the greatest number of
/// 32 bits and the next power of two.
pub const SINGLE_END: u128 = 340282356779733660000000000000000000000;

/// Whether a character is a decimal digit.
pub open spec fn is_digit(c: char) -> bool {
    '0' <= c <= '9'
}

/// The number that decimal digits denote.
pub open spec fn digits_value(digits: Seq<char>) -> int
    decreases digits.len(),
{
    if digits.len() == 0 {
        0
    } else {
        digits_value(digits.drop_last()) * 10 + (digits.last() as int - '0' as int)
    }
}

/// The decimal digits at the beginning of a text.
pub open spec fn leading_digits(text: Seq<char>) -> Seq<char>
    decreases text.len(),
{
    if text.len() == 0 || !is_digit(text[0]) {
        Seq::empty()
    } else {
        seq![text[0]] + leading_digits(text.drop_first())
    }
}

/// A text without a minus sign at its beginning.
pub open spec fn unsigned(text: Seq<char>) -> Seq<char> {
    if text.len() > 0 && text[0] == '-' {
        text.drop_first()
    } else {
        text
    }
}

/// Whether the number that a decimal text denotes is finite as one of 32 bits.
pub open spec fn fits_single(text: Seq<char>) -> bool {
    digits_value(leading_digits(unsigned(text))) < SINGLE_END
}

/// Whether the number that a decimal text denotes is finite in a precision.
/// Every decimal text is that of a finite double.
pub open spec fn fits(precision: Precision, text: Seq<char>) -> bool {
    match precision {
        Precision::Single => fits_single(text),
        Precision::Double => true,
    }
}

impl Precision {
    /// Whether the number that a decimal text denotes is finite.
    pub fn admits(self, text: &str) -> (result: bool)
        ensures
            result == fits(self, text@),
    {
        match self {
            Precision::Single => is_single(text),
            Precision::Double => true,
        }
    }
}

/// Whether the number that a decimal text denotes is finite as one of 32 bits.
pub fn is_single(text: &str) -> (result: bool)
    ensures
        result == fits_single(text@),
{
    let letters = characters(text);
    let signed: bool = letters.len() > 0 && letters[0] == '-';
    let first: usize = if signed {
        1
    } else {
        0
    };
    let ghost body = unsigned(text@);
    let mut value: u128 = 0;
    let mut i: usize = first;
    assert(body =~= text@.skip(first as int));
    assert(body.take(0) =~= Seq::empty());
    assert(body.skip(0) =~= body);
    assert(body.take(0) + leading_digits(body) =~= leading_digits(body));
    while i < letters.len()
        invariant
            first <= i <= letters@.len(),
            letters@ == text@,
            first <= 1,
            body == text@.skip(first as int),
            body == unsigned(text@),
            value == digits_value(body.take(i - first)),
            value < SINGLE_END,
            leading_digits(body) == body.take(i - first) + leading_digits(body.skip(i - first)),
        decreases letters@.len() - i,
    {
        let c = letters[i];
        let ghost k = i - first;
        assert(body.skip(k)[0] == c);
        let digit: u128 = match digit_of(c) {
            Some(digit) => digit,
            None => {
                assert(body.take(k) + Seq::empty() =~= body.take(k));
                return true;
            },
        };
        proof {
            assert(body.skip(k).drop_first() =~= body.skip(k + 1));
            assert(body.take(k + 1) =~= body.take(k) + seq![c]);
            assert(body.take(k + 1).drop_last() =~= body.take(k));
            assert(leading_digits(body) =~= body.take(k + 1) + leading_digits(body.skip(k + 1)));
            lemma_more_digits(body.take(k + 1), leading_digits(body.skip(k + 1)));
            lemma_leading_digits(body.skip(k + 1));
            lemma_leading_digits(body);
        }
        if value >= 34028235677973366000000000000000000000 {
            return false;
        }
        value = value * 10 + digit;
        if value >= SINGLE_END {
            return false;
        }
        i += 1;
    }
    assert(body.take(i - first) =~= body);
    assert(body.skip(i - first) =~= Seq::empty());
    assert(body + Seq::empty() =~= body);
    true
}

fn digit_of(c: char) -> (result: Option<u128>)
    ensures
        match result {
            Some(digit) => is_digit(c) && digit == c as int - '0' as int,
            None => !is_digit(c),
        },
{
    let code: u32 = c as u32;
    if 48 <= code && code <= 57 {
        Some((code - 48) as u128)
    } else {
        None
    }
}

/// The digits at the beginning of a text are digits.
proof fn lemma_leading_digits(text: Seq<char>)
    ensures
        forall|i: int|
            0 <= i < leading_digits(text).len() ==> is_digit(#[trigger] leading_digits(text)[i]),
    decreases text.len(),
{
    if text.len() > 0 && is_digit(text[0]) {
        let rest = leading_digits(text.drop_first());
        lemma_leading_digits(text.drop_first());
        assert forall|i: int| 0 <= i < leading_digits(text).len() implies is_digit(
            #[trigger] leading_digits(text)[i],
        ) by {
            if i > 0 {
                assert(leading_digits(text)[i] == rest[i - 1]);
            }
        }
    }
}

/// More digits denote no lesser number.
proof fn lemma_more_digits(digits: Seq<char>, more: Seq<char>)
    ensures
        (forall|i: int| 0 <= i < more.len() ==> is_digit(#[trigger] more[i])) && digits_value(digits)
            >= 0 ==> digits_value(digits + more) >= digits_value(digits),
    decreases more.len(),
{
    if more.len() == 0 {
        assert(digits + more =~= digits);
    } else {
        lemma_more_digits(digits, more.drop_last());
        assert((digits + more).drop_last() =~= digits + more.drop_last());
        assert((digits + more).last() == more.last());
        if forall|i: int| 0 <= i < more.len() ==> is_digit(#[trigger] more[i]) {
            assert(is_digit(more[more.len() - 1]));
        }
    }
}

/// Whether a text is a decimal number: digits, with a minus sign before them or
/// not, and with a point and more digits behind them or not.
pub open spec fn is_decimal(text: Seq<char>) -> bool {
    exists|whole: int| #[trigger] is_split(unsigned(text), whole)
}

/// Whether a text is `whole` digits, and a point and more digits or nothing.
pub open spec fn is_split(text: Seq<char>, whole: int) -> bool {
    &&& 0 < whole <= text.len()
    &&& forall|i: int| 0 <= i < text.len() && i != whole ==> is_digit(#[trigger] text[i])
    &&& whole == text.len() || (text[whole] == '.' && whole + 1 < text.len())
}

/// A floating-point number.
///
/// A finite number is carried by the shortest decimal text that denotes it in its
/// precision.
pub enum Real {
    Finite(String),
    Nan,
    Infinite { negative: bool },
}

/// The mathematical content of a [`Real`].
pub enum RealView {
    Finite(Seq<char>),
    Nan,
    Infinite { negative: bool },
}

/// A value that is no list.
pub enum Simple {
    Real(Precision, Real),
    /// The number of 32 bits nearest to the double that a decimal text denotes:
    /// what a JSON number becomes in a field of that precision. Its own text is
    /// known once the number has been rounded.
    Nearest(String),
    /// An extended-precision number, whose value is never looked at.
    LongDouble,
    Integer(Width, i128),
    Boolean(bool),
    /// A text, with the greatest number of characters that its type allows.
    Text { bound: Option<usize>, text: String },
    Message(Message),
}

/// The mathematical content of a [`Simple`].
pub enum SimpleView {
    Real(Precision, RealView),
    Nearest(Seq<char>),
    LongDouble,
    Integer(Width, int),
    Boolean(bool),
    Text { bound: Option<usize>, text: Seq<char> },
    Message(MessageView),
}

/// Elements of one type.
pub struct List {
    pub prototype: Simple,
    pub elements: Vec<Simple>,
}

/// The mathematical content of a [`List`].
pub struct ListView {
    pub prototype: SimpleView,
    pub elements: Seq<SimpleView>,
}

/// The value of a field.
pub enum Value {
    Simple(Simple),
    /// A list of fixed length.
    Array(List),
    /// A list of any length.
    Sequence(List),
    /// A list of at most `bound` elements.
    BoundedSequence { bound: usize, list: List },
}

/// The mathematical content of a [`Value`].
pub enum ValueView {
    Simple(SimpleView),
    Array(ListView),
    Sequence(ListView),
    BoundedSequence { bound: usize, list: ListView },
}

/// A named value of a message.
pub struct Field {
    pub name: String,
    pub value: Value,
}

/// The mathematical content of a [`Field`].
pub struct FieldView {
    pub name: Seq<char>,
    pub value: ValueView,
}

/// A message.
pub struct Message {
    pub fields: Vec<Field>,
}

/// The mathematical content of a [`Message`].
pub struct MessageView {
    pub fields: Seq<FieldView>,
}

/// The content of a number.
pub open spec fn real_view(number: Real) -> RealView {
    match number {
        Real::Finite(text) => RealView::Finite(text@),
        Real::Nan => RealView::Nan,
        Real::Infinite { negative } => RealView::Infinite { negative },
    }
}

/// The content of a simple value.
pub open spec fn simple_view(simple: Simple) -> SimpleView
    decreases simple,
{
    match simple {
        Simple::Real(precision, number) => SimpleView::Real(precision, real_view(number)),
        Simple::Nearest(text) => SimpleView::Nearest(text@),
        Simple::LongDouble => SimpleView::LongDouble,
        Simple::Integer(width, value) => SimpleView::Integer(width, value as int),
        Simple::Boolean(value) => SimpleView::Boolean(value),
        Simple::Text { bound, text } => SimpleView::Text { bound, text: text@ },
        Simple::Message(message) => SimpleView::Message(message_view(message)),
    }
}

/// The content of a list.
pub open spec fn list_view(list: List) -> ListView
    decreases list,
{
    ListView {
        prototype: simple_view(list.prototype),
        elements: Seq::new(
            list.elements@.len(),
            |i: int|
                if 0 <= i < list.elements@.len() {
                    simple_view(list.elements@[i])
                } else {
                    SimpleView::LongDouble
                },
        ),
    }
}

/// The content of a value.
pub open spec fn value_view(value: Value) -> ValueView
    decreases value,
{
    match value {
        Value::Simple(simple) => ValueView::Simple(simple_view(simple)),
        Value::Array(list) => ValueView::Array(list_view(list)),
        Value::Sequence(list) => ValueView::Sequence(list_view(list)),
        Value::BoundedSequence { bound, list } => ValueView::BoundedSequence {
            bound,
            list: list_view(list),
        },
    }
}

/// The content of a field.
pub open spec fn field_view(field: Field) -> FieldView
    decreases field,
{
    FieldView { name: field.name@, value: value_view(field.value) }
}

/// The content of a message.
pub open spec fn message_view(message: Message) -> MessageView
    decreases message,
{
    MessageView {
        fields: Seq::new(
            message.fields@.len(),
            |i: int|
                if 0 <= i < message.fields@.len() {
                    field_view(message.fields@[i])
                } else {
                    FieldView {
                        name: Seq::empty(),
                        value: ValueView::Simple(SimpleView::LongDouble),
                    }
                },
        ),
    }
}

impl View for Real {
    type V = RealView;

    open spec fn view(&self) -> RealView {
        real_view(*self)
    }
}

impl View for Simple {
    type V = SimpleView;

    open spec fn view(&self) -> SimpleView {
        simple_view(*self)
    }
}

impl View for List {
    type V = ListView;

    open spec fn view(&self) -> ListView {
        list_view(*self)
    }
}

impl View for Value {
    type V = ValueView;

    open spec fn view(&self) -> ValueView {
        value_view(*self)
    }
}

impl View for Field {
    type V = FieldView;

    open spec fn view(&self) -> FieldView {
        field_view(*self)
    }
}

impl View for Message {
    type V = MessageView;

    open spec fn view(&self) -> MessageView {
        message_view(*self)
    }
}

/// The contents of the elements of a list.
pub open spec fn simple_views(elements: Seq<Simple>) -> Seq<SimpleView> {
    elements.map_values(|element: Simple| element@)
}

/// The contents of the fields of a message.
pub open spec fn field_views(fields: Seq<Field>) -> Seq<FieldView> {
    fields.map_values(|field: Field| field@)
}

impl Real {
    /// A second number with the same content.
    pub fn copy(&self) -> (result: Real)
        ensures
            result@ == self@,
    {
        match self {
            Real::Finite(text) => Real::Finite(text.clone()),
            Real::Nan => Real::Nan,
            Real::Infinite { negative } => Real::Infinite { negative: *negative },
        }
    }
}

impl Simple {
    /// A second value with the same content.
    pub fn copy(&self) -> (result: Simple)
        ensures
            result@ == self@,
        decreases self,
    {
        match self {
            Simple::Real(precision, number) => Simple::Real(*precision, number.copy()),
            Simple::Nearest(text) => Simple::Nearest(text.clone()),
            Simple::LongDouble => Simple::LongDouble,
            Simple::Integer(width, value) => Simple::Integer(*width, *value),
            Simple::Boolean(value) => Simple::Boolean(*value),
            Simple::Text { bound, text } => Simple::Text { bound: *bound, text: text.clone() },
            Simple::Message(message) => Simple::Message(message.copy()),
        }
    }
}

impl List {
    /// The elements of the content are the contents of the elements.
    pub proof fn lemma_view(&self)
        ensures
            self@.elements == simple_views(self.elements@),
    {
        assert(self@.elements =~= simple_views(self.elements@));
    }

    /// A second list with the same content.
    pub fn copy(&self) -> (result: List)
        ensures
            result@ == self@,
        decreases self,
    {
        let mut elements: Vec<Simple> = Vec::new();
        let mut i: usize = 0;
        while i < self.elements.len()
            invariant
                i <= self.elements@.len(),
                elements@.len() == i,
                forall|k: int| 0 <= k < i ==> (#[trigger] elements@[k])@ == self.elements@[k]@,
            decreases self.elements@.len() - i,
        {
            assert(decreases_to!(self => self.elements));
            assert(decreases_to!(self.elements => self.elements@));
            elements.push(self.elements[i].copy());
            i += 1;
        }
        let result = List { prototype: self.prototype.copy(), elements };
        assert(result@.elements =~= self@.elements);
        result
    }
}

impl Value {
    /// A second value with the same content.
    pub fn copy(&self) -> (result: Value)
        ensures
            result@ == self@,
        decreases self,
    {
        match self {
            Value::Simple(simple) => Value::Simple(simple.copy()),
            Value::Array(list) => Value::Array(list.copy()),
            Value::Sequence(list) => Value::Sequence(list.copy()),
            Value::BoundedSequence { bound, list } => Value::BoundedSequence {
                bound: *bound,
                list: list.copy(),
            },
        }
    }
}

impl Message {
    /// The fields of the content are the contents of the fields.
    pub proof fn lemma_view(&self)
        ensures
            self@.fields == field_views(self.fields@),
    {
        assert(self@.fields =~= field_views(self.fields@));
    }

    /// A second message with the same content.
    pub fn copy(&self) -> (result: Message)
        ensures
            result@ == self@,
        decreases self,
    {
        let mut fields: Vec<Field> = Vec::new();
        let mut i: usize = 0;
        while i < self.fields.len()
            invariant
                i <= self.fields@.len(),
                fields@.len() == i,
                forall|k: int| 0 <= k < i ==> (#[trigger] fields@[k])@ == self.fields@[k]@,
            decreases self.fields@.len() - i,
        {
            assert(decreases_to!(self => self.fields));
            assert(decreases_to!(self.fields => self.fields@));
            assert(decreases_to!(self.fields@ => self.fields@[i as int]));
            assert(decreases_to!(self.fields@[i as int] => self.fields@[i as int].value));
            fields.push(
                Field { name: self.fields[i].name.clone(), value: self.fields[i].value.copy() },
            );
            i += 1;
        }
        let result = Message { fields };
        assert(result@.fields =~= self@.fields);
        result
    }

    /// The position of the first field called `name`.
    pub fn find(&self, name: &String) -> (result: Option<usize>)
        ensures
            match result {
                Some(i) => i < self.fields@.len() && find_field(self@, name@) == Some(i as int),
                None => find_field(self@, name@) is None,
            },
    {
        let mut i: usize = 0;
        while i < self.fields.len()
            invariant
                i <= self.fields@.len(),
                forall|k: int| 0 <= k < i ==> #[trigger] self@.fields[k].name != name@,
            decreases self.fields@.len() - i,
        {
            assert(self@.fields[i as int].name == self.fields@[i as int].name@);
            if self.fields[i].name == *name {
                proof {
                    lemma_find_field(self@, name@, i as int);
                }
                return Some(i);
            }
            i += 1;
        }
        None
    }
}

/// Whether field `i` is the first one called `name`.
pub open spec fn first_field(message: MessageView, name: Seq<char>, i: int) -> bool {
    &&& 0 <= i < message.fields.len()
    &&& message.fields[i].name == name
    &&& forall|k: int| 0 <= k < i ==> #[trigger] message.fields[k].name != name
}

/// The position of the first field called `name`.
pub open spec fn find_field(message: MessageView, name: Seq<char>) -> Option<int> {
    if exists|i: int| first_field(message, name, i) {
        Some(choose|i: int| first_field(message, name, i))
    } else {
        None
    }
}

/// The first field of a name is unique.
pub proof fn lemma_find_field(message: MessageView, name: Seq<char>, i: int)
    requires
        first_field(message, name, i),
    ensures
        find_field(message, name) == Some(i),
{
    let j = choose|j: int| first_field(message, name, j);
    assert(first_field(message, name, j));
    if i < j {
        assert(message.fields[i].name != name);
    }
    if j < i {
        assert(message.fields[j].name != name);
    }
}

} // verus!
