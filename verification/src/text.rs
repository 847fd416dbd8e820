//! Text shared by the encoders: byte lengths, decimal numbers and quoting.
use vstd::prelude::*;
use vstd::string::*;
use vstd::utf8::*;

verus! {

/// The number of bytes that `text` occupies in UTF-8.
pub open spec fn utf8_len(text: Seq<char>) -> nat {
    encode_utf8(text).len()
}

/// Bytes add up over concatenation.
pub proof fn lemma_utf8_len_add(a: Seq<char>, b: Seq<char>)
    ensures
        encode_utf8(a + b) == encode_utf8(a) + encode_utf8(b),
        utf8_len(a + b) == utf8_len(a) + utf8_len(b),
    decreases a.len(),
{
    if a.len() == 0 {
        assert(a + b =~= b);
        assert(encode_utf8(a) =~= Seq::<u8>::empty());
        assert(encode_utf8(a) + encode_utf8(b) =~= encode_utf8(b));
    } else {
        assert((a + b).drop_first() =~= a.drop_first() + b);
        assert((a + b)[0] == a[0]);
        lemma_utf8_len_add(a.drop_first(), b);
        assert(encode_utf8(a + b) =~= encode_utf8(a) + encode_utf8(b));
    }
}

/// The number of bytes in `text`.
pub fn byte_len(text: &str) -> (len: usize)
    ensures
        len == utf8_len(text@),
{
    text.as_bytes().len()
}

/// The decimal digits of `value`, most significant first, without leading
/// zeros.
pub open spec fn decimal(value: nat) -> Seq<char>
    decreases value,
{
    let digit = seq![(48 + value % 10) as char];
    if value < 10 {
        digit
    } else {
        decimal(value / 10) + digit
    }
}

/// The decimal text of an integer, with a minus sign where it is negative.
pub open spec fn integer_text(value: int) -> Seq<char> {
    if value < 0 {
        seq!['-'] + decimal((-value) as nat)
    } else {
        decimal(value as nat)
    }
}

fn push_digit(text: &mut String, digit: u128)
    requires
        digit < 10,
    ensures
        final(text)@ == old(text)@ + seq![(48 + digit) as char],
{
    proof {
        reveal_strlit("0");
        reveal_strlit("1");
        reveal_strlit("2");
        reveal_strlit("3");
        reveal_strlit("4");
        reveal_strlit("5");
        reveal_strlit("6");
        reveal_strlit("7");
        reveal_strlit("8");
        reveal_strlit("9");
    }
    let piece = if digit == 0 {
        "0"
    } else if digit == 1 {
        "1"
    } else if digit == 2 {
        "2"
    } else if digit == 3 {
        "3"
    } else if digit == 4 {
        "4"
    } else if digit == 5 {
        "5"
    } else if digit == 6 {
        "6"
    } else if digit == 7 {
        "7"
    } else if digit == 8 {
        "8"
    } else {
        "9"
    };
    assert(piece@ =~= seq![(48 + digit) as char]);
    text.append(piece);
}

fn push_decimal(text: &mut String, value: u128)
    ensures
        final(text)@ == old(text)@ + decimal(value as nat),
    decreases value,
{
    if value >= 10 {
        push_decimal(text, value / 10);
    }
    push_digit(text, value % 10);
    assert(text@ =~= old(text)@ + decimal(value as nat));
}

/// Renders an integer in decimal.
pub fn render_integer(value: i128) -> (text: String)
    ensures
        text@ == integer_text(value as int),
{
    let mut text = String::new();
    if value < 0 {
        proof {
            reveal_strlit("-");
        }
        text.append("-");
        assert(text@ =~= seq!['-']);
        push_decimal(&mut text, (-(value + 1)) as u128 + 1);
    } else {
        push_decimal(&mut text, value as u128);
        assert(text@ =~= decimal(value as nat));
    }
    text
}

/// Two texts, one after the other.
pub fn combine(first: &str, second: &str) -> (text: String)
    ensures
        text@ == first@ + second@,
{
    let mut text = first.to_owned();
    text.append(second);
    text
}

/// The characters of a text.
pub fn characters(text: &str) -> (result: Vec<char>)
    ensures
        result@ == text@,
{
    broadcast use axiom_spec_iter;

    let mut result: Vec<char> = Vec::new();
    for c in iter: text.chars()
        invariant
            iter.seq() == text@,
            result@ == iter.seq().take(iter.index()),
    {
        result.push(c);
    }
    assert(text@.take(text@.len() as int) =~= text@);
    result
}

/// A hexadecimal digit in lower case.
pub open spec fn hex_digit(value: int) -> char {
    if value < 10 {
        (48 + value) as char
    } else {
        (87 + value) as char
    }
}

/// What a character becomes inside a JSON string.
pub open spec fn json_escape(c: char) -> Seq<char> {
    if c == '"' {
        seq!['\\', '"']
    } else if c == '\\' {
        seq!['\\', '\\']
    } else if c == '\u{8}' {
        seq!['\\', 'b']
    } else if c == '\t' {
        seq!['\\', 't']
    } else if c == '\n' {
        seq!['\\', 'n']
    } else if c == '\u{c}' {
        seq!['\\', 'f']
    } else if c == '\r' {
        seq!['\\', 'r']
    } else if (c as int) < 32 {
        seq!['\\', 'u', '0', '0', hex_digit(c as int / 16), hex_digit(c as int % 16)]
    } else {
        seq![c]
    }
}

/// The characters of `text`, each escaped for a JSON string.
pub open spec fn json_escaped(text: Seq<char>) -> Seq<char>
    decreases text.len(),
{
    if text.len() == 0 {
        Seq::empty()
    } else {
        json_escaped(text.drop_last()) + json_escape(text.last())
    }
}

/// The JSON string literal that denotes `text`.
pub open spec fn json_quoted(text: Seq<char>) -> Seq<char> {
    seq!['"'] + json_escaped(text) + seq!['"']
}

/// Escaping never shortens a text, and the quotes add two bytes.
pub proof fn lemma_json_quoted_len(text: Seq<char>)
    ensures
        utf8_len(json_quoted(text)) >= utf8_len(text) + 2,
{
    lemma_json_escaped_len(text);
    lemma_ascii_len(seq!['"']);
    lemma_utf8_len_add(seq!['"'], json_escaped(text));
    lemma_utf8_len_add(seq!['"'] + json_escaped(text), seq!['"']);
}

proof fn lemma_ascii_len(text: Seq<char>)
    requires
        is_ascii_chars(text),
    ensures
        utf8_len(text) == text.len(),
{
    is_ascii_chars_encode_utf8(text);
}

proof fn lemma_json_escape_len(c: char)
    ensures
        utf8_len(json_escape(c)) >= utf8_len(seq![c]),
{
    if (c as int) < 128 {
        lemma_ascii_len(seq![c]);
        lemma_ascii_len(json_escape(c));
    }
}

proof fn lemma_json_escaped_len(text: Seq<char>)
    ensures
        utf8_len(json_escaped(text)) >= utf8_len(text),
    decreases text.len(),
{
    if text.len() > 0 {
        let c = text.last();
        lemma_json_escaped_len(text.drop_last());
        lemma_utf8_len_add(text.drop_last(), seq![c]);
        lemma_utf8_len_add(json_escaped(text.drop_last()), json_escape(c));
        assert(text =~= text.drop_last() + seq![c]);
        lemma_json_escape_len(c);
    } else {
        assert(text =~= Seq::empty());
    }
}

/// Quotes a text as a JSON string with `serde_json::to_string`.
///
/// That function writes a quotation mark, the characters of the text and a
/// quotation mark. It puts a backslash before a quotation mark and before a
/// backslash, has a two-character form for backspace, tab, line feed, form
/// feed and carriage return, writes the other characters below U+0020 as
/// `\u00xx` with lower-case digits, and leaves every other character as it is.
#[verifier::external_body]
pub(crate) fn quote_json(text: &str) -> (quoted: String)
    ensures
        quoted@ == json_quoted(text@),
{
    serde_json::to_string(text).expect("string serialization")
}

/// The text that formatting a string with `{:?}` gives.
pub uninterp spec fn debug_text(text: Seq<char>) -> Seq<char>;

/// Formats a text with `{:?}`, through `<str as core::fmt::Debug>::fmt`.
///
/// Only that the result depends on nothing but the text is claimed of it.
#[verifier::external_body]
pub(crate) fn quote_debug(text: &str) -> (quoted: String)
    ensures
        quoted@ == debug_text(text@),
{
    format!("{:?}", text)
}

/// The decimal text of the double nearest to an integer.
pub uninterp spec fn double_text(value: int) -> Seq<char>;

/// The decimal text of a JSON integer read as a double, by
/// `serde_json::Number::from_i128` and `serde_json::Number::as_f64`, and
/// rendered with `{}`.
///
/// Only that the result depends on nothing but the integer is claimed of it.
/// `from_i128` accepts exactly the integers admitted here, and `as_f64` gives a
/// number for each of them.
#[verifier::external_body]
pub(crate) fn integer_as_double(value: i128) -> (text: String)
    requires
        i64::MIN <= value <= u64::MAX,
    ensures
        text@ == double_text(value as int),
{
    let number = serde_json::Number::from_i128(value).and_then(|number| number.as_f64());
    format!("{}", number.expect("an integer of 64 bits"))
}

} // verus!
