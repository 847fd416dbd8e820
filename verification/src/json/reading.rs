//! How JSON texts are read, and that compact texts can be read back.
use vstd::prelude::*;

use super::{entries_text, items_text, json_text, EntryView, JsonView};
use crate::actions::goal::hex_value;
use crate::message::{is_decimal, is_digit, is_split, unsigned};
use crate::subscriptions::laws::{lemma_decimal_injective, lemma_digits};
use crate::text::{
    decimal, hex_digit, integer_text, json_escape, json_escaped, json_quoted,
};

verus! {

/// Whether a character can be part of a number.
pub open spec fn is_numeric(c: char) -> bool {
    is_digit(c) || c == '-' || c == '.'
}

/// The characters of a number at the beginning of a text.
pub open spec fn numeral(text: Seq<char>) -> Seq<char>
    decreases text.len(),
{
    if text.len() == 0 || !is_numeric(text[0]) {
        Seq::empty()
    } else {
        seq![text[0]] + numeral(text.drop_first())
    }
}

/// The character that a letter stands for behind a backslash.
pub open spec fn escaped_char(c: char) -> Option<char> {
    if c == '"' || c == '\\' || c == '/' {
        Some(c)
    } else if c == 'b' {
        Some('\u{8}')
    } else if c == 't' {
        Some('\t')
    } else if c == 'n' {
        Some('\n')
    } else if c == 'f' {
        Some('\u{c}')
    } else if c == 'r' {
        Some('\r')
    } else {
        None
    }
}

/// The character with the code that four hexadecimal digits denote; half of a
/// pair denotes none.
pub open spec fn coded_char(a: char, b: char, c: char, d: char) -> Option<char> {
    match (hex_value(a), hex_value(b), hex_value(c), hex_value(d)) {
        (Some(w), Some(x), Some(y), Some(z)) => {
            let code = 4096 * w + 256 * x + 16 * y + z;
            if 0xd800 <= code < 0xe000 {
                None
            } else {
                Some(code as char)
            }
        },
        _ => None,
    }
}

/// Reads the characters of a JSON string behind its first quotation mark: what
/// they are, and the text behind the string.
pub open spec fn read_string(text: Seq<char>) -> Option<(Seq<char>, Seq<char>)>
    decreases text.len(),
{
    if text.len() == 0 {
        None
    } else if text[0] == '"' {
        Some((Seq::empty(), text.drop_first()))
    } else if text[0] != '\\' {
        prepended(text[0], read_string(text.skip(1)))
    } else if text.len() < 2 {
        None
    } else if text[1] != 'u' {
        match escaped_char(text[1]) {
            Some(c) => prepended(c, read_string(text.skip(2))),
            None => None,
        }
    } else if text.len() < 6 {
        None
    } else {
        match coded_char(text[2], text[3], text[4], text[5]) {
            Some(c) => prepended(c, read_string(text.skip(6))),
            None => None,
        }
    }
}

/// What was read, with a character before it.
pub open spec fn prepended(c: char, rest: Option<(Seq<char>, Seq<char>)>) -> Option<
    (Seq<char>, Seq<char>),
> {
    match rest {
        Some((more, rest)) => Some((seq![c] + more, rest)),
        None => None,
    }
}

/// The text that a JSON string literal denotes.
pub open spec fn unquoted(text: Seq<char>) -> Option<Seq<char>> {
    if text.len() > 0 && text[0] == '"' {
        match read_string(text.drop_first()) {
            Some((content, rest)) => if rest.len() == 0 {
                Some(content)
            } else {
                None
            },
            None => None,
        }
    } else {
        None
    }
}

/// Whether a text begins with a word.
pub open spec fn begins(text: Seq<char>, word: Seq<char>) -> bool {
    word.is_prefix_of(text)
}

/// Reads a compact JSON value: what it is, and the text behind it. Numbers are
/// read as they are written.
#[verifier::opaque]
pub open spec fn read(text: Seq<char>) -> Option<(JsonView, Seq<char>)>
    decreases text.len(), 0nat,
{
    if text.len() == 0 {
        None
    } else if is_numeric(text[0]) {
        Some((JsonView::Float(numeral(text)), text.skip(numeral(text).len() as int)))
    } else if text[0] == '"' {
        match read_string(text.drop_first()) {
            Some((content, rest)) => Some((JsonView::Text(content), rest)),
            None => None,
        }
    } else if text[0] == '[' {
        if text.len() > 1 && text[1] == ']' {
            Some((JsonView::Array(Seq::empty()), text.skip(2)))
        } else {
            match read_items(text.drop_first()) {
                Some((items, rest)) => Some((JsonView::Array(items), rest)),
                None => None,
            }
        }
    } else if text[0] == '{' {
        if text.len() > 1 && text[1] == '}' {
            Some((JsonView::Object(Seq::empty()), text.skip(2)))
        } else {
            match read_entries(text.drop_first()) {
                Some((entries, rest)) => Some((JsonView::Object(entries), rest)),
                None => None,
            }
        }
    } else if begins(text, "null"@) {
        Some((JsonView::Null, text.skip(4)))
    } else if begins(text, "true"@) {
        Some((JsonView::Bool(true), text.skip(4)))
    } else if begins(text, "false"@) {
        Some((JsonView::Bool(false), text.skip(5)))
    } else {
        None
    }
}

/// Reads the items of an array, of which there is at least one, and the bracket
/// that ends it.
#[verifier::opaque]
pub open spec fn read_items(text: Seq<char>) -> Option<(Seq<JsonView>, Seq<char>)>
    decreases text.len(), 1nat,
{
    match read(text) {
        Some((item, rest)) => if 0 < rest.len() < text.len() && rest[0] == ',' {
            match read_items(rest.drop_first()) {
                Some((more, rest)) => Some((seq![item] + more, rest)),
                None => None,
            }
        } else if 0 < rest.len() && rest[0] == ']' {
            Some((seq![item], rest.drop_first()))
        } else {
            None
        },
        None => None,
    }
}

/// Reads the entries of an object, of which there is at least one, and the brace
/// that ends it.
#[verifier::opaque]
pub open spec fn read_entries(text: Seq<char>) -> Option<(Seq<EntryView>, Seq<char>)>
    decreases text.len(), 1nat,
{
    if text.len() == 0 || text[0] != '"' {
        None
    } else {
        match read_string(text.drop_first()) {
            Some((key, behind)) => if 0 < behind.len() < text.len() && behind[0] == ':' {
                match read(behind.drop_first()) {
                    Some((value, rest)) => {
                        let entry = EntryView { key, value };
                        if 0 < rest.len() < text.len() && rest[0] == ',' {
                            match read_entries(rest.drop_first()) {
                                Some((more, rest)) => Some((seq![entry] + more, rest)),
                                None => None,
                            }
                        } else if 0 < rest.len() && rest[0] == '}' {
                            Some((seq![entry], rest.drop_first()))
                        } else {
                            None
                        }
                    },
                    None => None,
                }
            } else {
                None
            },
            None => None,
        }
    }
}

/// Whether every number in a JSON value is written as a decimal number.
pub open spec fn is_readable(value: JsonView) -> bool
    decreases value,
{
    match value {
        JsonView::Float(text) => is_decimal(text),
        JsonView::Array(items) => forall|i: int|
            0 <= i < items.len() ==> is_readable(#[trigger] items[i]),
        JsonView::Object(entries) => forall|i: int|
            0 <= i < entries.len() ==> is_readable((#[trigger] entries[i]).value),
        _ => true,
    }
}

/// A JSON value with its numbers as they are written.
pub open spec fn as_written(value: JsonView) -> JsonView
    decreases value,
{
    match value {
        JsonView::Integer(number) => JsonView::Float(integer_text(number)),
        JsonView::Array(items) => JsonView::Array(items_as_written(items)),
        JsonView::Object(entries) => JsonView::Object(entries_as_written(entries)),
        other => other,
    }
}

/// JSON values with their numbers as they are written.
pub open spec fn items_as_written(items: Seq<JsonView>) -> Seq<JsonView>
    decreases items,
{
    Seq::new(
        items.len(),
        |i: int|
            if 0 <= i < items.len() {
                as_written(items[i])
            } else {
                JsonView::Null
            },
    )
}

/// Entries with their numbers as they are written.
pub open spec fn entries_as_written(entries: Seq<EntryView>) -> Seq<EntryView>
    decreases entries,
{
    Seq::new(
        entries.len(),
        |i: int|
            if 0 <= i < entries.len() {
                EntryView { key: entries[i].key, value: as_written(entries[i].value) }
            } else {
                EntryView { key: Seq::empty(), value: JsonView::Null }
            },
    )
}

/// Whether no two entries have one key.
pub open spec fn distinct_keys(entries: Seq<EntryView>) -> bool {
    forall|i: int, j: int|
        0 <= i < j < entries.len() ==> (#[trigger] entries[i]).key != (#[trigger] entries[j]).key
}

/// Whether some entry has the given key.
pub open spec fn has_key(entries: Seq<EntryView>, key: Seq<char>) -> bool {
    exists|k: int| 0 <= k < entries.len() && (#[trigger] entries[k]).key == key
}

/// Whether a text is that of a JSON integer of 64 bits.
pub open spec fn is_whole(text: Seq<char>) -> bool {
    exists|number: int| i64::MIN <= number <= u64::MAX && text == #[trigger] integer_text(number)
}

/// Whether a JSON value is what a value with its numbers as they are written is
/// parsed to. Integers of 64 bits are told from other numbers, which keep their
/// texts, and the entries of an object come in any order.
pub open spec fn is_parsed(written: JsonView, value: JsonView) -> bool
    decreases written,
{
    match written {
        JsonView::Float(text) => if is_whole(text) {
            &&& value is Integer
            &&& integer_text(value->Integer_0) == text
        } else {
            value == JsonView::Float(text)
        },
        JsonView::Array(items) => {
            &&& value is Array
            &&& value->Array_0.len() == items.len()
            &&& forall|i: int|
                0 <= i < items.len() ==> is_parsed(#[trigger] items[i], value->Array_0[i])
        },
        JsonView::Object(entries) => {
            &&& value is Object
            &&& distinct_keys(value->Object_0)
            &&& forall|k: int|
                0 <= k < value->Object_0.len() ==> has_key(
                    entries,
                    (#[trigger] value->Object_0[k]).key,
                )
            &&& forall|i: int|
                0 <= i < entries.len() ==> has_key(value->Object_0, (#[trigger] entries[i]).key)
            &&& forall|i: int, k: int|
                0 <= i < entries.len() && 0 <= k < value->Object_0.len() && (
                #[trigger] value->Object_0[k]).key == (#[trigger] entries[i]).key ==> is_parsed(
                    entries[i].value,
                    value->Object_0[k].value,
                )
        },
        other => value == other,
    }
}

/// A JSON string literal denotes the text that was quoted, whatever it holds.
pub proof fn lemma_unquoted(text: Seq<char>)
    ensures
        unquoted(json_quoted(text)) == Some(text),
{
    let rest = Seq::<char>::empty();
    lemma_read_string(text, rest);
    assert(json_quoted(text).drop_first() =~= json_escaped(text) + seq!['"'] + rest);
}

/// The end of a string literal is found, whatever stands behind it.
proof fn lemma_read_string(text: Seq<char>, rest: Seq<char>)
    ensures
        read_string(json_escaped(text) + seq!['"'] + rest) == Some((text, rest)),
    decreases text.len(),
{
    let all = json_escaped(text) + seq!['"'] + rest;
    if text.len() == 0 {
        assert(all.drop_first() =~= rest);
        assert(text =~= Seq::empty());
    } else {
        let c = text[0];
        let more = text.drop_first();
        let tail = json_escaped(more) + seq!['"'] + rest;
        let escape = json_escape(c);
        lemma_read_string(more, rest);
        lemma_escaped_front(text);
        assert(all =~= escape + tail);
        assert(all.skip(escape.len() as int) =~= tail);
        assert(seq![c] + more =~= text);
        lemma_read_escape(c, tail);
    }
}

/// One escaped character is read back, and reading goes on behind it.
proof fn lemma_read_escape(c: char, tail: Seq<char>)
    ensures
        read_string(json_escape(c) + tail) == prepended(c, read_string(tail)),
{
    let escape = json_escape(c);
    let all = escape + tail;
    assert(all.skip(escape.len() as int) =~= tail);
    assert(forall|i: int| 0 <= i < escape.len() ==> all[i] == escape[i]);
    if escape.len() == 6 {
        let high = c as int / 16;
        let low = c as int % 16;
        assert(hex_value(hex_digit(high)) == Some(high)) by {
            assert(0 <= high < 2);
        }
        assert(hex_value(hex_digit(low)) == Some(low)) by {
            assert(0 <= low < 16);
        }
        assert(hex_value('0') == Some(0int));
        assert(coded_char('0', '0', hex_digit(high), hex_digit(low)) == Some(c));
    }
}

proof fn lemma_escaped_front(text: Seq<char>)
    requires
        text.len() > 0,
    ensures
        json_escaped(text) == json_escape(text[0]) + json_escaped(text.drop_first()),
    decreases text.len(),
{
    if text.len() == 1 {
        assert(text.drop_last() =~= Seq::empty());
        assert(text.drop_first() =~= Seq::empty());
        assert(json_escaped(text) =~= json_escape(text[0]) + json_escaped(text.drop_first()));
    } else {
        lemma_escaped_front(text.drop_last());
        assert(text.drop_last().drop_first() =~= text.drop_first().drop_last());
        assert(json_escaped(text) =~= json_escape(text[0]) + json_escaped(text.drop_first()));
    }
}

proof fn lemma_numeral(number: Seq<char>, rest: Seq<char>)
    requires
        forall|i: int| 0 <= i < number.len() ==> is_numeric(#[trigger] number[i]),
        rest.len() == 0 || !is_numeric(rest[0]),
    ensures
        numeral(number + rest) == number,
    decreases number.len(),
{
    let all = number + rest;
    if number.len() == 0 {
        assert(all =~= rest);
        assert(number =~= Seq::empty());
    } else {
        assert(is_numeric(number[0]));
        assert(all[0] == number[0]);
        assert forall|i: int| 0 <= i < number.drop_first().len() implies is_numeric(
            #[trigger] number.drop_first()[i],
        ) by {
            assert(is_numeric(number[i + 1]));
        }
        lemma_numeral(number.drop_first(), rest);
        assert(all.drop_first() =~= number.drop_first() + rest);
        assert(seq![number[0]] + number.drop_first() =~= number);
    }
}

proof fn lemma_read_number(number: Seq<char>, rest: Seq<char>)
    requires
        number.len() > 0,
        forall|i: int| 0 <= i < number.len() ==> is_numeric(#[trigger] number[i]),
        rest.len() == 0 || !is_numeric(rest[0]),
    ensures
        read(number + rest) == Some((JsonView::Float(number), rest)),
{
    reveal(read);
    lemma_numeral(number, rest);
    assert(is_numeric(number[0]));
    assert((number + rest)[0] == number[0]);
    assert((number + rest).skip(number.len() as int) =~= rest);
}

proof fn lemma_integer_numeric(number: int)
    ensures
        integer_text(number).len() > 0,
        forall|i: int|
            0 <= i < integer_text(number).len() ==> is_numeric(#[trigger] integer_text(number)[i]),
{
    let text = integer_text(number);
    let size = if number < 0 {
        (-number) as nat
    } else {
        number as nat
    };
    lemma_digits(size);
    assert forall|i: int| 0 <= i < text.len() implies is_numeric(#[trigger] text[i]) by {
        if number < 0 {
            if i > 0 {
                assert(text[i] == decimal(size)[i - 1]);
            }
        } else {
            assert(text[i] == decimal(size)[i]);
        }
    }
}

proof fn lemma_decimal_numeric(text: Seq<char>)
    requires
        is_decimal(text),
    ensures
        text.len() > 0,
        forall|i: int| 0 <= i < text.len() ==> is_numeric(#[trigger] text[i]),
{
    let body = unsigned(text);
    let whole = choose|whole: int| #[trigger] is_split(body, whole);
    assert forall|i: int| 0 <= i < text.len() implies is_numeric(#[trigger] text[i]) by {
        let signed = text[0] == '-';
        let k = if signed {
            i - 1
        } else {
            i
        };
        if k >= 0 {
            assert(body[k] == text[i]);
            if k != whole {
                assert(is_digit(body[k]));
            }
        }
    }
}

proof fn lemma_read_word(value: JsonView, rest: Seq<char>)
    requires
        value is Null || value is Bool,
    ensures
        json_text(value).len() > 0,
        read(json_text(value) + rest) == Some((value, rest)),
{
    reveal(read);
    reveal_strlit("null");
    reveal_strlit("true");
    reveal_strlit("false");
    let word = json_text(value);
    let all = word + rest;
    assert(all.skip(word.len() as int) =~= rest);
    assert(begins(all, word));
    assert(all[0] == word[0]);
    if value is Bool {
        assert("null"@[0] == 'n');
        assert(!begins(all, "null"@));
        if word == "false"@ {
            assert("true"@[0] == 't');
            assert(!begins(all, "true"@));
        }
    }
}

proof fn lemma_read_text(text: Seq<char>, rest: Seq<char>)
    ensures
        read(json_quoted(text) + rest) == Some((JsonView::Text(text), rest)),
{
    reveal(read);
    lemma_read_string(text, rest);
    assert((json_quoted(text) + rest).drop_first() =~= json_escaped(text) + seq!['"'] + rest);
}

proof fn lemma_read_array(text: Seq<char>, items: Seq<JsonView>, rest: Seq<char>)
    requires
        if items.len() == 0 {
            text.len() == 0
        } else {
            read_items(text + "]"@ + rest) == Some((items, rest))
        },
    ensures
        read("["@ + text + "]"@ + rest) == Some((JsonView::Array(items), rest)),
{
    reveal(read);
    reveal(read_items);
    reveal(read_entries);
    reveal_strlit("[");
    reveal_strlit("]");
    let all = "["@ + text + "]"@ + rest;
    if items.len() == 0 {
        assert(all.skip(2) =~= rest);
        assert(items =~= Seq::empty());
    } else {
        let inner = text + "]"@ + rest;
        assert(all.drop_first() =~= inner);
        assert(all[1] == inner[0]);
        if inner[0] == ']' {
            reveal_strlit("null");
            reveal_strlit("true");
            reveal_strlit("false");
            assert("null"@[0] == 'n' && "true"@[0] == 't' && "false"@[0] == 'f');
            assert(read(inner) is None);
        }
    }
}

proof fn lemma_read_object(text: Seq<char>, entries: Seq<EntryView>, rest: Seq<char>)
    requires
        if entries.len() == 0 {
            text.len() == 0
        } else {
            read_entries(text + "}"@ + rest) == Some((entries, rest))
        },
    ensures
        read("{"@ + text + "}"@ + rest) == Some((JsonView::Object(entries), rest)),
{
    reveal(read);
    reveal(read_items);
    reveal(read_entries);
    reveal_strlit("{");
    reveal_strlit("}");
    let all = "{"@ + text + "}"@ + rest;
    if entries.len() == 0 {
        assert(all.skip(2) =~= rest);
        assert(entries =~= Seq::empty());
    } else {
        let inner = text + "}"@ + rest;
        assert(all.drop_first() =~= inner);
        assert(all[1] == inner[0]);
    }
}

proof fn lemma_read_last_item(text: Seq<char>, item: JsonView, rest: Seq<char>)
    requires
        read(text + "]"@ + rest) == Some((item, "]"@ + rest)),
    ensures
        read_items(text + "]"@ + rest) == Some((seq![item], rest)),
{
    reveal(read);
    reveal(read_items);
    reveal(read_entries);
    reveal_strlit("]");
    assert(("]"@ + rest).drop_first() =~= rest);
}

proof fn lemma_read_item(text: Seq<char>, item: JsonView, tail: Seq<char>)
    requires
        text.len() > 0,
        read(text + (","@ + tail)) == Some((item, ","@ + tail)),
        read_items(tail) is Some,
    ensures
        read_items(text + (","@ + tail)) == Some(
            (seq![item] + read_items(tail)->Some_0.0, read_items(tail)->Some_0.1),
        ),
{
    reveal(read);
    reveal(read_items);
    reveal(read_entries);
    reveal_strlit(",");
    assert((","@ + tail).drop_first() =~= tail);
}

/// The text of an entry.
spec fn entry_text(entry: EntryView) -> Seq<char> {
    json_quoted(entry.key) + ":"@ + json_text(entry.value)
}

/// What the entries are, and what stands behind them, where one entry was read
/// and `behind` is the text behind it.
spec fn entries_read(entry: EntryView, behind: Seq<char>) -> Option<(Seq<EntryView>, Seq<char>)> {
    if 0 < behind.len() && behind[0] == ',' {
        match read_entries(behind.drop_first()) {
            Some((more, rest)) => Some((seq![entry] + more, rest)),
            None => None,
        }
    } else if 0 < behind.len() && behind[0] == '}' {
        Some((seq![entry], behind.drop_first()))
    } else {
        None
    }
}

proof fn lemma_read_entry(entry: EntryView, value: JsonView, behind: Seq<char>)
    requires
        read(json_text(entry.value) + behind) == Some((value, behind)),
    ensures
        read_entries(entry_text(entry) + behind) == entries_read(
            EntryView { key: entry.key, value },
            behind,
        ),
{
    reveal(read);
    reveal(read_items);
    reveal(read_entries);
    reveal_strlit(":");
    let all = entry_text(entry) + behind;
    let colon = ":"@ + json_text(entry.value) + behind;
    lemma_read_string(entry.key, colon);
    assert(all.drop_first() =~= json_escaped(entry.key) + seq!['"'] + colon);
    assert(all[0] == '"');
    assert(colon.drop_first() =~= json_text(entry.value) + behind);
}

proof fn lemma_items_front(items: Seq<JsonView>)
    requires
        items.len() > 0,
    ensures
        items_text(items) == json_text(items[0]) + (if items.len() > 1 {
            ","@ + items_text(items.drop_first())
        } else {
            Seq::empty()
        }),
    decreases items.len(),
{
    let init = items.drop_last();
    if items.len() == 1 {
        assert(items_text(init) =~= Seq::empty());
        assert(items_text(items) =~= json_text(items[0]) + Seq::<char>::empty());
    } else {
        let more = items.drop_first();
        lemma_items_front(init);
        assert(init.drop_first() =~= more.drop_last());
        assert(init[0] == items[0]);
        assert(more.last() == items.last());
        assert(items_text(items) == items_text(init) + ","@ + json_text(items.last()));
        if items.len() == 2 {
            assert(items_text(more.drop_last()) =~= Seq::empty());
            assert(items_text(more) =~= json_text(items.last()));
        } else {
            assert(items_text(more) == items_text(more.drop_last()) + ","@ + json_text(
                items.last(),
            ));
        }
        assert(items_text(items) =~= json_text(items[0]) + (","@ + items_text(more)));
    }
}

proof fn lemma_entries_front(entries: Seq<EntryView>)
    requires
        entries.len() > 0,
    ensures
        entries_text(entries) == entry_text(entries[0]) + (if entries.len() > 1 {
            ","@ + entries_text(entries.drop_first())
        } else {
            Seq::empty()
        }),
    decreases entries.len(),
{
    let init = entries.drop_last();
    let last = entries.last();
    if entries.len() == 1 {
        assert(entries_text(init) =~= Seq::empty());
        assert(entries_text(entries) =~= entry_text(entries[0]) + Seq::<char>::empty());
    } else {
        let more = entries.drop_first();
        lemma_entries_front(init);
        assert(init.drop_first() =~= more.drop_last());
        assert(init[0] == entries[0]);
        assert(more.last() == last);
        assert(entries_text(entries) == entries_text(init) + ","@ + json_quoted(last.key) + ":"@
            + json_text(last.value));
        assert(entries_text(entries) =~= entries_text(init) + (","@ + entry_text(last)));
        if entries.len() == 2 {
            assert(entries_text(more.drop_last()) =~= Seq::empty());
            assert(entries_text(more) =~= entry_text(last));
        } else {
            assert(entries_text(more) == entries_text(more.drop_last()) + ","@ + json_quoted(
                last.key,
            ) + ":"@ + json_text(last.value));
            assert(entries_text(more) =~= entries_text(more.drop_last()) + (","@ + entry_text(
                last,
            )));
        }
        assert(entries_text(entries) =~= entry_text(entries[0]) + (","@ + entries_text(more)));
    }
}

/// The compact text of a JSON value can be read back, whatever stands behind it
/// that is not part of a number.
pub proof fn lemma_read(value: JsonView, rest: Seq<char>)
    requires
        is_readable(value),
        rest.len() == 0 || !is_numeric(rest[0]),
    ensures
        json_text(value).len() > 0,
        read(json_text(value) + rest) == Some((as_written(value), rest)),
    decreases value, 1nat,
{
    match value {
        JsonView::Integer(number) => {
            lemma_integer_numeric(number);
            lemma_read_number(integer_text(number), rest);
        },
        JsonView::Float(text) => {
            lemma_decimal_numeric(text);
            lemma_read_number(text, rest);
        },
        JsonView::Text(text) => {
            lemma_read_text(text, rest);
        },
        JsonView::Array(items) => {
            reveal_strlit("[");
            let text = items_text(items);
            if items.len() == 0 {
                assert(items_as_written(items) =~= Seq::empty());
            } else {
                lemma_read_items(items, rest);
            }
            lemma_read_array(text, items_as_written(items), rest);
        },
        JsonView::Object(entries) => {
            reveal_strlit("{");
            let text = entries_text(entries);
            if entries.len() == 0 {
                assert(entries_as_written(entries) =~= Seq::empty());
            } else {
                lemma_read_entries(entries, rest);
            }
            lemma_read_object(text, entries_as_written(entries), rest);
        },
        _ => {
            lemma_read_word(value, rest);
        },
    }
}

proof fn lemma_read_items(items: Seq<JsonView>, rest: Seq<char>)
    requires
        items.len() > 0,
        forall|i: int| 0 <= i < items.len() ==> is_readable(#[trigger] items[i]),
    ensures
        read_items(items_text(items) + "]"@ + rest) == Some((items_as_written(items), rest)),
    decreases items, 0nat,
{
    let all = items_text(items) + "]"@ + rest;
    let text = json_text(items[0]);
    lemma_items_front(items);
    assert(is_readable(items[0]));
    if items.len() == 1 {
        reveal_strlit("]");
        assert(all =~= text + "]"@ + rest);
        assert(all =~= text + ("]"@ + rest));
        lemma_read(items[0], "]"@ + rest);
        lemma_read_last_item(text, as_written(items[0]), rest);
        assert(items_as_written(items) =~= seq![as_written(items[0])]);
    } else {
        reveal_strlit(",");
        let more = items.drop_first();
        let tail = items_text(more) + "]"@ + rest;
        assert(all =~= text + (","@ + tail));
        lemma_read(items[0], ","@ + tail);
        assert forall|i: int| 0 <= i < more.len() implies is_readable(#[trigger] more[i]) by {
            assert(is_readable(items[i + 1]));
        }
        lemma_read_items(more, rest);
        lemma_read_item(text, as_written(items[0]), tail);
        assert(items_as_written(items) =~= seq![as_written(items[0])] + items_as_written(more));
    }
}

proof fn lemma_read_entries(entries: Seq<EntryView>, rest: Seq<char>)
    requires
        entries.len() > 0,
        forall|i: int| 0 <= i < entries.len() ==> is_readable((#[trigger] entries[i]).value),
    ensures
        read_entries(entries_text(entries) + "}"@ + rest) == Some(
            (entries_as_written(entries), rest),
        ),
    decreases entries, 0nat,
{
    let all = entries_text(entries) + "}"@ + rest;
    let entry = entries[0];
    let written = EntryView { key: entry.key, value: as_written(entry.value) };
    lemma_entries_front(entries);
    assert(is_readable(entries[0].value));
    assert(decreases_to!(entries => entries[0]));
    assert(decreases_to!(entries[0] => entries[0].value));
    if entries.len() == 1 {
        let behind = "}"@ + rest;
        reveal_strlit("}");
        assert(all =~= entry_text(entry) + behind);
        lemma_read(entry.value, behind);
        lemma_read_entry(entry, as_written(entry.value), behind);
        assert(behind.drop_first() =~= rest);
        assert(entries_as_written(entries) =~= seq![written]);
    } else {
        let more = entries.drop_first();
        let tail = entries_text(more) + "}"@ + rest;
        let behind = ","@ + tail;
        reveal_strlit(",");
        assert(all =~= entry_text(entry) + behind);
        lemma_read(entry.value, behind);
        lemma_read_entry(entry, as_written(entry.value), behind);
        assert forall|i: int| 0 <= i < more.len() implies is_readable((#[trigger] more[i]).value) by {
            assert(is_readable(entries[i + 1].value));
        }
        lemma_read_entries(more, rest);
        assert(behind.drop_first() =~= tail);
        assert(entries_as_written(entries) =~= seq![written] + entries_as_written(more));
    }
}

/// A compact text determines the JSON value that it is the text of, with its
/// numbers as they are written.
pub proof fn lemma_text_determines(a: JsonView, b: JsonView)
    requires
        is_readable(a),
        is_readable(b),
        json_text(a) == json_text(b),
    ensures
        as_written(a) == as_written(b),
{
    let rest = Seq::<char>::empty();
    lemma_read(a, rest);
    lemma_read(b, rest);
}

/// Whether no number in a JSON value that is carried by its text has the text of
/// an integer.
pub open spec fn keeps_integers_apart(value: JsonView) -> bool
    decreases value,
{
    match value {
        JsonView::Float(text) => forall|number: int| text != #[trigger] integer_text(number),
        JsonView::Array(items) => forall|i: int|
            0 <= i < items.len() ==> keeps_integers_apart(#[trigger] items[i]),
        JsonView::Object(entries) => forall|i: int|
            0 <= i < entries.len() ==> keeps_integers_apart((#[trigger] entries[i]).value),
        _ => true,
    }
}

/// A compact text determines the JSON value that it is the text of, where no
/// other number is written as an integer is.
pub proof fn lemma_text_determines_value(a: JsonView, b: JsonView)
    requires
        is_readable(a),
        is_readable(b),
        keeps_integers_apart(a),
        keeps_integers_apart(b),
        json_text(a) == json_text(b),
    ensures
        a == b,
{
    lemma_text_determines(a, b);
    lemma_written_determines(a, b);
}

/// Different integers have different texts.
pub proof fn lemma_integer_text_injective(a: int, b: int)
    requires
        integer_text(a) == integer_text(b),
    ensures
        a == b,
{
    let x = if a < 0 {
        (-a) as nat
    } else {
        a as nat
    };
    let y = if b < 0 {
        (-b) as nat
    } else {
        b as nat
    };
    lemma_digits(x);
    lemma_digits(y);
    let s = integer_text(a);
    let t = integer_text(b);
    assert(decimal(x)[0] != '-');
    assert(decimal(y)[0] != '-');
    if a < 0 {
        assert(s[0] == '-');
    }
    if b < 0 {
        assert(t[0] == '-');
    }
    assert((a < 0) == (b < 0));
    if a < 0 {
        assert(s.drop_first() =~= decimal(x));
        assert(t.drop_first() =~= decimal(y));
    }
    lemma_decimal_injective(x, y);
}

proof fn lemma_written_determines(a: JsonView, b: JsonView)
    requires
        keeps_integers_apart(a),
        keeps_integers_apart(b),
        as_written(a) == as_written(b),
    ensures
        a == b,
    decreases a,
{
    match (a, b) {
        (JsonView::Integer(x), JsonView::Integer(y)) => {
            lemma_integer_text_injective(x, y);
        },
        (JsonView::Integer(x), JsonView::Float(text)) => {
            assert(text != integer_text(x));
        },
        (JsonView::Float(text), JsonView::Integer(y)) => {
            assert(text != integer_text(y));
        },
        (JsonView::Array(x), JsonView::Array(y)) => {
            assert(items_as_written(x) == items_as_written(y));
            assert(items_as_written(x).len() == x.len());
            assert(items_as_written(y).len() == y.len());
            assert forall|i: int| 0 <= i < x.len() implies x[i] == y[i] by {
                assert(items_as_written(x)[i] == as_written(x[i]));
                assert(items_as_written(y)[i] == as_written(y[i]));
                assert(keeps_integers_apart(x[i]));
                assert(keeps_integers_apart(y[i]));
                assert(decreases_to!(a => x));
                assert(decreases_to!(x => x[i]));
                lemma_written_determines(x[i], y[i]);
            }
            assert(x =~= y);
        },
        (JsonView::Object(x), JsonView::Object(y)) => {
            assert(entries_as_written(x) == entries_as_written(y));
            assert(entries_as_written(x).len() == x.len());
            assert(entries_as_written(y).len() == y.len());
            assert forall|i: int| 0 <= i < x.len() implies x[i] == y[i] by {
                assert(entries_as_written(x)[i].value == as_written(x[i].value));
                assert(entries_as_written(y)[i].value == as_written(y[i].value));
                assert(entries_as_written(x)[i].key == x[i].key);
                assert(entries_as_written(y)[i].key == y[i].key);
                assert(keeps_integers_apart(x[i].value));
                assert(keeps_integers_apart(y[i].value));
                assert(decreases_to!(a => x));
                assert(decreases_to!(x => x[i]));
                assert(decreases_to!(x[i] => x[i].value));
                lemma_written_determines(x[i].value, y[i].value);
            }
            assert(x =~= y);
        },
        _ => {},
    }
}

} // verus!
