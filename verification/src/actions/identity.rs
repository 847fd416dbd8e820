//! How goals are told from each other, and what their rows say.
use vstd::prelude::*;

use super::goal::{
    digits_of, first_entry, hex_value, member, order_of, pair_at, row_of, rows_of, uuid_of,
    without_hyphens, GoalRowView,
};
use crate::json::{EntryView, JsonView};
use crate::text::hex_digit;

verus! {

/// The hexadecimal digits of bytes, two for each, the higher one first.
pub open spec fn hex_of(bytes: Seq<u8>) -> Seq<char> {
    Seq::new(
        2 * bytes.len(),
        |i: int|
            if i % 2 == 0 {
                hex_digit(bytes[i / 2] as int / 16)
            } else {
                hex_digit(bytes[i / 2] as int % 16)
            },
    )
}

proof fn lemma_hex_digit(value: int)
    requires
        0 <= value < 16,
    ensures
        hex_value(hex_digit(value)) == Some(value),
        hex_digit(value) != '-',
        '\0' <= hex_digit(value) <= '\u{7f}',
{
}

/// The hexadecimal text of 16 bytes, of which one is not zero, is the identifier
/// with these bytes.
pub proof fn lemma_identifier_read(bytes: Seq<u8>)
    requires
        bytes.len() == 16,
        exists|i: int| 0 <= i < 16 && #[trigger] bytes[i] != 0,
    ensures
        uuid_of(hex_of(bytes)) == Ok::<Seq<u8>, Seq<char>>(bytes),
{
    let hex = hex_of(bytes);
    assert forall|i: int| 0 <= i < 32 implies hex[i] != '-' && '\0' <= #[trigger] hex[i]
        <= '\u{7f}' by {
        let byte = bytes[i / 2] as int;
        lemma_hex_digit(byte / 16);
        lemma_hex_digit(byte % 16);
    }
    lemma_without_hyphens_same(hex);
    assert forall|i: int| 0 <= i < 16 implies #[trigger] pair_at(hex, i) == Some(
        bytes[i] as int,
    ) by {
        let byte = bytes[i] as int;
        lemma_hex_digit(byte / 16);
        lemma_hex_digit(byte % 16);
        assert((2 * i) % 2 == 0 && (2 * i) / 2 == i);
        assert((2 * i + 1) % 2 == 1 && (2 * i + 1) / 2 == i);
        assert(hex[2 * i] == hex_digit(byte / 16));
        assert(hex[2 * i + 1] == hex_digit(byte % 16));
    }
    assert(digits_of(hex)->Some_0 =~= bytes);
}

proof fn lemma_without_hyphens_same(text: Seq<char>)
    requires
        forall|i: int| 0 <= i < text.len() ==> #[trigger] text[i] != '-',
    ensures
        without_hyphens(text) == text,
    decreases text.len(),
{
    reveal(Seq::filter);
    if text.len() > 0 {
        let init = text.drop_last();
        assert forall|i: int| 0 <= i < init.len() implies #[trigger] init[i] != '-' by {
            assert(text[i] != '-');
        }
        lemma_without_hyphens_same(init);
        assert(text[text.len() - 1] != '-');
        assert(init.push(text.last()) =~= text);
    } else {
        assert(without_hyphens(text) =~= text);
    }
}

proof fn lemma_without_hyphens_add(a: Seq<char>, b: Seq<char>)
    ensures
        without_hyphens(a + b) == without_hyphens(a) + without_hyphens(b),
    decreases b.len(),
{
    reveal(Seq::filter);
    if b.len() == 0 {
        assert(a + b =~= a);
        assert(without_hyphens(b) =~= Seq::empty());
        assert(without_hyphens(a) + Seq::empty() =~= without_hyphens(a));
    } else {
        lemma_without_hyphens_add(a, b.drop_last());
        assert((a + b).drop_last() =~= a + b.drop_last());
        assert((a + b).last() == b.last());
        assert(without_hyphens(a + b) =~= without_hyphens(a) + without_hyphens(b));
    }
}

/// Hyphens make no difference to an identifier, wherever they stand.
pub proof fn lemma_hyphens_ignored(a: Seq<char>, b: Seq<char>)
    ensures
        uuid_of(a + seq!['-'] + b) == uuid_of(a + b),
{
    reveal(Seq::filter);
    let hyphen = seq!['-'];
    assert(hyphen.drop_last() =~= Seq::empty());
    assert(without_hyphens(hyphen.drop_last()) =~= Seq::empty());
    assert(without_hyphens(hyphen) =~= Seq::empty());
    lemma_without_hyphens_add(a, hyphen);
    lemma_without_hyphens_add(a + hyphen, b);
    lemma_without_hyphens_add(a, b);
    assert(without_hyphens(a + hyphen + b) =~= without_hyphens(a + b));
}

/// An identifier that is accepted has 32 digits beside its hyphens, and gives 16
/// bytes of which one is not zero. The one without a bit is refused.
pub proof fn lemma_identifier_bytes(id: Seq<char>)
    ensures
        uuid_of(id) matches Ok(bytes) ==> without_hyphens(id).len() == 32 && bytes.len() == 16
            && exists|i: int| 0 <= i < 16 && #[trigger] bytes[i] != 0,
        without_hyphens(id).len() != 32 ==> uuid_of(id) == Err::<Seq<u8>, Seq<char>>(
            "invalid goal UUID"@,
        ),
        uuid_of(hex_of(Seq::new(16, |i: int| 0u8))) == Err::<Seq<u8>, Seq<char>>(
            "zero UUID is reserved by ROS cancellation"@,
        ),
{
    let zeros = Seq::new(16, |i: int| 0u8);
    let hex = hex_of(zeros);
    lemma_hex_digit(0);
    assert forall|i: int| 0 <= i < 32 implies hex[i] != '-' && '\0' <= #[trigger] hex[i]
        <= '\u{7f}' by {}
    lemma_without_hyphens_same(hex);
    assert forall|i: int| 0 <= i < 16 implies #[trigger] pair_at(hex, i) == Some(0int) by {
        assert((2 * i) % 2 == 0 && (2 * i) / 2 == i);
        assert((2 * i + 1) % 2 == 1 && (2 * i + 1) / 2 == i);
    }
    assert(digits_of(hex)->Some_0 =~= zeros);
}

/// Whether an entry is the only one with its key.
pub open spec fn is_only(entries: Seq<EntryView>, key: Seq<char>, i: int) -> bool {
    &&& 0 <= i < entries.len()
    &&& entries[i].key == key
    &&& forall|k: int| 0 <= k < entries.len() && k != i ==> (#[trigger] entries[k]).key != key
}

/// Whether no entry has a key.
pub open spec fn lacks(entries: Seq<EntryView>, key: Seq<char>) -> bool {
    forall|k: int| 0 <= k < entries.len() ==> (#[trigger] entries[k]).key != key
}

/// The member of an object under a key is the value of the entry with that key;
/// without such an entry it is `null`, as it is in what is no object.
pub proof fn lemma_member(entries: Seq<EntryView>, key: Seq<char>, i: int, value: JsonView)
    ensures
        is_only(entries, key, i) ==> member(JsonView::Object(entries), key) == entries[i].value,
        lacks(entries, key) ==> member(JsonView::Object(entries), key) is Null,
        !(value is Object) ==> member(value, key) is Null,
{
    if is_only(entries, key, i) {
        assert(first_entry(entries, key, i));
        let j = choose|j: int| first_entry(entries, key, j);
        assert(first_entry(entries, key, j));
        assert(j == i);
    }
}

/// What a row of the table of goals says. Its identifier, its action and its goal
/// are those of the row; the goal is supported where the row names the Fibonacci
/// action, to be canceled where `cancel` is desired, waits for dispatch where its
/// dispatch is `pending`, and is refused cancellation where the answer was
/// `rejected`. A row without an identifier says nothing.
pub proof fn lemma_row_says(row: JsonView)
    ensures
        row_of(row) is Some <==> member(row, "goal_id"@) is Text,
        row_of(row) matches Some(goal) ==> {
            &&& member(row, "goal_id"@) == JsonView::Text(goal.id)
            &&& goal.goal == member(row, "goal"@)
            &&& goal.action_name is Some <==> member(row, "action_name"@) is Text
            &&& goal.action_name matches Some(name) ==> member(row, "action_name"@)
                == JsonView::Text(name)
            &&& goal.supported <==> member(row, "action_type"@) == JsonView::Text(
                "example_interfaces/action/Fibonacci"@,
            )
            &&& goal.cancel <==> member(row, "desired_state"@) == JsonView::Text("cancel"@)
            &&& goal.pending <==> member(row, "dispatch_state"@) == JsonView::Text("pending"@)
            &&& goal.cancel_rejected <==> member(row, "cancel_response"@) == JsonView::Text(
                "rejected"@,
            )
        },
{
}

/// All rows of a list are read, each by itself and in order, or none.
pub proof fn lemma_rows_say(items: Seq<JsonView>, value: JsonView)
    ensures
        rows_of(JsonView::Array(items)) is Some <==> forall|i: int|
            0 <= i < items.len() ==> row_of(#[trigger] items[i]) is Some,
        rows_of(JsonView::Array(items)) matches Some(rows) ==> rows.len() == items.len()
            && forall|i: int|
            0 <= i < items.len() ==> row_of(items[i]) == Some::<GoalRowView>(#[trigger] rows[i]),
        !(value is Array) ==> rows_of(value) is None,
{
}

/// The order of a goal is the integer under that name, where it has 32 bits.
pub proof fn lemma_order(goal: JsonView)
    ensures
        order_of(goal) matches Some(order) ==> member(goal, "order"@) == JsonView::Integer(order)
            && -2147483648 <= order <= 2147483647,
        order_of(goal) is None ==> !(member(goal, "order"@) matches JsonView::Integer(order)
            && -2147483648 <= order <= 2147483647),
{
}

/// The sixteen digits, of which six have two forms, denote their values.
pub proof fn lemma_digits_denote(k: int)
    requires
        0 <= k < 10,
    ensures
        hex_value(('0' as int + k) as char) == Some(k),
        k < 6 ==> hex_value(('a' as int + k) as char) == Some(10 + k),
        k < 6 ==> hex_value(('A' as int + k) as char) == Some(10 + k),
{
}

/// A character that is no digit and no plus sign, anywhere but in a hyphen, makes
/// an identifier invalid.
pub proof fn lemma_no_other_digits(id: Seq<char>, i: int)
    requires
        0 <= i < without_hyphens(id).len(),
        ({
            let c = without_hyphens(id)[i];
            !('0' <= c <= '9') && !('a' <= c <= 'f') && !('A' <= c <= 'F') && c != '+'
        }),
    ensures
        uuid_of(id) is Err,
{
    let hex = without_hyphens(id);
    if hex.len() == 32 {
        let k = i / 2;
        assert(i == 2 * k || i == 2 * k + 1);
        assert(pair_at(hex, k) is None);
    }
}

} // verus!
