//! Goals as the database keeps them.
use vstd::prelude::*;
use vstd::string::*;

use crate::json::Json;
use crate::json::{entry_views, EntryView, JsonView};
use crate::text::characters;

verus! {

/// A goal that is not completed.
pub struct GoalRow {
    pub id: String,
    /// The name of the action, where the row has one.
    pub action_name: Option<String>,
    /// Whether the action is of the one type that is supported.
    pub supported: bool,
    pub goal: Json,
    /// Whether the goal is to be canceled.
    pub cancel: bool,
    /// Whether the goal has not been dispatched.
    pub pending: bool,
    /// Whether the server has refused to cancel the goal.
    pub cancel_rejected: bool,
}

/// The mathematical content of a [`GoalRow`].
pub struct GoalRowView {
    pub id: Seq<char>,
    pub action_name: Option<Seq<char>>,
    pub supported: bool,
    pub goal: JsonView,
    pub cancel: bool,
    pub pending: bool,
    pub cancel_rejected: bool,
}

impl View for GoalRow {
    type V = GoalRowView;

    open spec fn view(&self) -> GoalRowView {
        GoalRowView {
            id: self.id@,
            action_name: crate::sql::text_view(self.action_name),
            supported: self.supported,
            goal: self.goal@,
            cancel: self.cancel,
            pending: self.pending,
            cancel_rejected: self.cancel_rejected,
        }
    }
}

/// Whether entry `i` is the first one with the given key.
pub open spec fn first_entry(entries: Seq<EntryView>, key: Seq<char>, i: int) -> bool {
    &&& 0 <= i < entries.len()
    &&& entries[i].key == key
    &&& forall|k: int| 0 <= k < i ==> #[trigger] entries[k].key != key
}

/// The member of an object with the given key; `null` where there is none.
pub open spec fn member(value: JsonView, key: Seq<char>) -> JsonView {
    match value {
        JsonView::Object(entries) => if exists|i: int| first_entry(entries, key, i) {
            entries[choose|i: int| first_entry(entries, key, i)].value
        } else {
            JsonView::Null
        },
        _ => JsonView::Null,
    }
}

/// What a row of the table of goals says; `None` where it has no identifier.
pub open spec fn row_of(row: JsonView) -> Option<GoalRowView> {
    match member(row, "goal_id"@) {
        JsonView::Text(id) => Some(
            GoalRowView {
                id,
                action_name: match member(row, "action_name"@) {
                    JsonView::Text(name) => Some(name),
                    _ => None,
                },
                supported: member(row, "action_type"@) == JsonView::Text(
                    "example_interfaces/action/Fibonacci"@,
                ),
                goal: member(row, "goal"@),
                cancel: member(row, "desired_state"@) == JsonView::Text("cancel"@),
                pending: member(row, "dispatch_state"@) == JsonView::Text("pending"@),
                cancel_rejected: member(row, "cancel_response"@) == JsonView::Text("rejected"@),
            },
        ),
        _ => None,
    }
}

/// What the rows of the table of goals say; `None` where one of them does not
/// say it, or where there is no list of rows.
pub open spec fn rows_of(rows: JsonView) -> Option<Seq<GoalRowView>> {
    match rows {
        JsonView::Array(items) => if forall|i: int|
            0 <= i < items.len() ==> row_of(#[trigger] items[i]) is Some {
            Some(Seq::new(items.len(), |i: int| row_of(items[i])->Some_0))
        } else {
            None
        },
        _ => None,
    }
}

/// The contents of rows.
pub open spec fn row_views(rows: Seq<GoalRow>) -> Seq<GoalRowView> {
    rows.map_values(|row: GoalRow| row@)
}

/// The member of an object with the given key.
pub fn get<'a>(value: &'a Json, key: &str) -> (result: Option<&'a Json>)
    ensures
        match result {
            Some(found) => found@ == member(value@, key@),
            None => member(value@, key@) == JsonView::Null,
        },
{
    proof {
        value.lemma_view();
    }
    match value {
        Json::Object(entries) => {
            let wanted: String = key.to_owned();
            let ghost views = entry_views(entries@);
            let mut i: usize = 0;
            while i < entries.len()
                invariant
                    i <= entries@.len(),
                    views == entry_views(entries@),
                    value@ == JsonView::Object(views),
                    wanted@ == key@,
                    forall|k: int| 0 <= k < i ==> #[trigger] views[k].key != key@,
                decreases entries@.len() - i,
            {
                assert(views[i as int].key == entries@[i as int].key@);
                if entries[i].key == wanted {
                    proof {
                        assert(first_entry(views, key@, i as int));
                        let j = choose|j: int| first_entry(views, key@, j);
                        assert(first_entry(views, key@, j));
                        if i < j {
                            assert(views[i as int].key != key@);
                        }
                        if j < i {
                            assert(views[j].key != key@);
                        }
                    }
                    return Some(&entries[i].value);
                }
                i += 1;
            }
            assert forall|j: int| !first_entry(views, key@, j) by {
                if 0 <= j < views.len() {
                    assert(views[j].key != key@);
                }
            }
            None
        },
        _ => None,
    }
}

/// Whether the member of an object with the given key is the given text.
fn is_text(value: &Json, key: &str, text: &str) -> (result: bool)
    ensures
        result == (member(value@, key@) == JsonView::Text(text@)),
{
    match get(value, key) {
        Some(Json::Text(found)) => *found == text.to_owned(),
        _ => false,
    }
}

/// The member of an object with the given key, where it is a text.
fn get_text(value: &Json, key: &str) -> (result: Option<String>)
    ensures
        match result {
            Some(text) => member(value@, key@) == JsonView::Text(text@),
            None => !(member(value@, key@) is Text),
        },
{
    match get(value, key) {
        Some(Json::Text(found)) => Some(found.clone()),
        _ => None,
    }
}

impl GoalRow {
    /// Reads a row of the table of goals.
    pub fn read(row: &Json) -> (result: Option<GoalRow>)
        ensures
            match row_of(row@) {
                Some(view) => result is Some && result->Some_0@ == view,
                None => result is None,
            },
    {
        let id = match get_text(row, "goal_id") {
            Some(id) => id,
            None => {
                return None;
            },
        };
        let goal = match get(row, "goal") {
            Some(goal) => goal.copy(),
            None => Json::Null,
        };
        Some(
            GoalRow {
                id,
                action_name: get_text(row, "action_name"),
                supported: is_text(row, "action_type", "example_interfaces/action/Fibonacci"),
                goal,
                cancel: is_text(row, "desired_state", "cancel"),
                pending: is_text(row, "dispatch_state", "pending"),
                cancel_rejected: is_text(row, "cancel_response", "rejected"),
            },
        )
    }
}

/// Reads the rows of the table of goals.
pub fn read_rows(rows: &Json) -> (result: Option<Vec<GoalRow>>)
    ensures
        match rows_of(rows@) {
            Some(views) => result is Some && row_views(result->Some_0@) == views,
            None => result is None,
        },
{
    proof {
        rows.lemma_view();
    }
    match rows {
        Json::Array(items) => {
            let ghost views = crate::json::views(items@);
            let mut read: Vec<GoalRow> = Vec::new();
            let mut i: usize = 0;
            while i < items.len()
                invariant
                    i <= items@.len(),
                    views == crate::json::views(items@),
                    rows@ == JsonView::Array(views),
                    read@.len() == i,
                    forall|k: int|
                        0 <= k < i ==> row_of(#[trigger] views[k]) == Some(read@[k]@),
                decreases items@.len() - i,
            {
                assert(views[i as int] == items@[i as int]@);
                match GoalRow::read(&items[i]) {
                    Some(row) => {
                        read.push(row);
                    },
                    None => {
                        return None;
                    },
                }
                i += 1;
            }
            assert(row_views(read@) =~= Seq::new(
                views.len(),
                |i: int| row_of(views[i])->Some_0,
            ));
            Some(read)
        },
        _ => None,
    }
}

/// The order in a goal of the Fibonacci action: an integer of 32 bits.
pub open spec fn order_of(goal: JsonView) -> Option<int> {
    match member(goal, "order"@) {
        JsonView::Integer(order) => if i32::MIN <= order <= i32::MAX {
            Some(order)
        } else {
            None
        },
        _ => None,
    }
}

/// Reads the order in a goal of the Fibonacci action.
pub fn order(goal: &Json) -> (result: Option<i32>)
    ensures
        match order_of(goal@) {
            Some(order) => result is Some && result->Some_0 == order,
            None => result is None,
        },
{
    let number: i128 = match get(goal, "order") {
        Some(Json::Unsigned(number)) => *number as i128,
        Some(Json::Signed(number)) => *number as i128,
        _ => {
            return None;
        },
    };
    if -2147483648 <= number && number <= 2147483647 {
        Some(number as i32)
    } else {
        None
    }
}

/// The value of a hexadecimal digit.
pub open spec fn hex_value(c: char) -> Option<int> {
    if '0' <= c <= '9' {
        Some(c as int - '0' as int)
    } else if 'a' <= c <= 'f' {
        Some(c as int - 'a' as int + 10)
    } else if 'A' <= c <= 'F' {
        Some(c as int - 'A' as int + 10)
    } else {
        None
    }
}

/// The value of a pair of hexadecimal digits; the first may be a plus sign.
pub open spec fn pair_value(high: char, low: char) -> Option<int> {
    match (hex_value(high), hex_value(low)) {
        (Some(a), Some(b)) => Some(16 * a + b),
        (None, Some(b)) => if high == '+' {
            Some(b)
        } else {
            None
        },
        _ => None,
    }
}

/// The characters of an identifier without its hyphens.
pub open spec fn without_hyphens(id: Seq<char>) -> Seq<char> {
    id.filter(|c: char| c != '-')
}

/// The bytes that an identifier denotes, where every pair of digits is one.
pub open spec fn digits_of(hex: Seq<char>) -> Option<Seq<u8>> {
    if forall|i: int| 0 <= i < hex.len() / 2 ==> #[trigger] pair_at(hex, i) is Some {
        Some(Seq::new(hex.len() / 2, |i: int| pair_at(hex, i)->Some_0 as u8))
    } else {
        None
    }
}

/// The value of pair `i` of digits.
pub open spec fn pair_at(hex: Seq<char>, i: int) -> Option<int> {
    pair_value(hex[2 * i], hex[2 * i + 1])
}

/// The bytes of the identifier of a goal, or the message that says why it is
/// none. The identifier with no bit set is reserved.
pub open spec fn uuid_of(id: Seq<char>) -> Result<Seq<u8>, Seq<char>> {
    let hex = without_hyphens(id);
    if hex.len() != 32 || !vstd::utf8::is_ascii_chars(hex) {
        Err("invalid goal UUID"@)
    } else {
        match digits_of(hex) {
            None => Err("invalid digit found in string"@),
            Some(bytes) => if forall|i: int| 0 <= i < 16 ==> #[trigger] bytes[i] == 0 {
                Err("zero UUID is reserved by ROS cancellation"@)
            } else {
                Ok(bytes)
            },
        }
    }
}

fn digit(c: char) -> (result: Option<u8>)
    ensures
        match hex_value(c) {
            Some(value) => result is Some && result->Some_0 == value && value < 16,
            None => result is None,
        },
{
    let code: u32 = c as u32;
    if 48 <= code && code <= 57 {
        Some((code - 48) as u8)
    } else if 97 <= code && code <= 102 {
        Some((code - 87) as u8)
    } else if 65 <= code && code <= 70 {
        Some((code - 55) as u8)
    } else {
        None
    }
}

fn pair(high: char, low: char) -> (result: Option<u8>)
    ensures
        match pair_value(high, low) {
            Some(value) => result is Some && result->Some_0 == value,
            None => result is None,
        },
{
    match (digit(high), digit(low)) {
        (Some(a), Some(b)) => Some(16 * a + b),
        (None, Some(b)) => if high == '+' {
            Some(b)
        } else {
            None
        },
        _ => None,
    }
}

fn is_ascii_char(c: char) -> (result: bool)
    ensures
        result == ('\0' <= c <= '\u{7f}'),
{
    let code: u32 = c as u32;
    code <= 127
}

/// Reads the identifier of a goal: pairs of hexadecimal digits, with hyphens
/// anywhere.
pub fn uuid_bytes(id: &str) -> (result: Result<Vec<u8>, String>)
    ensures
        match uuid_of(id@) {
            Ok(bytes) => result is Ok && result->Ok_0@ == bytes && bytes.len() == 16,
            Err(error) => result is Err && result->Err_0@ == error,
        },
{
    let letters = characters(id);
    let ghost keep = |c: char| c != '-';
    let mut hex: Vec<char> = Vec::new();
    let mut ascii: bool = true;
    let mut i: usize = 0;
    assert(id@.take(0).filter(keep) =~= Seq::empty()) by {
        reveal(Seq::filter);
    }
    while i < letters.len()
        invariant
            i <= letters@.len(),
            letters@ == id@,
            keep == (|c: char| c != '-'),
            hex@ == id@.take(i as int).filter(keep),
            ascii == vstd::utf8::is_ascii_chars(hex@),
        decreases letters@.len() - i,
    {
        let c = letters[i];
        proof {
            assert(id@.take(i + 1).drop_last() =~= id@.take(i as int));
            assert(id@.take(i + 1).last() == c);
            reveal(Seq::filter);
        }
        if c != '-' {
            let ghost before = hex@;
            hex.push(c);
            let plain = is_ascii_char(c);
            proof {
                assert(forall|k: int| 0 <= k < before.len() ==> hex@[k] == #[trigger] before[k]);
                assert(hex@[before.len() as int] == c);
            }
            ascii = ascii && plain;
        }
        i += 1;
    }
    assert(id@.take(i as int) =~= id@);
    if hex.len() != 32 || !ascii {
        return Err("invalid goal UUID".to_owned());
    }
    let mut bytes: Vec<u8> = Vec::new();
    let mut zero: bool = true;
    let mut i: usize = 0;
    while i < 16
        invariant
            i <= 16,
            hex@.len() == 32,
            hex@ == without_hyphens(id@),
            vstd::utf8::is_ascii_chars(hex@),
            bytes@.len() == i,
            forall|k: int| 0 <= k < i ==> #[trigger] pair_at(hex@, k) == Some(bytes@[k] as int),
            zero == (forall|k: int| 0 <= k < i ==> #[trigger] bytes@[k] == 0),
        decreases 16 - i,
    {
        match pair(hex[2 * i], hex[2 * i + 1]) {
            Some(byte) => {
                let ghost before = bytes@;
                bytes.push(byte);
                proof {
                    assert(forall|k: int| 0 <= k < i ==> bytes@[k] == #[trigger] before[k]);
                    assert(bytes@[i as int] == byte);
                }
                zero = zero && byte == 0;
            },
            None => {
                assert(pair_at(hex@, i as int) is None);
                return Err("invalid digit found in string".to_owned());
            },
        }
        i += 1;
    }
    assert(bytes@ =~= digits_of(hex@)->Some_0);
    if zero {
        return Err("zero UUID is reserved by ROS cancellation".to_owned());
    }
    Ok(bytes)
}

} // verus!
