//! JSON values as the SQL layer hands them over, and their compact text.
use vstd::prelude::*;

use crate::text::{integer_text, json_quoted};

pub mod reading;

verus! {

/// A JSON value.
///
/// A number without a fraction is an `Unsigned` or, below zero, a `Signed`
/// integer. Any other number is carried by the shortest decimal text that
/// denotes the same double. The entries of an object stand in the order in
/// which the object is walked.
pub enum Json {
    Null,
    Bool(bool),
    Unsigned(u64),
    Signed(i64),
    Float(String),
    Text(String),
    Array(Vec<Json>),
    Object(Vec<Entry>),
}

/// An entry of a JSON object.
pub struct Entry {
    pub key: String,
    pub value: Json,
}

/// The mathematical content of a [`Json`] value.
pub enum JsonView {
    Null,
    Bool(bool),
    Integer(int),
    Float(Seq<char>),
    Text(Seq<char>),
    Array(Seq<JsonView>),
    Object(Seq<EntryView>),
}

/// The mathematical content of an [`Entry`].
pub struct EntryView {
    pub key: Seq<char>,
    pub value: JsonView,
}

impl View for Json {
    type V = JsonView;

    open spec fn view(&self) -> JsonView
        decreases self,
    {
        match self {
            Json::Null => JsonView::Null,
            Json::Bool(value) => JsonView::Bool(*value),
            Json::Unsigned(value) => JsonView::Integer(*value as int),
            Json::Signed(value) => JsonView::Integer(*value as int),
            Json::Float(text) => JsonView::Float(text@),
            Json::Text(text) => JsonView::Text(text@),
            Json::Array(items) => JsonView::Array(
                Seq::new(
                    items@.len(),
                    |i: int|
                        if 0 <= i < items@.len() {
                            items@[i].view()
                        } else {
                            JsonView::Null
                        },
                ),
            ),
            Json::Object(entries) => JsonView::Object(
                Seq::new(
                    entries@.len(),
                    |i: int|
                        if 0 <= i < entries@.len() {
                            EntryView { key: entries@[i].key@, value: entries@[i].value.view() }
                        } else {
                            EntryView { key: Seq::empty(), value: JsonView::Null }
                        },
                ),
            ),
        }
    }
}

/// The views of a list of values.
pub open spec fn views(items: Seq<Json>) -> Seq<JsonView> {
    items.map_values(|item: Json| item@)
}

/// The views of the entries of an object.
pub open spec fn entry_views(entries: Seq<Entry>) -> Seq<EntryView> {
    entries.map_values(|entry: Entry| EntryView { key: entry.key@, value: entry.value@ })
}

impl Json {
    /// The view of an array is an array of views, and that of an object keeps
    /// its keys.
    pub proof fn lemma_view(&self)
        ensures
            self matches Json::Array(items) ==> self@ == JsonView::Array(views(items@)),
            self matches Json::Object(entries) ==> self@ == JsonView::Object(
                entry_views(entries@),
            ),
    {
        match self {
            Json::Array(items) => {
                assert(self@->Array_0 =~= views(items@));
            },
            Json::Object(entries) => {
                assert(self@->Object_0 =~= entry_views(entries@));
            },
            _ => {},
        }
    }

    /// A second value with the same content.
    pub fn copy(&self) -> (result: Json)
        ensures
            result@ == self@,
        decreases self,
    {
        match self {
            Json::Null => Json::Null,
            Json::Bool(value) => Json::Bool(*value),
            Json::Unsigned(value) => Json::Unsigned(*value),
            Json::Signed(value) => Json::Signed(*value),
            Json::Float(text) => Json::Float(text.clone()),
            Json::Text(text) => Json::Text(text.clone()),
            Json::Array(items) => {
                let mut copied: Vec<Json> = Vec::new();
                let mut i: usize = 0;
                while i < items.len()
                    invariant
                        i <= items@.len(),
                        copied@.len() == i,
                        decreases_to!(self => items),
                        forall|k: int| 0 <= k < i ==> (#[trigger] copied@[k])@ == items@[k]@,
                    decreases items@.len() - i,
                {
                    assert(decreases_to!(items => items@));
                    copied.push(items[i].copy());
                    i += 1;
                }
                let result = Json::Array(copied);
                proof {
                    result.lemma_view();
                    self.lemma_view();
                    assert(views(copied@) =~= views(items@));
                }
                result
            },
            Json::Object(entries) => {
                let mut copied: Vec<Entry> = Vec::new();
                let mut i: usize = 0;
                while i < entries.len()
                    invariant
                        i <= entries@.len(),
                        copied@.len() == i,
                        decreases_to!(self => entries),
                        forall|k: int|
                            0 <= k < i ==> (#[trigger] copied@[k]).key@ == entries@[k].key@
                                && copied@[k].value@ == entries@[k].value@,
                    decreases entries@.len() - i,
                {
                    assert(decreases_to!(entries => entries@));
                    assert(decreases_to!(entries@ => entries@[i as int]));
                    assert(decreases_to!(entries@[i as int] => entries@[i as int].value));
                    copied.push(Entry { key: entries[i].key.clone(), value: entries[i].value.copy() });
                    i += 1;
                }
                let result = Json::Object(copied);
                proof {
                    result.lemma_view();
                    self.lemma_view();
                    assert(entry_views(copied@) =~= entry_views(entries@));
                }
                result
            },
        }
    }
}

/// The compact text of a JSON value: no spaces, entries and items in order.
pub open spec fn json_text(value: JsonView) -> Seq<char>
    decreases value, 1nat,
{
    match value {
        JsonView::Null => "null"@,
        JsonView::Bool(value) => if value {
            "true"@
        } else {
            "false"@
        },
        JsonView::Integer(value) => integer_text(value),
        JsonView::Float(text) => text,
        JsonView::Text(text) => json_quoted(text),
        JsonView::Array(items) => "["@ + items_text(items) + "]"@,
        JsonView::Object(entries) => "{"@ + entries_text(entries) + "}"@,
    }
}

/// The texts of the items of an array, separated by commas.
pub open spec fn items_text(items: Seq<JsonView>) -> Seq<char>
    decreases items, 0nat,
{
    if items.len() == 0 {
        Seq::empty()
    } else {
        items_text(items.drop_last()) + (if items.len() > 1 {
            ","@
        } else {
            Seq::empty()
        }) + json_text(items.last())
    }
}

/// The texts of the entries of an object, separated by commas.
pub open spec fn entries_text(entries: Seq<EntryView>) -> Seq<char>
    decreases entries, 0nat,
{
    if entries.len() == 0 {
        Seq::empty()
    } else {
        entries_text(entries.drop_last()) + (if entries.len() > 1 {
            ","@
        } else {
            Seq::empty()
        }) + json_quoted(entries.last().key) + ":"@ + json_text(entries.last().value)
    }
}

} // verus!
