//! JSON values, as objects are dumped and queried.

use vstd::prelude::*;

use crate::text::same;

verus! {

/// A JSON value. The entries of an object stand in the order in which they were
/// read.
#[derive(Debug, PartialEq, Eq)]
pub enum Json {
    Null,
    Bool(bool),
    Number(Number),
    Text(String),
    Array(Vec<Json>),
    Object(Vec<Entry>),
}

/// One key of an object with its value.
#[derive(Debug, PartialEq, Eq)]
pub struct Entry {
    pub key: String,
    pub value: Json,
}

/// A JSON number: how it is written, and its value where that is an integer of
/// 64 bits.
#[derive(Debug, PartialEq, Eq)]
pub struct Number {
    pub text: String,
    pub value: Option<i64>,
}

/// What a [`Json`] value says.
pub enum JsonView {
    Null,
    Bool(bool),
    Number(Seq<char>, Option<i64>),
    Text(Seq<char>),
    Array(Seq<JsonView>),
    Object(Seq<EntryView>),
}

/// What an [`Entry`] says.
pub struct EntryView {
    pub key: Seq<char>,
    pub value: JsonView,
}

impl Json {
    /// What the value says.
    pub open spec fn model(self) -> JsonView
        decreases self,
    {
        match self {
            Json::Null => JsonView::Null,
            Json::Bool(b) => JsonView::Bool(b),
            Json::Number(n) => JsonView::Number(n.text@, n.value),
            Json::Text(s) => JsonView::Text(s@),
            Json::Array(items) => JsonView::Array(
                Seq::new(
                    items@.len(),
                    |i: int|
                        if 0 <= i < items@.len() {
                            items@[i].model()
                        } else {
                            arbitrary()
                        },
                ),
            ),
            Json::Object(entries) => JsonView::Object(
                Seq::new(
                    entries@.len(),
                    |i: int|
                        if 0 <= i < entries@.len() {
                            EntryView { key: entries@[i].key@, value: entries@[i].value.model() }
                        } else {
                            arbitrary()
                        },
                ),
            ),
        }
    }
}

impl View for Json {
    type V = JsonView;

    open spec fn view(&self) -> JsonView {
        self.model()
    }
}

/// The value of the first entry with the given key.
pub open spec fn value_of(entries: Seq<EntryView>, key: Seq<char>) -> Option<JsonView>
    decreases entries.len(),
{
    if entries.len() == 0 {
        None
    } else if entries[0].key == key {
        Some(entries[0].value)
    } else {
        value_of(entries.skip(1), key)
    }
}

impl JsonView {
    /// The value under `key`, if this is an object that has it.
    pub open spec fn get(self, key: Seq<char>) -> Option<JsonView> {
        match self {
            JsonView::Object(entries) => value_of(entries, key),
            _ => None,
        }
    }

    /// The text, if this is one.
    pub open spec fn as_text(self) -> Option<Seq<char>> {
        match self {
            JsonView::Text(s) => Some(s),
            _ => None,
        }
    }

    /// The number, if this is an integer of 64 bits.
    pub open spec fn as_int(self) -> Option<i64> {
        match self {
            JsonView::Number(_, value) => value,
            _ => None,
        }
    }
}

/// The entries of an object.
pub open spec fn entry_views(entries: Seq<Entry>) -> Seq<EntryView> {
    entries.map_values(|e: Entry| EntryView { key: e.key@, value: e.value@ })
}

/// The items of an array.
pub open spec fn item_views(items: Seq<Json>) -> Seq<JsonView> {
    items.map_values(|v: Json| v@)
}

pub proof fn lemma_object_view(entries: Vec<Entry>)
    ensures
        Json::Object(entries)@ == JsonView::Object(entry_views(entries@)),
{
    let lhs = Json::Object(entries)@->Object_0;
    assert(lhs =~= entry_views(entries@));
}

pub proof fn lemma_array_view(items: Vec<Json>)
    ensures
        Json::Array(items)@ == JsonView::Array(item_views(items@)),
{
    let lhs = Json::Array(items)@->Array_0;
    assert(lhs =~= item_views(items@));
}

/// The value of the first entry with the given key.
#[verifier::loop_isolation(false)]
pub fn find_entry<'a>(entries: &'a Vec<Entry>, key: &str) -> (r: Option<&'a Json>)
    ensures
        match r {
            Some(v) => value_of(entry_views(entries@), key@) == Some(v@),
            None => value_of(entry_views(entries@), key@) is None,
        },
{
    let ghost all = entry_views(entries@);
    assert(all.skip(0) =~= all);
    let mut i: usize = 0;
    while i < entries.len()
        invariant
            i <= entries@.len(),
            all == entry_views(entries@),
            value_of(all, key@) == value_of(all.skip(i as int), key@),
        decreases entries@.len() - i,
    {
        if same(entries[i].key.as_str(), key) {
            return Some(&entries[i].value);
        }
        assert(all.skip(i as int).skip(1) =~= all.skip(i + 1));
        i += 1;
    }
    None
}

impl Json {
    /// The value under `key`, if this is an object that has it.
    pub fn get(&self, key: &str) -> (r: Option<&Json>)
        ensures
            match r {
                Some(v) => self@.get(key@) == Some(v@),
                None => self@.get(key@) is None,
            },
    {
        match self {
            Json::Object(entries) => {
                proof {
                    lemma_object_view(*entries);
                }
                find_entry(entries, key)
            },
            _ => None,
        }
    }

    /// The text, if this is one.
    pub fn as_text(&self) -> (r: Option<&String>)
        ensures
            match r {
                Some(s) => self@.as_text() == Some(s@),
                None => self@.as_text() is None,
            },
    {
        match self {
            Json::Text(s) => Some(s),
            _ => None,
        }
    }

    /// The number, if this is an integer of 64 bits.
    pub fn as_int(&self) -> (r: Option<i64>)
        ensures
            r == self@.as_int(),
    {
        match self {
            Json::Number(n) => n.value,
            _ => None,
        }
    }
}

impl Json {
    /// A value that says the same.
    #[verifier::loop_isolation(false)]
    pub fn copy(&self) -> (r: Json)
        ensures
            r@ == self@,
        decreases *self,
    {
        match self {
            Json::Null => Json::Null,
            Json::Bool(b) => Json::Bool(*b),
            Json::Number(n) => Json::Number(Number { text: n.text.clone(), value: n.value }),
            Json::Text(s) => Json::Text(s.clone()),
            Json::Array(items) => {
                let mut out: Vec<Json> = Vec::new();
                let mut i: usize = 0;
                while i < items.len()
                    invariant
                        i <= items@.len(),
                        out@.len() == i,
                        forall|k: int| 0 <= k < i ==> (#[trigger] out@[k])@ == items@[k]@,
                    decreases items@.len() - i,
                {
                    out.push(items[i].copy());
                    i += 1;
                }
                proof {
                    lemma_array_view(*items);
                    lemma_array_view(out);
                    assert(item_views(out@) =~= item_views(items@));
                }
                Json::Array(out)
            },
            Json::Object(entries) => {
                let mut out: Vec<Entry> = Vec::new();
                let mut i: usize = 0;
                while i < entries.len()
                    invariant
                        i <= entries@.len(),
                        out@.len() == i,
                        forall|k: int|
                            0 <= k < i ==> (#[trigger] out@[k]).key@ == entries@[k].key@
                                && out@[k].value@ == entries@[k].value@,
                    decreases entries@.len() - i,
                {
                    out.push(Entry { key: entries[i].key.clone(), value: entries[i].value.copy() });
                    i += 1;
                }
                proof {
                    lemma_object_view(*entries);
                    lemma_object_view(out);
                    assert(entry_views(out@) =~= entry_views(entries@));
                }
                Json::Object(out)
            },
        }
    }
}

} // verus!
