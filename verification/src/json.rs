//! JSON documents: parsed by `serde_json`, read here.

use vstd::prelude::*;
use crate::text::same;

verus! {

/// A JSON value. The fields of a record are in the order of their names.
#[derive(Debug)]
pub enum Json {
    Null,
    Bool(bool),
    Number(String),
    Text(String),
    List(Vec<Json>),
    Record(Vec<(String, Json)>),
}

/// What a JSON value is.
pub enum JsonView {
    Null,
    Bool(bool),
    Number(Seq<char>),
    Text(Seq<char>),
    List(Seq<JsonView>),
    Record(Seq<(Seq<char>, JsonView)>),
}

impl View for Json {
    type V = JsonView;

    open spec fn view(&self) -> JsonView
        decreases self,
    {
        match *self {
            Json::Null => JsonView::Null,
            Json::Bool(b) => JsonView::Bool(b),
            Json::Number(s) => JsonView::Number(s@),
            Json::Text(s) => JsonView::Text(s@),
            Json::List(items) => JsonView::List(list_view(items@)),
            Json::Record(fields) => JsonView::Record(record_view(fields@)),
        }
    }
}

/// What the items of a list are.
pub open spec fn list_view(items: Seq<Json>) -> Seq<JsonView>
    decreases items,
{
    Seq::new(
        items.len(),
        |i: int|
            if 0 <= i < items.len() {
                items[i].view()
            } else {
                JsonView::Null
            },
    )
}

/// What the fields of a record are.
pub open spec fn record_view(fields: Seq<(String, Json)>) -> Seq<(Seq<char>, JsonView)>
    decreases fields,
{
    Seq::new(
        fields.len(),
        |i: int|
            if 0 <= i < fields.len() {
                (fields[i].0@, fields[i].1.view())
            } else {
                (seq![], JsonView::Null)
            },
    )
}

/// The outcome of parsing, by what it holds.
pub open spec fn outcome_view(r: Result<Json, String>) -> Result<JsonView, Seq<char>> {
    match r {
        Ok(v) => Ok(v@),
        Err(e) => Err(e@),
    }
}

/// What `serde_json::from_str` makes of a text: the value, or what is said
/// of the first fault.
pub uninterp spec fn parsed_json(text: Seq<char>) -> Result<JsonView, Seq<char>>;

/// A parsed value, as `serde_json` has it.
#[verifier::external_type_specification]
#[verifier::external_body]
pub struct ExValue(serde_json::Value);

/// The value as this library has it: one variant for each of
/// `serde_json::Value`, with what it holds. Nothing is claimed of it here;
/// [`parse_json`] claims what the whole conversion gives.
#[verifier::external_body]
fn converted(v: serde_json::Value) -> (r: Json) {
    match v {
        serde_json::Value::Null => Json::Null,
        serde_json::Value::Bool(b) => Json::Bool(b),
        serde_json::Value::Number(n) => Json::Number(n.to_string()),
        serde_json::Value::String(s) => Json::Text(s),
        serde_json::Value::Array(items) => Json::List(items.into_iter().map(converted).collect()),
        serde_json::Value::Object(fields) => {
            Json::Record(fields.into_iter().map(|f| (f.0, converted(f.1))).collect())
        },
    }
}

/// `serde_json::from_str`, into a `serde_json::Value`: parses a text. The
/// outcome depends on the text alone and is named by [`parsed_json`]; the
/// grammar is not written out here.
#[verifier::external_body]
pub(crate) fn parse_json(text: &str) -> (r: Result<Json, String>)
    ensures
        outcome_view(r) == parsed_json(text@),
{
    let parsed: Result<serde_json::Value, serde_json::Error> = serde_json::from_str(text);
    match parsed {
        Ok(v) => Ok(converted(v)),
        Err(e) => Err(e.to_string()),
    }
}

/// The first of the first `n` fields with this name.
pub open spec fn field_in(fields: Seq<(Seq<char>, JsonView)>, key: Seq<char>, n: nat) -> Option<
    JsonView,
>
    decreases n,
{
    if n == 0 {
        None
    } else if field_in(fields, key, (n - 1) as nat) is Some {
        field_in(fields, key, (n - 1) as nat)
    } else if fields[n - 1].0 == key {
        Some(fields[n - 1].1)
    } else {
        None
    }
}

/// The field of a record. Nothing else has fields.
pub open spec fn field(v: JsonView, key: Seq<char>) -> Option<JsonView> {
    match v {
        JsonView::Record(fields) => field_in(fields, key, fields.len()),
        _ => None,
    }
}

/// The text that a value is.
pub open spec fn text_of(v: JsonView) -> Option<Seq<char>> {
    match v {
        JsonView::Text(s) => Some(s),
        _ => None,
    }
}

/// The text in a field.
pub open spec fn text_field(v: JsonView, key: Seq<char>) -> Option<Seq<char>> {
    match field(v, key) {
        Some(f) => text_of(f),
        None => None,
    }
}

/// The list in a field.
pub open spec fn list_field(v: JsonView, key: Seq<char>) -> Option<Seq<JsonView>> {
    match field(v, key) {
        Some(JsonView::List(items)) => Some(items),
        _ => None,
    }
}

/// The texts among the first `n` items.
pub open spec fn texts_in(items: Seq<JsonView>, n: nat) -> Seq<Seq<char>>
    decreases n,
{
    if n == 0 {
        seq![]
    } else {
        match text_of(items[n - 1]) {
            Some(s) => texts_in(items, (n - 1) as nat).push(s),
            None => texts_in(items, (n - 1) as nat),
        }
    }
}

impl Json {
    /// The field of a record.
    pub fn get(&self, key: &str) -> (r: Option<&Json>)
        ensures
            match r {
                Some(v) => field(self@, key@) == Some(v@),
                None => field(self@, key@) is None,
            },
    {
        match self {
            Json::Record(fields) => {
                let ghost all = record_view(fields@);
                let mut found: Option<usize> = None;
                let mut n: usize = 0;
                while n < fields.len()
                    invariant
                        n <= fields@.len(),
                        all == record_view(fields@),
                        match found {
                            Some(i) => i < n && field_in(all, key@, n as nat) == Some(
                                fields@[i as int].1@,
                            ),
                            None => field_in(all, key@, n as nat) is None,
                        },
                    decreases fields@.len() - n,
                {
                    assert(all[n as int] == (fields@[n as int].0@, fields@[n as int].1@));
                    if found.is_none() && same(fields[n].0.as_str(), key) {
                        found = Some(n);
                    }
                    n += 1;
                }
                match found {
                    Some(i) => Some(&fields[i].1),
                    None => None,
                }
            },
            _ => None,
        }
    }

    /// The text that a value is.
    pub fn as_str(&self) -> (r: Option<&str>)
        ensures
            match r {
                Some(s) => text_of(self@) == Some(s@),
                None => text_of(self@) is None,
            },
    {
        match self {
            Json::Text(s) => Some(s.as_str()),
            _ => None,
        }
    }

    /// The items of a list.
    pub fn as_array(&self) -> (r: Option<&Vec<Json>>)
        ensures
            match r {
                Some(items) => self@ == JsonView::List(list_view(items@)),
                None => !(self@ is List),
            },
    {
        match self {
            Json::List(items) => Some(items),
            _ => None,
        }
    }

    /// The fields of a record.
    pub fn as_object(&self) -> (r: Option<&Vec<(String, Json)>>)
        ensures
            match r {
                Some(fields) => self@ == JsonView::Record(record_view(fields@)),
                None => !(self@ is Record),
            },
    {
        match self {
            Json::Record(fields) => Some(fields),
            _ => None,
        }
    }

    /// The text in a field.
    pub fn text_at(&self, key: &str) -> (r: Option<&str>)
        ensures
            match r {
                Some(s) => text_field(self@, key@) == Some(s@),
                None => text_field(self@, key@) is None,
            },
    {
        match self.get(key) {
            Some(v) => v.as_str(),
            None => None,
        }
    }

    /// The list in a field.
    pub fn list_at(&self, key: &str) -> (r: Option<&Vec<Json>>)
        ensures
            match r {
                Some(items) => list_field(self@, key@) == Some(list_view(items@)),
                None => list_field(self@, key@) is None,
            },
    {
        match self.get(key) {
            Some(v) => v.as_array(),
            None => None,
        }
    }
}

/// The texts in a list, each by its characters.
pub open spec fn strings_view(strings: Seq<String>) -> Seq<Seq<char>> {
    Seq::new(strings.len(), |i: int| strings[i]@)
}

/// The texts among the items of a list.
pub fn texts(items: &Vec<Json>) -> (r: Vec<String>)
    ensures
        strings_view(r@) == texts_in(list_view(items@), items@.len()),
{
    let mut r: Vec<String> = Vec::new();
    let mut n: usize = 0;
    assert(strings_view(r@) =~= seq![]);
    while n < items.len()
        invariant
            n <= items@.len(),
            strings_view(r@) == texts_in(list_view(items@), n as nat),
        decreases items@.len() - n,
    {
        assert(list_view(items@)[n as int] == items@[n as int]@);
        let ghost before = r@;
        match items[n].as_str() {
            Some(s) => {
                r.push(s.to_owned());
                assert(strings_view(r@) =~= strings_view(before).push(s@));
            },
            None => {},
        }
        n += 1;
    }
    r
}

/// A field is what the record has under its key, and there is one just where
/// the value is a record that has the key.
pub proof fn law_fields_are_found_by_key(
    fields: Seq<(Seq<char>, JsonView)>,
    key: Seq<char>,
    n: nat,
)
    requires
        n <= fields.len(),
    ensures
        field_in(fields, key, n) matches Some(v) ==> exists|i: int|
            0 <= i < n && #[trigger] fields[i] == (key, v) && forall|j: int|
                0 <= j < i ==> (#[trigger] fields[j]).0 != key,
        field_in(fields, key, n) is None ==> forall|i: int|
            0 <= i < n ==> (#[trigger] fields[i]).0 != key,
    decreases n,
{
    if n > 0 {
        law_fields_are_found_by_key(fields, key, (n - 1) as nat);
        if field_in(fields, key, (n - 1) as nat) is Some {
            let v = field_in(fields, key, (n - 1) as nat)->0;
            let i = choose|i: int|
                0 <= i < n - 1 && #[trigger] fields[i] == (key, v) && forall|j: int|
                    0 <= j < i ==> (#[trigger] fields[j]).0 != key;
            assert(fields[i] == (key, v));
        } else if fields[n - 1].0 == key {
            assert(fields[n - 1] == (key, fields[n - 1].1));
        }
    }
}

/// Only texts are texts, and only records have fields.
pub proof fn law_values_are_what_they_are(v: JsonView, key: Seq<char>)
    ensures
        text_of(v) is Some <==> v is Text,
        v is Text ==> text_of(v) == Some(v->Text_0),
        !(v is Record) ==> field(v, key) is None,
        list_field(v, key) is Some <==> field(v, key) is Some && field(v, key)->0 is List,
        text_field(v, key) is Some <==> field(v, key) is Some && field(v, key)->0 is Text,
{
}

/// The texts of a list are those of its items that are texts, in order.
pub proof fn law_texts_are_taken_in_order(items: Seq<JsonView>, n: nat)
    requires
        0 < n <= items.len(),
    ensures
        items[n - 1] is Text ==> texts_in(items, n) == texts_in(items, (n - 1) as nat).push(
            items[n - 1]->Text_0,
        ),
        !(items[n - 1] is Text) ==> texts_in(items, n) == texts_in(items, (n - 1) as nat),
{
}

} // verus!
