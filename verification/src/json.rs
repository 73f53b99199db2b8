//! JSON values as the library reads them.

use vstd::prelude::*;

use crate::text;

verus! {

#[derive(Debug)]
pub enum Json {
    Null,
    Bool(bool),
    /// A number, with its value where it is a whole number that fits.
    Number(Option<u64>),
    Text(String),
    List(Vec<Json>),
    Object(Vec<(String, Json)>),
}

/// `serde_json::Value`, carried from the parser to `convert`.
#[verifier::external_type_specification]
#[verifier::external_body]
pub struct ExValue(serde_json::Value);

/// What `serde_json::from_str` makes of a text: the value, or the text of its
/// error.
pub uninterp spec fn parsed(text: Seq<char>) -> Result<Json, String>;

/// A `serde_json::Value` as a `Json`, part by part: a number keeps what
/// `as_u64` says of it. Nothing is claimed of it alone; `parse` says what a
/// text becomes.
#[verifier::external_body]
fn convert(value: serde_json::Value) -> Json {
    match value {
        serde_json::Value::Null => Json::Null,
        serde_json::Value::Bool(b) => Json::Bool(b),
        serde_json::Value::Number(n) => Json::Number(n.as_u64()),
        serde_json::Value::String(s) => Json::Text(s),
        serde_json::Value::Array(list) => Json::List(list.into_iter().map(convert).collect()),
        serde_json::Value::Object(map) => {
            Json::Object(map.into_iter().map(|(k, v)| (k, convert(v))).collect())
        },
    }
}

/// `serde_json::from_str` into a `serde_json::Value`. Claims that value and
/// error depend on the text alone.
#[verifier::external_body]
pub(crate) fn parse(text: &str) -> (r: Result<Json, String>)
    ensures
        r == parsed(text@),
{
    serde_json::from_str::<serde_json::Value>(text).map(convert).map_err(|e| e.to_string())
}

/// The first field named `key` from position `from` on.
pub open spec fn field_at(fields: Seq<(String, Json)>, key: Seq<char>, from: int) -> Option<Json>
    decreases fields.len() - from,
{
    if from < 0 || from >= fields.len() {
        None
    } else if fields[from].0@ == key {
        Some(fields[from].1)
    } else {
        field_at(fields, key, from + 1)
    }
}

impl Json {
    /// The member `key` of an object.
    pub open spec fn member(self, key: Seq<char>) -> Option<Json> {
        match self {
            Json::Object(fields) => field_at(fields@, key, 0),
            _ => None,
        }
    }

    pub open spec fn whole_member(self, key: Seq<char>) -> Option<u64> {
        match self.member(key) {
            Some(Json::Number(n)) => n,
            _ => None,
        }
    }

    pub open spec fn text_member(self, key: Seq<char>) -> Option<Seq<char>> {
        match self.member(key) {
            Some(Json::Text(s)) => Some(s@),
            _ => None,
        }
    }

    pub fn get(&self, key: &str) -> (r: Option<&Json>)
        ensures
            match r {
                Some(value) => self.member(key@) == Some(*value),
                None => self.member(key@) is None,
            },
    {
        match self {
            Json::Object(fields) => {
                let mut i: usize = 0;
                while i < fields.len()
                    invariant
                        i <= fields.len(),
                        self.member(key@) == field_at(fields@, key@, i as int),
                    decreases fields.len() - i,
                {
                    if text::same(fields[i].0.as_str(), key) {
                        return Some(&fields[i].1);
                    }
                    i += 1;
                }
                None
            },
            _ => None,
        }
    }

    pub fn get_u64(&self, key: &str) -> (r: Option<u64>)
        ensures
            r == self.whole_member(key@),
    {
        match self.get(key) {
            Some(Json::Number(n)) => *n,
            _ => None,
        }
    }

    pub fn get_text(&self, key: &str) -> (r: Option<String>)
        ensures
            text::opt_text(r) == self.text_member(key@),
    {
        match self.get(key) {
            Some(Json::Text(s)) => Some(s.clone()),
            _ => None,
        }
    }
}

// ------------------------------------------------------------------------ laws


/// A member is found by its name, and the first of a name counts.
pub proof fn law_members_are_found_by_name(
    fields: Seq<(String, Json)>,
    i: int,
    from: int,
)
    requires
        0 <= from <= i < fields.len(),
        forall|j: int| from <= j < i ==> (#[trigger] fields[j]).0@ != fields[i].0@,
    ensures
        field_at(fields, fields[i].0@, from) == Some(fields[i].1),
    decreases i - from,
{
    if from < i {
        assert(fields[from].0@ != fields[i].0@);
        law_members_are_found_by_name(fields, i, from + 1);
    }
}

/// What is no member is not found.
pub proof fn law_strangers_are_not_found(fields: Seq<(String, Json)>, key: Seq<char>, from: int)
    requires
        0 <= from <= fields.len(),
        forall|j: int| from <= j < fields.len() ==> (#[trigger] fields[j]).0@ != key,
    ensures
        field_at(fields, key, from) is None,
    decreases fields.len() - from,
{
    if from < fields.len() {
        law_strangers_are_not_found(fields, key, from + 1);
    }
}

} // verus!
