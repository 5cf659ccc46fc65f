//! A JSON document, as far as anything here reads one.

use crate::strings::{number_of, parse_i64, same};
use vstd::prelude::*;

verus! {

pub enum Json {
    Null,
    Bool(bool),
    /// A number as it is written, and what it is where it is a whole one that
    /// fits.
    Number { whole: Option<i64>, text: String },
    Text(String),
    List(Vec<Json>),
    /// Names with their values, in order.
    Object(Vec<(String, Json)>),
}

/// The value of the first member of that name.
pub open spec fn named(members: Seq<(String, Json)>, key: Seq<char>) -> Option<Json>
    decreases members.len(),
{
    if members.len() == 0 {
        None
    } else if members[0].0@ == key {
        Some(members[0].1)
    } else {
        named(members.drop_first(), key)
    }
}

/// The member of that name; none where the value is no object.
pub open spec fn member(value: Json, key: Seq<char>) -> Option<Json> {
    match value {
        Json::Object(members) => named(members@, key),
        _ => None,
    }
}

/// The member of that name, or null.
pub open spec fn member_or_null(value: Json, key: Seq<char>) -> Json {
    match member(value, key) {
        Some(found) => found,
        None => Json::Null,
    }
}

/// The member of the first name, or else that of the second, or null.
pub open spec fn either_member(value: Json, first: Seq<char>, second: Seq<char>) -> Json {
    match member(value, first) {
        Some(found) => found,
        None => member_or_null(value, second),
    }
}

pub open spec fn text_value(value: Option<Json>) -> Option<Seq<char>> {
    match value {
        Some(Json::Text(text)) => Some(text@),
        _ => None,
    }
}

/// A text member that is not empty.
pub open spec fn text_at(value: Json, key: Seq<char>) -> Option<Seq<char>> {
    match member(value, key) {
        Some(Json::Text(text)) => if text@.len() > 0 {
            Some(text@)
        } else {
            None
        },
        _ => None,
    }
}

/// A whole number, written as a number or as text.
pub open spec fn int_at(value: Json, key: Seq<char>) -> Option<i64> {
    match member(value, key) {
        Some(Json::Number { whole, .. }) => whole,
        Some(Json::Text(text)) => match number_of(text@) {
            Some(n) => if i64::MIN <= n <= i64::MAX {
                Some(n as i64)
            } else {
                None
            },
            None => None,
        },
        _ => None,
    }
}

/// An id as text, whichever way it is written.
pub open spec fn id_at(value: Json, key: Seq<char>) -> Option<Seq<char>> {
    match member(value, key) {
        Some(Json::Number { text, .. }) => Some(text@),
        _ => text_at(value, key),
    }
}

pub open spec fn bool_value(value: Option<Json>) -> Option<bool> {
    match value {
        Some(Json::Bool(b)) => Some(b),
        _ => None,
    }
}

/// The view of a text that may be missing.
pub open spec fn seen(text: Option<String>) -> Option<Seq<char>> {
    match text {
        Some(t) => Some(t@),
        None => None,
    }
}

impl Json {
    pub fn get(&self, key: &str) -> (found: Option<&Json>)
        ensures
            match found {
                Some(value) => member(*self, key@) == Some(*value),
                None => member(*self, key@) is None,
            },
    {
        match self {
            Json::Object(members) => {
                let mut i: usize = 0;
                assert(members@.skip(0) =~= members@);
                while i < members.len()
                    invariant
                        i <= members@.len(),
                        member(*self, key@) == named(members@, key@),
                        named(members@.skip(i as int), key@) == named(members@, key@),
                    decreases members@.len() - i,
                {
                    assert(members@.skip(i as int)[0] == members@[i as int]);
                    assert(members@.skip(i as int).drop_first() =~= members@.skip(i + 1));
                    if same(members[i].0.as_str(), key) {
                        return Some(&members[i].1);
                    }
                    i = i + 1;
                }
                None
            },
            _ => None,
        }
    }

    /// A text member that is not empty.
    pub fn text(&self, key: &str) -> (text: Option<String>)
        ensures
            seen(text) == text_at(*self, key@),
    {
        match self.get(key) {
            Some(Json::Text(text)) => if text.as_str().is_empty() {
                None
            } else {
                Some(text.clone())
            },
            _ => None,
        }
    }

    /// Ids arrive as numbers for tracks and artists and as strings for albums,
    /// and not always consistently, so either shape is accepted everywhere.
    pub fn as_i64(&self, key: &str) -> (n: Option<i64>)
        ensures
            n == int_at(*self, key@),
    {
        match self.get(key) {
            Some(Json::Number { whole, .. }) => *whole,
            Some(Json::Text(text)) => parse_i64(text.as_str()),
            _ => None,
        }
    }

    pub fn as_id_string(&self, key: &str) -> (id: Option<String>)
        ensures
            seen(id) == id_at(*self, key@),
    {
        match self.get(key) {
            Some(Json::Number { text, .. }) => Some(text.clone()),
            _ => self.text(key),
        }
    }

    pub fn flag(&self, key: &str) -> (flag: Option<bool>)
        ensures
            flag == bool_value(member(*self, key@)),
    {
        match self.get(key) {
            Some(Json::Bool(b)) => Some(*b),
            _ => None,
        }
    }

    /// The `name` of the member of that name, empty or not.
    pub fn name_of(&self, key: &str) -> (name: Option<String>)
        ensures
            seen(name) == (match member(*self, key@) {
                Some(inner) => text_value(member(inner, "name"@)),
                None => None,
            }),
    {
        match self.get(key) {
            Some(inner) => match inner.get("name") {
                Some(Json::Text(text)) => Some(text.clone()),
                _ => None,
            },
            None => None,
        }
    }
}

} // verus!
