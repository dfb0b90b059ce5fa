//! JSON values, as far as the worker reads and reports them.

use vstd::prelude::*;

use crate::text::{join, joined, text_equal, views};

verus! {

/// A JSON value, as far as the worker reads it; an object keeps its members in order.
#[derive(Debug)]
pub enum Json {
    Text(String),
    Array(Vec<Json>),
    Object(Vec<(String, Json)>),
    /// A number, a truth value or `null`.
    Other,
}

/// The first member of an object under a key.
pub open spec fn member(members: Seq<(String, Json)>, key: Seq<char>) -> Option<Json>
    decreases members.len(),
{
    if members.len() == 0 {
        None
    } else if members[0].0@ == key {
        Some(members[0].1)
    } else {
        member(members.drop_first(), key)
    }
}

impl Json {
    /// The member of an object under a key.
    pub open spec fn field(self, key: Seq<char>) -> Option<Json> {
        match self {
            Json::Object(members) => member(members@, key),
            _ => None,
        }
    }

    /// The text that the member under a key is.
    pub open spec fn text_field(self, key: Seq<char>) -> Option<Seq<char>> {
        match self.field(key) {
            Some(Json::Text(text)) => Some(text@),
            _ => None,
        }
    }

    /// The text that the first item of the array under a key is.
    pub open spec fn first_text(self, key: Seq<char>) -> Option<Seq<char>> {
        match self.field(key) {
            Some(Json::Array(items)) => if items@.len() == 0 {
                None
            } else {
                match items@[0] {
                    Json::Text(text) => Some(text@),
                    _ => None,
                }
            },
            _ => None,
        }
    }

    /// The member of an object under a key.
    pub fn get(&self, key: &str) -> (result: Option<&Json>)
        ensures
            match result {
                Some(value) => self.field(key@) == Some(*value),
                None => self.field(key@) is None,
            },
    {
        match self {
            Json::Object(members) => {
                let mut i: usize = 0;
                assert(members@.skip(0) == members@);
                while i < members.len()
                    invariant
                        *self == Json::Object(*members),
                        i <= members@.len(),
                        member(members@.skip(i as int), key@) == member(members@, key@),
                    decreases members@.len() - i,
                {
                    assert(members@.skip(i as int)[0] == members@[i as int]);
                    assert(members@.skip(i as int).drop_first() == members@.skip(i + 1));
                    if text_equal(members[i].0.as_str(), key) {
                        return Some(&members[i].1);
                    }
                    i += 1;
                }
                None
            },
            _ => None,
        }
    }

    /// The text that the member under a key is.
    pub fn get_text(&self, key: &str) -> (result: Option<&str>)
        ensures
            match result {
                Some(text) => self.text_field(key@) == Some(text@),
                None => self.text_field(key@) is None,
            },
    {
        match self.get(key) {
            Some(Json::Text(text)) => Some(text.as_str()),
            _ => None,
        }
    }

    /// The text that the first item of the array under a key is.
    pub fn get_first_text(&self, key: &str) -> (result: Option<&str>)
        ensures
            match result {
                Some(text) => self.first_text(key@) == Some(text@),
                None => self.first_text(key@) is None,
            },
    {
        match self.get(key) {
            Some(Json::Array(items)) => if items.len() == 0 {
                None
            } else {
                match &items[0] {
                    Json::Text(text) => Some(text.as_str()),
                    _ => None,
                }
            },
            _ => None,
        }
    }
}

/// The JSON array that holds JSON values, which are given as they are written.
pub open spec fn array_text(items: Seq<Seq<char>>) -> Seq<char> {
    "["@ + joined(items, ","@) + "]"@
}

/// Writes a JSON array of JSON values, which are given as they are written.
pub fn write_array(items: &[String]) -> (text: String)
    ensures
        text@ == array_text(views(items@)),
{
    let mut text = "[".to_owned();
    let inner = join(items, ",");
    text.append(inner.as_str());
    text.append("]");
    text
}

} // verus!
