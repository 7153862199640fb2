//! JSON values, as serde_json holds them.
//!
//! A value stays in serde_json's own type; what it holds is named by [`json_content`], and
//! each accessor below says what it reads in those terms.

use crate::figures::Real64;
use vstd::prelude::*;

verus! {

/// serde_json's value type.
#[verifier::external_type_specification]
#[verifier::external_body]
pub struct ExValue(serde_json::Value);

/// What a JSON value holds. Of a number, the platform reads its double-precision form.
pub enum JsonView {
    /// The null value.
    Null,
    /// A truth value.
    Bool(bool),
    /// A number, by its double-precision form where it has one.
    Number(Option<Real64>),
    /// A string.
    Text(Seq<char>),
    /// An array.
    List(Seq<JsonView>),
    /// An object.
    Object(Map<Seq<char>, JsonView>),
}

/// What a JSON value holds.
pub uninterp spec fn json_content(value: serde_json::Value) -> JsonView;

/// What a text reads as in JSON, or the message that says why it is not JSON.
pub uninterp spec fn json_parsed(text: Seq<char>) -> Result<JsonView, Seq<char>>;

/// What the values of an array hold.
pub open spec fn json_contents(values: Seq<serde_json::Value>) -> Seq<JsonView> {
    values.map_values(|value: serde_json::Value| json_content(value))
}

impl JsonView {
    /// The member of an object called `name`.
    pub open spec fn member(self, name: Seq<char>) -> Option<JsonView> {
        match self {
            JsonView::Object(members) => if members.contains_key(name) {
                Some(members[name])
            } else {
                None
            },
            _ => None,
        }
    }

    /// The text of a string.
    pub open spec fn string(self) -> Option<Seq<char>> {
        match self {
            JsonView::Text(text) => Some(text),
            _ => None,
        }
    }

    /// The items of an array.
    pub open spec fn items(self) -> Option<Seq<JsonView>> {
        match self {
            JsonView::List(items) => Some(items),
            _ => None,
        }
    }

    /// The double-precision form of a number.
    pub open spec fn number(self) -> Option<Real64> {
        match self {
            JsonView::Number(number) => number,
            _ => None,
        }
    }

    /// The text of the member called `name`, when there is one and it is a string.
    pub open spec fn member_string(self, name: Seq<char>) -> Option<Seq<char>> {
        match self.member(name) {
            Some(value) => value.string(),
            None => None,
        }
    }

    /// The items of the member called `name`, when there is one and it is an array.
    pub open spec fn member_items(self, name: Seq<char>) -> Option<Seq<JsonView>> {
        match self.member(name) {
            Some(value) => value.items(),
            None => None,
        }
    }

    /// The number in the member called `name`, when there is one and it is a number.
    pub open spec fn member_number(self, name: Seq<char>) -> Option<Real64> {
        match self.member(name) {
            Some(value) => value.number(),
            None => None,
        }
    }
}

/// `serde_json::from_str` into a `Value`, with the error by its `Display` text: a function
/// of the text alone.
#[verifier::external_body]
pub(crate) fn parse_json(text: &str) -> (r: Result<serde_json::Value, String>)
    ensures
        match r {
            Ok(value) => (json_parsed(text@) == Ok::<JsonView, Seq<char>>(json_content(value))),
            Err(message) => (json_parsed(text@) == Err::<JsonView, Seq<char>>(message@)),
        },
{
    match serde_json::from_str::<serde_json::Value>(text) {
        Ok(value) => Ok(value),
        Err(error) => Err(error.to_string()),
    }
}

/// `Value::is_object`: whether the value is an object.
#[verifier::external_body]
pub(crate) fn is_object(value: &serde_json::Value) -> (r: bool)
    ensures
        r == (json_content(*value) is Object),
{
    value.is_object()
}

/// `Value::get` with a string index: the member of an object, nothing for a value of
/// another kind.
#[verifier::external_body]
pub(crate) fn member<'a>(value: &'a serde_json::Value, name: &str) -> (r: Option<
    &'a serde_json::Value,
>)
    ensures
        match r {
            Some(found) => json_content(*value).member(name@) == Some(json_content(*found)),
            None => json_content(*value).member(name@) is None && r is None,
        },
{
    value.get(name)
}

/// `Value::as_str`: the text of a string, nothing for a value of another kind.
#[verifier::external_body]
pub(crate) fn as_text(value: &serde_json::Value) -> (r: Option<&str>)
    ensures
        match r {
            Some(text) => json_content(*value).string() == Some(text@),
            None => json_content(*value).string() is None && r is None,
        },
{
    value.as_str()
}

/// `Value::as_array`: the items of an array, nothing for a value of another kind.
#[verifier::external_body]
pub(crate) fn as_items(value: &serde_json::Value) -> (r: Option<&Vec<serde_json::Value>>)
    ensures
        match r {
            Some(items) => json_content(*value).items() == Some(json_contents(items@)),
            None => json_content(*value).items() is None && r is None,
        },
{
    value.as_array()
}

/// `Value::as_f64`: the double-precision form of a number, by its bit pattern; nothing for
/// a value of another kind.
#[verifier::external_body]
pub(crate) fn as_real(value: &serde_json::Value) -> (r: Option<Real64>)
    ensures
        r == json_content(*value).number(),
{
    value.as_f64().map(|number| Real64 { bits: number.to_bits() })
}

/// `Value::clone`: a value that holds the same.
#[verifier::external_body]
pub(crate) fn clone_json(value: &serde_json::Value) -> (r: serde_json::Value)
    ensures
        json_content(r) == json_content(*value),
{
    value.clone()
}

/// `serde_json::Map::insert` into an empty map: an object with one string member.
#[verifier::external_body]
pub(crate) fn text_object(name: &str, text: &str) -> (r: serde_json::Value)
    ensures
        json_content(r) == JsonView::Object(
            Map::<Seq<char>, JsonView>::empty().insert(name@, JsonView::Text(text@)),
        ),
{
    let mut members = serde_json::Map::new();
    members.insert(name.to_owned(), serde_json::Value::String(text.to_owned()));
    serde_json::Value::Object(members)
}

/// The text of the member called `name`, when there is one and it is a string.
pub(crate) fn member_text<'a>(value: &'a serde_json::Value, name: &str) -> (r: Option<&'a str>)
    ensures
        match r {
            Some(text) => json_content(*value).member_string(name@) == Some(text@),
            None => json_content(*value).member_string(name@) is None,
        },
{
    match member(value, name) {
        Some(found) => as_text(found),
        None => None,
    }
}

/// The number in the member called `name`, when there is one and it is a number.
pub(crate) fn member_real(value: &serde_json::Value, name: &str) -> (r: Option<Real64>)
    ensures
        r == json_content(*value).member_number(name@),
{
    match member(value, name) {
        Some(found) => as_real(found),
        None => None,
    }
}

/// The items of the member called `name`, when there is one and it is an array.
pub(crate) fn member_list<'a>(value: &'a serde_json::Value, name: &str) -> (r: Option<
    &'a Vec<serde_json::Value>,
>)
    ensures
        match r {
            Some(items) => json_content(*value).member_items(name@) == Some(
                json_contents(items@),
            ),
            None => json_content(*value).member_items(name@) is None,
        },
{
    match member(value, name) {
        Some(found) => as_items(found),
        None => None,
    }
}

} // verus!
