//! Members of a JSON object.
use vstd::prelude::*;

verus! {

/// A JSON value.
#[verifier::external_type_specification]
#[verifier::external_body]
pub struct ExJsonValue(serde_json::Value);

/// The members of a JSON object that are texts, by name; none of a value
/// that is no object.
pub uninterp spec fn json_texts(v: serde_json::Value) -> Map<Seq<char>, Seq<char>>;

/// The members that are numbers and fit 64 bits without a sign.
pub uninterp spec fn json_numbers(v: serde_json::Value) -> Map<Seq<char>, u64>;

/// The members that are truth values.
pub uninterp spec fn json_flags(v: serde_json::Value) -> Map<Seq<char>, bool>;

/// The members that are arrays.
pub uninterp spec fn json_lists(v: serde_json::Value) -> Map<Seq<char>, Seq<serde_json::Value>>;

/// What a map holds at a name.
pub open spec fn member<V>(members: Map<Seq<char>, V>, name: Seq<char>) -> Option<V> {
    if members.contains_key(name) {
        Some(members[name])
    } else {
        None
    }
}

/// `serde_json::Value::as_str` of a member. Trusted: it finds the member
/// among `json_texts`, and nothing where the value is no object, has no such
/// member or holds something else there.
#[verifier::external_body]
pub(crate) fn text_member(v: &serde_json::Value, name: &str) -> (text: Option<String>)
    ensures
        match text {
            Some(t) => member(json_texts(*v), name@) == Some(t@),
            None => member(json_texts(*v), name@) is None,
        },
{
    v[name].as_str().map(String::from)
}

/// `serde_json::Value::as_u64` of a member. Trusted: it finds the member
/// among `json_numbers`, or nothing.
#[verifier::external_body]
pub(crate) fn number_member(v: &serde_json::Value, name: &str) -> (n: Option<u64>)
    ensures
        n == member(json_numbers(*v), name@),
{
    v[name].as_u64()
}

/// `serde_json::Value::as_bool` of a member. Trusted: it finds the member
/// among `json_flags`, or nothing.
#[verifier::external_body]
pub(crate) fn flag_member(v: &serde_json::Value, name: &str) -> (b: Option<bool>)
    ensures
        b == member(json_flags(*v), name@),
{
    v[name].as_bool()
}

/// `serde_json::Value::as_array` of a member. Trusted: it finds the elements
/// of the member among `json_lists`, or nothing.
#[verifier::external_body]
pub(crate) fn list_member<'a>(v: &'a serde_json::Value, name: &str) -> (list: Option<&'a Vec<serde_json::Value>>)
    ensures
        match list {
            Some(l) => member(json_lists(*v), name@) == Some(l@),
            None => member(json_lists(*v), name@) is None,
        },
{
    v[name].as_array()
}

} // verus!
