//! Reading the fields of a JSON request body, with serde_json.

use vstd::prelude::*;

verus! {

/// The string held by field `name` of the JSON object written in `text`;
/// `None` when `text` is not JSON, is not an object, lacks the field, or the
/// field is not a string.
pub uninterp spec fn string_field_of(text: Seq<char>, name: Seq<char>) -> Option<Seq<char>>;

pub open spec fn opt_view(o: Option<String>) -> Option<Seq<char>> {
    match o {
        Some(s) => Some(s@),
        None => None,
    }
}

pub open spec fn key_name() -> Seq<char> {
    seq!['k', 'e', 'y']
}

pub open spec fn value_name() -> Seq<char> {
    seq!['v', 'a', 'l', 'u', 'e']
}

/// Relies on serde_json::from_str (into a serde_json::Value), then
/// Value::get and Value::as_str: the string under field `name`, which
/// depends on the two texts alone.
#[verifier::external_body]
fn string_field(text: &str, name: &str) -> (r: Option<String>)
    ensures
        opt_view(r) == string_field_of(text@, name@),
{
    match serde_json::from_str::<serde_json::Value>(text) {
        Ok(v) => v.get(name).and_then(serde_json::Value::as_str).map(String::from),
        Err(_) => None,
    }
}

/// The `key` field of a request body.
pub fn parse_key(body: &str) -> (r: Option<String>)
    ensures
        opt_view(r) == string_field_of(body@, key_name()),
{
    proof {
        reveal_strlit("key");
    }
    let name = "key";
    assert(name@ =~= key_name());
    string_field(body, name)
}

/// The `key` and `value` fields of a publish request body; `None` unless
/// both are there as strings.
pub fn parse_publish(body: &str) -> (r: Option<(String, String)>)
    ensures
        r is Some <==> (string_field_of(body@, key_name()) is Some && string_field_of(
            body@,
            value_name(),
        ) is Some),
        r matches Some((k, v)) ==> Some(k@) == string_field_of(body@, key_name()) && Some(v@)
            == string_field_of(body@, value_name()),
{
    proof {
        reveal_strlit("value");
    }
    let key = parse_key(body);
    let name = "value";
    assert(name@ =~= value_name());
    let value = string_field(body, name);
    match (key, value) {
        (Some(k), Some(v)) => Some((k, v)),
        _ => None,
    }
}

} // verus!
