use vstd::prelude::*;

verus! {

#[verifier::external_type_specification]
#[verifier::external_body]
pub struct ExJsonValue(serde_json::Value);

#[verifier::external_type_specification]
#[verifier::external_body]
pub struct ExJsonError(serde_json::Error);

#[verifier::external_type_specification]
#[verifier::external_body]
#[verifier::reject_recursive_types(K)]
#[verifier::reject_recursive_types(V)]
pub struct ExJsonMap<K, V>(serde_json::Map<K, V>);

/// The document serde_json decodes from a text, `None` where the text is not
/// one JSON document.
pub uninterp spec fn json_decode(text: Seq<char>) -> Option<serde_json::Value>;

/// The members of a JSON value that is an object, `None` for any other value.
pub uninterp spec fn json_object(v: serde_json::Value) -> Option<serde_json::Map<String, serde_json::Value>>;

/// The value of the member named `key` of an object, if it has one.
pub uninterp spec fn json_member(
    m: serde_json::Map<String, serde_json::Value>,
    key: Seq<char>,
) -> Option<serde_json::Value>;

/// The text of a JSON value that is a string, `None` for any other value.
pub uninterp spec fn json_str(v: serde_json::Value) -> Option<Seq<char>>;

/// Relies on serde_json::from_str, read into a generic `Value`: the result
/// depends on the text alone, and is an error exactly when the text is not
/// one JSON document.
#[verifier::external_body]
pub(crate) fn decode_json(text: &str) -> (r: Result<serde_json::Value, serde_json::Error>)
    ensures
        r is Ok <==> json_decode(text@) is Some,
        r matches Ok(v) ==> json_decode(text@) == Some(v),
{
    serde_json::from_str::<serde_json::Value>(text)
}

/// Relies on serde_json::Value::as_object: the members of an object, `None`
/// for any other value.
#[verifier::external_body]
pub(crate) fn object_of(v: &serde_json::Value) -> (r: Option<&serde_json::Map<String, serde_json::Value>>)
    ensures
        r is None <==> json_object(*v) is None,
        r matches Some(m) ==> json_object(*v) == Some(*m),
{
    v.as_object()
}

/// Relies on serde_json::Map::get: the value of the member named `key`.
#[verifier::external_body]
pub(crate) fn member<'a>(m: &'a serde_json::Map<String, serde_json::Value>, key: &str) -> (r: Option<&'a serde_json::Value>)
    ensures
        r is None <==> json_member(*m, key@) is None,
        r matches Some(p) ==> json_member(*m, key@) == Some(*p),
{
    m.get(key)
}

/// Relies on serde_json::Value::as_str: the text of a string value, `None`
/// for any other value.
#[verifier::external_body]
pub(crate) fn string_of(v: &serde_json::Value) -> (r: Option<&str>)
    ensures
        r is None <==> json_str(*v) is None,
        r matches Some(s) ==> json_str(*v) == Some(s@),
{
    v.as_str()
}

/// Relies on the `Clone` impl of serde_json::Value, which copies the value.
pub assume_specification[ <serde_json::Value as Clone>::clone ](v: &serde_json::Value) -> (r: serde_json::Value)
    ensures
        r == *v,
;

} // verus!
